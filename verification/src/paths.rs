//! Paths of the source and output trees, held as their components, and the
//! rebasing of source files onto the output directory.
use vstd::prelude::*;

use crate::text::{append_chars, chars_of, string_of, sub_chars};

verus! {

/// A path as the sequence of its components, each held as its text: `/` for the
/// root directory, `.` for a leading current directory, `..` for a parent
/// directory, and the name otherwise (the components that `Path::components`
/// yields).
#[derive(Clone, Debug)]
pub struct FilePath {
    pub components: Vec<String>,
}

impl View for FilePath {
    type V = Seq<Seq<char>>;

    open spec fn view(&self) -> Seq<Seq<char>> {
        self.components.deep_view()
    }
}

/// A source file and the file that is written for it.
#[derive(Clone, Debug)]
pub struct FileEntry {
    pub root: FilePath,
    pub source: FilePath,
    pub output: FilePath,
}

/// The root directory component.
pub open spec fn root_component() -> Seq<char> {
    seq!['/']
}

/// A component that names a file or directory (not the root, `.` or `..`).
pub open spec fn is_name(c: Seq<char>) -> bool {
    c != root_component() && c != seq!['.'] && c != seq!['.', '.']
}

/// The components that `Path::components` can yield: none is empty, the root
/// and `.` stand only first, and only the root holds a `/`.
pub open spec fn is_path(p: Seq<Seq<char>>) -> bool {
    forall|i: int|
        0 <= i < p.len() ==> {
            &&& (#[trigger] p[i]).len() > 0
            &&& i > 0 ==> p[i] != root_component() && p[i] != seq!['.']
            &&& p[i] != root_component() ==> !p[i].contains('/')
        }
}

/// `base` starts with the components of `prefix` (`Path::strip_prefix` succeeds).
pub open spec fn is_component_prefix(prefix: Seq<Seq<char>>, path: Seq<Seq<char>>) -> bool {
    prefix.len() <= path.len() && path.subrange(0, prefix.len() as int) == prefix
}

/// `rel` appended to `base` (`PathBuf::push`): a path that starts at the root
/// replaces `base`; otherwise its components follow those of `base`, where a
/// leading `.` of `rel` disappears once it is no longer at the start.
pub open spec fn join_seq(base: Seq<Seq<char>>, rel: Seq<Seq<char>>) -> Seq<Seq<char>> {
    if rel.len() > 0 && rel[0] == root_component() {
        rel
    } else if base.len() > 0 && rel.len() > 0 && rel[0] == seq!['.'] {
        base + rel.drop_first()
    } else {
        base + rel
    }
}

/// The parent of a path (`Path::parent`): the path without its last component,
/// unless that component is the root or there is none.
pub open spec fn parent_seq(p: Seq<Seq<char>>) -> Option<Seq<Seq<char>>> {
    if p.len() == 0 || p.last() == root_component() {
        None
    } else {
        Some(p.drop_last())
    }
}

/// The index of the last `c` in `s`, or -1.
pub open spec fn last_index_of(s: Seq<char>, c: char) -> int
    decreases s.len(),
{
    if s.len() == 0 {
        -1
    } else if s.last() == c {
        s.len() - 1
    } else {
        last_index_of(s.drop_last(), c)
    }
}

/// The stem of a file name (`Path::file_stem`): the name before its last `.`,
/// unless that `.` is its first character or there is none.
pub open spec fn stem_seq(name: Seq<char>) -> Seq<char> {
    let k = last_index_of(name, '.');
    if k <= 0 {
        name
    } else {
        name.take(k)
    }
}

/// The path with the extension of its file name set to `ext`
/// (`PathBuf::set_extension`); a path whose last component is not a name is
/// left as it is.
pub open spec fn with_extension_seq(p: Seq<Seq<char>>, ext: Seq<char>) -> Seq<Seq<char>> {
    if p.len() > 0 && is_name(p.last()) {
        p.update(
            p.len() - 1,
            stem_seq(p.last()) + if ext.len() > 0 {
                seq!['.'] + ext
            } else {
                Seq::<char>::empty()
            },
        )
    } else {
        p
    }
}

/// The file that is written for `path` of the tree under `source_dir`: the same
/// place relative to `out_dir`.
pub open spec fn rebased_seq(
    path: Seq<Seq<char>>,
    source_dir: Seq<Seq<char>>,
    out_dir: Seq<Seq<char>>,
) -> Seq<Seq<char>> {
    join_seq(out_dir, path.skip(source_dir.len() as int))
}

/// A copy of a path.
pub fn copy_path(p: &FilePath) -> (r: FilePath)
    ensures
        r@ == p@,
{
    let mut out: Vec<String> = Vec::new();
    let mut i: usize = 0;
    while i < p.components.len()
        invariant
            i <= p.components.len(),
            out.deep_view() == p@.take(i as int),
        decreases p.components.len() - i,
    {
        let c = p.components[i].clone();
        let ghost before = out.deep_view();
        out.push(c);
        proof {
            assert(out.deep_view() =~= before.push(p@[i as int]));
            assert(p@.take(i + 1) =~= p@.take(i as int).push(p@[i as int]));
        }
        i += 1;
    }
    proof {
        assert(p@.take(i as int) =~= p@);
    }
    FilePath { components: out }
}

/// The components of `p` from index `from` on.
fn components_from(p: &FilePath, from: usize) -> (r: FilePath)
    requires
        from <= p@.len(),
    ensures
        r@ == p@.skip(from as int),
{
    let mut out: Vec<String> = Vec::new();
    let mut i: usize = from;
    while i < p.components.len()
        invariant
            from <= i <= p.components.len(),
            out.deep_view() == p@.subrange(from as int, i as int),
        decreases p.components.len() - i,
    {
        let c = p.components[i].clone();
        let ghost before = out.deep_view();
        out.push(c);
        proof {
            assert(out.deep_view() =~= before.push(p@[i as int]));
            assert(p@.subrange(from as int, i + 1) =~= p@.subrange(from as int, i as int).push(
                p@[i as int],
            ));
        }
        i += 1;
    }
    proof {
        assert(p@.subrange(from as int, i as int) =~= p@.skip(from as int));
    }
    FilePath { components: out }
}

/// Appends the components of `tail` from index `from` on to `out`.
fn push_components(out: &mut FilePath, tail: &FilePath, from: usize)
    requires
        from <= tail@.len(),
    ensures
        final(out)@ == old(out)@ + tail@.skip(from as int),
{
    let mut i: usize = from;
    while i < tail.components.len()
        invariant
            from <= i <= tail.components.len(),
            out@ == old(out)@ + tail@.subrange(from as int, i as int),
        decreases tail.components.len() - i,
    {
        let c = tail.components[i].clone();
        let ghost before = out@;
        out.components.push(c);
        proof {
            assert(out@ =~= before.push(tail@[i as int]));
            assert(tail@.subrange(from as int, i + 1) =~= tail@.subrange(from as int, i as int).push(
                tail@[i as int],
            ));
        }
        i += 1;
    }
    proof {
        assert(tail@.subrange(from as int, i as int) =~= tail@.skip(from as int));
    }
}

/// Whether the component text `c` is the given literal text.
fn component_is(c: &String, lit: &str) -> (b: bool)
    ensures
        b == (c@ == lit@),
{
    let l = lit.to_owned();
    *c == l
}

/// Whether `prefix` is a leading run of the components of `path`.
pub fn is_prefix_path(prefix: &FilePath, path: &FilePath) -> (b: bool)
    ensures
        b == is_component_prefix(prefix@, path@),
{
    if prefix.components.len() > path.components.len() {
        return false;
    }
    let mut i: usize = 0;
    while i < prefix.components.len()
        invariant
            prefix@.len() <= path@.len(),
            i <= prefix@.len(),
            forall|k: int| 0 <= k < i ==> path@[k] == prefix@[k],
        decreases prefix.components.len() - i,
    {
        if path.components[i] != prefix.components[i] {
            proof {
                assert(path@.subrange(0, prefix@.len() as int)[i as int] != prefix@[i as int]);
            }
            return false;
        }
        i += 1;
    }
    proof {
        assert(path@.subrange(0, prefix@.len() as int) =~= prefix@);
    }
    true
}

/// Whether two paths have the same components (`Path`'s `==`).
pub fn same_path(a: &FilePath, b: &FilePath) -> (r: bool)
    ensures
        r == (a@ == b@),
{
    let r = a.components.len() == b.components.len() && is_prefix_path(a, b);
    proof {
        if a@.len() == b@.len() && is_component_prefix(a@, b@) {
            assert(b@.subrange(0, a@.len() as int) =~= b@);
        }
        if a@ == b@ {
            assert(b@.subrange(0, a@.len() as int) =~= a@);
        }
    }
    r
}

/// `path` relative to `reference` (`path.strip_prefix(reference).unwrap()`).
/// `reference` must be a leading run of the components of `path`.
pub fn strip_parent(path: &FilePath, reference: &FilePath) -> (r: FilePath)
    requires
        is_component_prefix(reference@, path@),
    ensures
        r@ == path@.skip(reference@.len() as int),
        reference@ + r@ == path@,
        is_path(path@) ==> is_path(r@),
        is_path(path@) ==> join_seq(reference@, r@) == path@,
{
    let r = components_from(path, reference.components.len());
    proof {
        assert(reference@ + r@ =~= path@);
        if is_path(path@) {
            lemma_strip_join_round_trip(path@, reference@);
        }
    }
    r
}

/// `rel` appended to `base` (`Path::join`).
pub fn join(base: &FilePath, rel: &FilePath) -> (r: FilePath)
    ensures
        r@ == join_seq(base@, rel@),
        is_path(base@) && is_path(rel@) ==> is_path(r@),
{
    proof {
        lemma_join_is_path(base@, rel@);
    }
    proof {
        reveal_strlit("/");
        reveal_strlit(".");
        assert("/"@ =~= root_component());
        assert("."@ =~= seq!['.']);
    }
    if rel.components.len() > 0 && component_is(&rel.components[0], "/") {
        proof {
            assert(rel@[0] == rel.components@[0]@);
        }
        return copy_path(rel);
    }
    proof {
        if rel@.len() > 0 {
            assert(rel@[0] == rel.components@[0]@);
        }
    }
    let mut out = copy_path(base);
    if base.components.len() > 0 && rel.components.len() > 0 && component_is(
        &rel.components[0],
        ".",
    ) {
        push_components(&mut out, rel, 1);
        proof {
            assert(rel@.skip(1) =~= rel@.drop_first());
        }
    } else {
        push_components(&mut out, rel, 0);
        proof {
            assert(rel@.skip(0) =~= rel@);
        }
    }
    out
}

/// Joining valid paths gives a valid path.
pub proof fn lemma_join_is_path(base: Seq<Seq<char>>, rel: Seq<Seq<char>>)
    ensures
        is_path(base) && is_path(rel) ==> is_path(join_seq(base, rel)),
{
    if is_path(base) && is_path(rel) {
        let j = join_seq(base, rel);
        if rel.len() > 0 && rel[0] == root_component() {
        } else if base.len() > 0 && rel.len() > 0 && rel[0] == seq!['.'] {
            assert forall|i: int| 0 <= i < j.len() implies {
                &&& (#[trigger] j[i]).len() > 0
                &&& i > 0 ==> j[i] != root_component() && j[i] != seq!['.']
                &&& j[i] != root_component() ==> !j[i].contains('/')
            } by {
                if i >= base.len() {
                    assert(j[i] == rel[i - base.len() + 1]);
                }
            }
        } else {
            assert forall|i: int| 0 <= i < j.len() implies {
                &&& (#[trigger] j[i]).len() > 0
                &&& i > 0 ==> j[i] != root_component() && j[i] != seq!['.']
                &&& j[i] != root_component() ==> !j[i].contains('/')
            } by {
                if i >= base.len() {
                    assert(j[i] == rel[i - base.len()]);
                    if i > 0 && i == base.len() {
                        assert(rel[0] != root_component());
                        assert(base.len() > 0);
                        assert(rel[0] != seq!['.']);
                    }
                }
            }
        }
    }
}

/// Joining the part of a path below one of its leading runs back onto that run
/// gives the path again (`reference.join(path.strip_prefix(reference)) == path`).
pub proof fn lemma_strip_join_round_trip(path: Seq<Seq<char>>, reference: Seq<Seq<char>>)
    requires
        is_path(path),
        is_component_prefix(reference, path),
    ensures
        join_seq(reference, path.skip(reference.len() as int)) == path,
{
    let rel = path.skip(reference.len() as int);
    assert(reference + rel =~= path) by {
        assert(path.subrange(0, reference.len() as int) == reference);
    }
    if rel.len() > 0 {
        assert(rel[0] == path[reference.len() as int]);
        if reference.len() == 0 {
            assert(rel =~= path);
        }
    }
}

/// Whether a path's components are ones `Path::components` can yield.
pub fn is_valid_path(p: &FilePath) -> (b: bool)
    ensures
        b == is_path(p@),
{
    let n = p.components.len();
    let mut i: usize = 0;
    while i < n
        invariant
            n == p@.len(),
            i <= n,
            forall|k: int|
                0 <= k < i ==> {
                    &&& (#[trigger] p@[k]).len() > 0
                    &&& k > 0 ==> p@[k] != root_component() && p@[k] != seq!['.']
                    &&& p@[k] != root_component() ==> !p@[k].contains('/')
                },
        decreases n - i,
    {
        let c = chars_of(p.components[i].as_str());
        proof {
            reveal_strlit("/");
            reveal_strlit(".");
            assert("/"@ =~= root_component());
            assert("."@ =~= seq!['.']);
            assert(c@ == p@[i as int]);
        }
        if c.len() == 0 {
            return false;
        }
        let is_root = component_is(&p.components[i], "/");
        if i > 0 && (is_root || component_is(&p.components[i], ".")) {
            return false;
        }
        if !is_root {
            let mut j: usize = 0;
            proof {
                assert(p@[i as int] != root_component());
            }
            while j < c.len()
                invariant
                    j <= c.len(),
                    i < n,
                    n == p@.len(),
                    c@ == p@[i as int],
                    p@[i as int] != root_component(),
                    forall|k: int| 0 <= k < j ==> c@[k] != '/',
                decreases c.len() - j,
            {
                if c[j] == '/' {
                    proof {
                        assert(c@[j as int] == '/');
                    }
                    return false;
                }
                j += 1;
            }
        }
        proof {
            if !is_root {
                assert(!c@.contains('/'));
            }
        }
        i += 1;
    }
    true
}

/// The parent of a path (`Path::parent`).
pub fn parent(p: &FilePath) -> (r: Option<FilePath>)
    ensures
        match parent_seq(p@) {
            Some(q) => r matches Some(x) && x@ == q,
            None => r is None,
        },
{
    let n = p.components.len();
    if n == 0 {
        return None;
    }
    proof {
        reveal_strlit("/");
        assert("/"@ =~= root_component());
        assert(p@.last() == p.components@[n - 1]@);
    }
    if component_is(&p.components[n - 1], "/") {
        return None;
    }
    let mut out = FilePath { components: Vec::new() };
    proof {
        assert(out@ =~= Seq::<Seq<char>>::empty());
    }
    let mut i: usize = 0;
    while i < n - 1
        invariant
            n == p@.len(),
            n > 0,
            i <= n - 1,
            out@ == p@.take(i as int),
        decreases n - 1 - i,
    {
        let c = p.components[i].clone();
        let ghost before = out@;
        out.components.push(c);
        proof {
            assert(out@ =~= before.push(p@[i as int]));
            assert(p@.take(i + 1) =~= p@.take(i as int).push(p@[i as int]));
        }
        i += 1;
    }
    proof {
        assert(p@.take(i as int) =~= p@.drop_last());
    }
    Some(out)
}

/// The parent of `p`, or `fallback` when it has none.
pub open spec fn parent_or_seq(p: Seq<Seq<char>>, fallback: Seq<Seq<char>>) -> Seq<Seq<char>> {
    match parent_seq(p) {
        Some(q) => q,
        None => fallback,
    }
}

/// The first of `files` whose directory (its parent, or `input` when it has
/// none) is `dir`.
pub open spec fn first_in_dir(
    files: Seq<Seq<Seq<char>>>,
    input: Seq<Seq<char>>,
    dir: Seq<Seq<char>>,
) -> Option<Seq<Seq<char>>>
    decreases files.len(),
{
    if files.len() == 0 {
        None
    } else if parent_or_seq(files[0], input) == dir {
        Some(files[0])
    } else {
        first_in_dir(files.drop_first(), input, dir)
    }
}

/// `index.html` in the input directory.
pub open spec fn root_index_seq(input: Seq<Seq<char>>) -> Seq<Seq<char>> {
    join_seq(input, seq!["index.html"@])
}

/// The template of a page: the first index file in the page's directory, else
/// the input directory's `index.html` when it exists, else none.
pub open spec fn index_file_seq(
    input: Seq<Seq<char>>,
    index_files: Seq<Seq<Seq<char>>>,
    file: Seq<Seq<char>>,
    root_index_exists: bool,
) -> Option<Seq<Seq<char>>> {
    match first_in_dir(index_files, input, parent_or_seq(file, input)) {
        Some(f) => Some(f),
        None => if root_index_exists {
            Some(root_index_seq(input))
        } else {
            None
        },
    }
}

/// The first of `files` whose directory is `dir` is what `first_in_dir` finds.
proof fn lemma_first_in_dir_at(
    files: Seq<Seq<Seq<char>>>,
    input: Seq<Seq<char>>,
    dir: Seq<Seq<char>>,
    k: int,
)
    requires
        0 <= k < files.len(),
        parent_or_seq(files[k], input) == dir,
        forall|j: int| 0 <= j < k ==> parent_or_seq(#[trigger] files[j], input) != dir,
    ensures
        first_in_dir(files, input, dir) == Some(files[k]),
    decreases k,
{
    if k > 0 {
        let rest = files.drop_first();
        assert(parent_or_seq(files[0], input) != dir);
        assert forall|j: int| 0 <= j < k - 1 implies parent_or_seq(#[trigger] rest[j], input)
            != dir by {
            assert(rest[j] == files[j + 1]);
        }
        lemma_first_in_dir_at(rest, input, dir, k - 1);
    }
}

/// When none of `files` lies in `dir`, `first_in_dir` finds nothing.
proof fn lemma_first_in_dir_none(
    files: Seq<Seq<Seq<char>>>,
    input: Seq<Seq<char>>,
    dir: Seq<Seq<char>>,
)
    requires
        forall|j: int| 0 <= j < files.len() ==> parent_or_seq(#[trigger] files[j], input) != dir,
    ensures
        first_in_dir(files, input, dir) is None,
    decreases files.len(),
{
    if files.len() > 0 {
        let rest = files.drop_first();
        assert(parent_or_seq(files[0], input) != dir);
        assert forall|j: int| 0 <= j < rest.len() implies parent_or_seq(#[trigger] rest[j], input)
            != dir by {
            assert(rest[j] == files[j + 1]);
        }
        lemma_first_in_dir_none(rest, input, dir);
    }
}

/// The template of a page is the first index file whose directory (its parent,
/// or `input` when it has none) is the page's directory (taken the same way):
/// not a later one, and not one of an enclosing directory.
pub proof fn lemma_index_file_first_in_page_dir(
    input: Seq<Seq<char>>,
    index_files: Seq<Seq<Seq<char>>>,
    file: Seq<Seq<char>>,
    root_index_exists: bool,
    k: int,
)
    requires
        0 <= k < index_files.len(),
        (match parent_seq(index_files[k]) {
            Some(q) => q,
            None => input,
        }) == (match parent_seq(file) {
            Some(q) => q,
            None => input,
        }),
        forall|j: int|
            0 <= j < k ==> (match parent_seq(#[trigger] index_files[j]) {
                Some(q) => q,
                None => input,
            }) != (match parent_seq(file) {
                Some(q) => q,
                None => input,
            }),
    ensures
        index_file_seq(input, index_files, file, root_index_exists) == Some(index_files[k]),
{
    let dir = parent_or_seq(file, input);
    assert forall|j: int| 0 <= j < k implies parent_or_seq(#[trigger] index_files[j], input)
        != dir by {}
    lemma_first_in_dir_at(index_files, input, dir, k);
}

/// When no index file lies in the page's directory, the template is the input
/// directory's `index.html` if it exists, and there is none otherwise.
pub proof fn lemma_index_file_falls_back_to_root(
    input: Seq<Seq<char>>,
    index_files: Seq<Seq<Seq<char>>>,
    file: Seq<Seq<char>>,
    root_index_exists: bool,
)
    requires
        forall|j: int|
            0 <= j < index_files.len() ==> (match parent_seq(#[trigger] index_files[j]) {
                Some(q) => q,
                None => input,
            }) != (match parent_seq(file) {
                Some(q) => q,
                None => input,
            }),
    ensures
        index_file_seq(input, index_files, file, root_index_exists) == if root_index_exists {
            Some(input + seq!["index.html"@])
        } else {
            None
        },
{
    let dir = parent_or_seq(file, input);
    assert forall|j: int| 0 <= j < index_files.len() implies parent_or_seq(
        #[trigger] index_files[j],
        input,
    ) != dir by {}
    lemma_first_in_dir_none(index_files, input, dir);
    reveal_strlit("index.html");
    assert("index.html"@.len() == 10);
    assert(seq!["index.html"@][0] == "index.html"@);
    assert(seq!["index.html"@][0].len() != root_component().len());
    assert(seq!["index.html"@][0].len() != seq!['.'].len());
}

/// The views of a sequence of paths.
pub open spec fn paths_view(paths: Seq<FilePath>) -> Seq<Seq<Seq<char>>> {
    paths.map_values(|p: FilePath| p@)
}

/// Every one of `paths` lies under `dir`.
pub open spec fn all_under(paths: Seq<FilePath>, dir: Seq<Seq<char>>) -> bool {
    forall|i: int| 0 <= i < paths.len() ==> is_component_prefix(dir, #[trigger] paths[i]@)
}

impl FileEntry {
    /// The written file's path with the extension `ext` (`set_extension`).
    pub fn output_with_ext(&self, ext: &str) -> (r: FilePath)
        requires
            forall|i: int| 0 <= i < ext@.len() ==> ext@[i] != '/',
        ensures
            r@ == with_extension_seq(self.output@, ext@),
    {
        let mut out = copy_path(&self.output);
        let n = out.components.len();
        if n == 0 {
            return out;
        }
        proof {
            reveal_strlit("/");
            reveal_strlit(".");
            reveal_strlit("..");
            assert("/"@ =~= root_component());
            assert("."@ =~= seq!['.']);
            assert(".."@ =~= seq!['.', '.']);
            assert(out@.last() == out.components@[n - 1]@);
        }
        let last = &out.components[n - 1];
        if component_is(last, "/") || component_is(last, ".") || component_is(last, "..") {
            return out;
        }
        let renamed = name_with_extension(last, ext);
        let ghost before = out@;
        out.components.set(n - 1, renamed);
        proof {
            assert(out@ =~= with_extension_seq(before, ext@));
        }
        out
    }

    /// The directory of the written file, or `fallback` when its path has no
    /// parent.
    pub fn output_dir(&self, fallback: &FilePath) -> (r: FilePath)
        ensures
            r@ == parent_or_seq(self.output@, fallback@),
    {
        match parent(&self.output) {
            Some(p) => p,
            None => copy_path(fallback),
        }
    }
}

/// The entry of `path`, a file under `source_dir`, whose output lies at the same
/// place under `out_dir`.
pub fn rebase_parent(path: &FilePath, source_dir: &FilePath, out_dir: &FilePath) -> (r: FileEntry)
    requires
        is_component_prefix(source_dir@, path@),
    ensures
        r.root@ == source_dir@,
        r.source@ == path@,
        r.output@ == rebased_seq(path@, source_dir@, out_dir@),
{
    let rel = strip_parent(path, source_dir);
    FileEntry { root: copy_path(source_dir), source: copy_path(path), output: join(out_dir, &rel) }
}

/// The entries of `paths`, files under `paths_parent`, with outputs at the same
/// places under `new_parent`.
pub fn rebase_parents(paths: &Vec<FilePath>, paths_parent: &FilePath, new_parent: &FilePath) -> (r:
    Vec<FileEntry>)
    requires
        all_under(paths@, paths_parent@),
    ensures
        r.len() == paths.len(),
        forall|i: int|
            0 <= i < r.len() ==> {
                &&& (#[trigger] r@[i]).root@ == paths_parent@
                &&& r@[i].source@ == paths@[i]@
                &&& r@[i].output@ == rebased_seq(paths@[i]@, paths_parent@, new_parent@)
            },
{
    let mut out: Vec<FileEntry> = Vec::new();
    let mut i: usize = 0;
    while i < paths.len()
        invariant
            i <= paths.len(),
            all_under(paths@, paths_parent@),
            out.len() == i,
            forall|j: int|
                0 <= j < i ==> {
                    &&& (#[trigger] out@[j]).root@ == paths_parent@
                    &&& out@[j].source@ == paths@[j]@
                    &&& out@[j].output@ == rebased_seq(
                        paths@[j]@,
                        paths_parent@,
                        new_parent@,
                    )
                },
        decreases paths.len() - i,
    {
        proof {
            assert(is_component_prefix(paths_parent@, paths@[i as int]@));
        }
        out.push(rebase_parent(&paths[i], paths_parent, new_parent));
        i += 1;
    }
    out
}

/// The directories that the written files of `files` go into: each output's
/// parent, or `output` when it has none.
pub fn output_dirs(input: &FilePath, output: &FilePath, files: &Vec<FilePath>) -> (r: Vec<FilePath>)
    requires
        all_under(files@, input@),
    ensures
        r.len() == files.len(),
        forall|i: int|
            0 <= i < r.len() ==> (#[trigger] r@[i])@ == parent_or_seq(
                rebased_seq(files@[i]@, input@, output@),
                output@,
            ),
{
    let entries = rebase_parents(files, input, output);
    let mut out: Vec<FilePath> = Vec::new();
    let mut i: usize = 0;
    while i < entries.len()
        invariant
            i <= entries.len(),
            entries.len() == files.len(),
            out.len() == i,
            forall|j: int|
                0 <= j < entries.len() ==> (#[trigger] entries@[j]).output@ == rebased_seq(
                    files@[j]@,
                    input@,
                    output@,
                ),
            forall|j: int|
                0 <= j < i ==> (#[trigger] out@[j])@ == parent_or_seq(
                    rebased_seq(files@[j]@, input@, output@),
                    output@,
                ),
        decreases entries.len() - i,
    {
        out.push(entries[i].output_dir(output));
        i += 1;
    }
    out
}

/// `index.html` in the input directory.
pub fn root_index_path(input: &FilePath) -> (r: FilePath)
    ensures
        r@ == root_index_seq(input@),
{
    let mut name: Vec<String> = Vec::new();
    name.push("index.html".to_owned());
    let rel = FilePath { components: name };
    proof {
        assert(rel@ =~= seq!["index.html"@]);
    }
    join(input, &rel)
}

/// The template of the page for `file`: the first of `index_files` (files under
/// `input`) in the same directory as `file`, taking a missing parent as
/// `input`; else `input`'s `index.html` when `root_index_exists` says it is on
/// disk; else none.
pub fn find_index_file_for(
    input: &FilePath,
    output: &FilePath,
    index_files: &Vec<FilePath>,
    file: &FilePath,
    root_index_exists: bool,
) -> (r: Option<FilePath>)
    requires
        all_under(index_files@, input@),
    ensures
        match index_file_seq(input@, paths_view(index_files@), file@, root_index_exists) {
            Some(f) => r matches Some(x) && x@ == f,
            None => r is None,
        },
{
    let entries = rebase_parents(index_files, input, output);
    let file_parent = match parent(file) {
        Some(p) => p,
        None => copy_path(input),
    };
    let ghost files = paths_view(index_files@);
    let mut i: usize = 0;
    proof {
        assert(files.skip(0) =~= files);
    }
    while i < entries.len()
        invariant
            i <= entries.len(),
            entries.len() == index_files.len(),
            files == paths_view(index_files@),
            file_parent@ == parent_or_seq(file@, input@),
            forall|j: int|
                0 <= j < entries.len() ==> (#[trigger] entries@[j]).source@ == index_files@[j]@,
            first_in_dir(files, input@, file_parent@) == first_in_dir(
                files.skip(i as int),
                input@,
                file_parent@,
            ),
        decreases entries.len() - i,
    {
        let source = &entries[i].source;
        let path_parent = match parent(source) {
            Some(p) => p,
            None => copy_path(input),
        };
        proof {
            assert(files.skip(i as int)[0] == source@);
            assert(files.skip(i as int).drop_first() =~= files.skip(i + 1));
        }
        if same_path(&path_parent, &file_parent) {
            return Some(copy_path(source));
        }
        i += 1;
    }
    if root_index_exists {
        Some(root_index_path(input))
    } else {
        None
    }
}

/// `rel` taken from the directory of `source` (`source.parent().unwrap().join(rel)`);
/// `None` when `source` has no parent.
pub fn sibling_path(source: &FilePath, rel: &FilePath) -> (r: Option<FilePath>)
    ensures
        match parent_seq(source@) {
            Some(dir) => r matches Some(x) && x@ == join_seq(dir, rel@),
            None => r is None,
        },
{
    match parent(source) {
        Some(dir) => Some(join(&dir, rel)),
        None => None,
    }
}

/// The last index of a character lies inside the text, or is -1.
proof fn lemma_last_index_bound(s: Seq<char>, c: char)
    ensures
        -1 <= last_index_of(s, c) < s.len(),
        last_index_of(s, c) >= 0 ==> s[last_index_of(s, c)] == c,
    decreases s.len(),
{
    if s.len() > 0 && s.last() != c {
        lemma_last_index_bound(s.drop_last(), c);
    }
}

/// The index of the last `c` in `s`, or -1.
fn last_index_of_exec(s: &Vec<char>, c: char) -> (k: Option<usize>)
    ensures
        match k {
            Some(i) => i == last_index_of(s@, c),
            None => last_index_of(s@, c) == -1,
        },
{
    let mut i: usize = s.len();
    proof {
        assert(s@.take(s.len() as int) =~= s@);
    }
    while i > 0
        invariant
            i <= s.len(),
            last_index_of(s@, c) == last_index_of(s@.take(i as int), c),
        decreases i,
    {
        proof {
            assert(s@.take(i as int).drop_last() =~= s@.take(i - 1));
            assert(s@.take(i as int).last() == s@[i - 1]);
        }
        if s[i - 1] == c {
            return Some(i - 1);
        }
        i -= 1;
    }
    None
}

/// The file name with its extension set to `ext`.
fn name_with_extension(name: &String, ext: &str) -> (r: String)
    ensures
        r@ == stem_seq(name@) + if ext@.len() > 0 {
            seq!['.'] + ext@
        } else {
            Seq::<char>::empty()
        },
{
    let chars = chars_of(name.as_str());
    proof {
        lemma_last_index_bound(chars@, '.');
    }
    let mut out = match last_index_of_exec(&chars, '.') {
        Some(k) if k > 0 => sub_chars(&chars, 0, k),
        _ => chars,
    };
    let ext_chars = chars_of(ext);
    if ext_chars.len() > 0 {
        out.push('.');
        append_chars(&mut out, &ext_chars);
    }
    proof {
        assert(out@ =~= stem_seq(name@) + if ext@.len() > 0 {
            seq!['.'] + ext@
        } else {
            Seq::<char>::empty()
        });
    }
    string_of(&out)
}

} // verus!

verus! {

/// A rebased file lies under the output directory, at the place it had under the
/// source directory, whenever that relative place neither starts at the root nor
/// with `.`.
pub proof fn lemma_rebased_under_output(
    path: Seq<Seq<char>>,
    source_dir: Seq<Seq<char>>,
    out_dir: Seq<Seq<char>>,
)
    requires
        is_component_prefix(source_dir, path),
        path.len() > source_dir.len() ==> path[source_dir.len() as int] != root_component()
            && path[source_dir.len() as int] != seq!['.'],
    ensures
        is_component_prefix(out_dir, rebased_seq(path, source_dir, out_dir)),
        rebased_seq(path, source_dir, out_dir).skip(out_dir.len() as int) == path.skip(
            source_dir.len() as int,
        ),
{
    let rel = path.skip(source_dir.len() as int);
    if rel.len() > 0 {
        assert(rel[0] == path[source_dir.len() as int]);
    }
    assert(join_seq(out_dir, rel) == out_dir + rel);
    assert((out_dir + rel).subrange(0, out_dir.len() as int) =~= out_dir);
    assert((out_dir + rel).skip(out_dir.len() as int) =~= rel);
}

/// The last `.` of a name followed by `.` and a text without `.` is the one
/// before that text.
proof fn lemma_last_dot_of_extended(stem: Seq<char>, ext: Seq<char>)
    requires
        forall|i: int| 0 <= i < ext.len() ==> ext[i] != '.',
    ensures
        last_index_of(stem + seq!['.'] + ext, '.') == stem.len(),
    decreases ext.len(),
{
    let s = stem + seq!['.'] + ext;
    if ext.len() == 0 {
        assert(s.last() == '.');
    } else {
        assert(s.last() == ext.last());
        assert(s.drop_last() =~= stem + seq!['.'] + ext.drop_last());
        lemma_last_dot_of_extended(stem, ext.drop_last());
    }
}

/// Setting a non-empty extension that holds no `.` a second time changes
/// nothing more.
pub proof fn lemma_with_extension_idempotent(p: Seq<Seq<char>>, ext: Seq<char>)
    requires
        ext.len() > 0,
        forall|i: int| 0 <= i < ext.len() ==> ext[i] != '.',
        p.len() > 0 ==> p.last().len() > 0,
    ensures
        with_extension_seq(with_extension_seq(p, ext), ext) == with_extension_seq(p, ext),
{
    if p.len() > 0 && is_name(p.last()) {
        let name = p.last();
        let stem = stem_seq(name);
        lemma_last_index_bound(name, '.');
        assert(stem.len() > 0);
        let renamed = stem + (seq!['.'] + ext);
        let q = with_extension_seq(p, ext);
        assert(q.last() == renamed);
        {
            lemma_last_dot_of_extended(stem, ext);
            assert(renamed =~= stem + seq!['.'] + ext);
            assert(stem_seq(renamed) =~= stem);
            assert(is_name(renamed)) by {
                assert(renamed.len() >= 2);
                if renamed == seq!['.', '.'] {
                    assert(renamed[1] == ext[0]);
                }
            }
        }
        assert(with_extension_seq(q, ext) =~= q);
    }
}

} // verus!
