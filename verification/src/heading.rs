//! Markdown ATX headings (`# Title`) and the table-of-contents line that each
//! one becomes under a `Config`.
use std::path::PathBuf;
use vstd::prelude::*;

use crate::slug::{slug_seq, slugify};
use crate::text::{
    append_chars, chars_of, is_white_space, lemma_trim_leaves_no_whitespace,
    lemma_trim_start_is_suffix, string_of, sub_chars, trim_end_chars, trim_end_seq,
    trim_start_chars, trim_start_seq,
};

verus! {

#[verifier::external_type_specification]
#[verifier::external_body]
pub struct ExPathBuf(PathBuf);

/// A heading: its level counted from 0 (`#` is 0, `##` is 1) and its title.
#[derive(Debug)]
pub struct Heading {
    pub depth: usize,
    pub title: String,
}

/// Where the markdown text comes from.
#[derive(Debug)]
pub enum InputFile {
    Path(PathBuf),
    StdIn,
}

/// How headings are turned into table-of-contents lines.
#[derive(Debug)]
pub struct Config {
    pub input_file: InputFile,
    pub bullet: String,
    pub indent: usize,
    pub max_depth: Option<usize>,
    pub min_depth: usize,
    pub header: Option<String>,
    pub no_link: bool,
}

/// The number of copies of `c` that `s` starts with.
pub open spec fn leading_count(s: Seq<char>, c: char) -> nat
    decreases s.len(),
{
    if s.len() > 0 && s[0] == c {
        1 + leading_count(s.drop_first(), c)
    } else {
        0
    }
}

/// A line read as a heading: after trailing whitespace is removed it must start
/// with `#`; the depth is the number of leading `#` less one, and the title is
/// the rest with its leading whitespace removed.
pub open spec fn parse_heading(line: Seq<char>) -> Option<(nat, Seq<char>)> {
    let t = trim_end_seq(line);
    if t.len() > 0 && t[0] == '#' {
        let n = leading_count(t, '#');
        Some(((n - 1) as nat, trim_start_seq(t.skip(n as int))))
    } else {
        None
    }
}

/// `s` repeated `n` times.
pub open spec fn repeat_seq(s: Seq<char>, n: nat) -> Seq<char>
    decreases n,
{
    if n == 0 {
        Seq::<char>::empty()
    } else {
        repeat_seq(s, (n - 1) as nat) + s
    }
}

/// `n` spaces.
pub open spec fn spaces(n: nat) -> Seq<char> {
    Seq::new(n, |i: int| ' ')
}

/// A heading of this depth is listed under `config`.
pub open spec fn in_depth_range(depth: nat, config: Config) -> bool {
    &&& depth >= config.min_depth
    &&& match config.max_depth {
        Some(m) => depth <= m,
        None => true,
    }
}

/// `[title](#anchor)`.
pub open spec fn link_seq(title: Seq<char>) -> Seq<char> {
    seq!['['] + title + seq![']', '(', '#'] + slug_seq(title) + seq![')']
}

/// The table-of-contents line of a heading, when its depth is listed: an
/// indentation of `indent` spaces per level below `min_depth`, the bullet, a
/// space, and the title, as a link to its anchor unless `no_link`.
pub open spec fn heading_line(depth: nat, title: Seq<char>, config: Config) -> Option<Seq<char>> {
    if in_depth_range(depth, config) {
        Some(
            repeat_seq(spaces(config.indent as nat), (depth - config.min_depth) as nat)
                + config.bullet@ + seq![' '] + if config.no_link {
                title
            } else {
                link_seq(title)
            },
        )
    } else {
        None
    }
}

/// `k` copies of `#`.
pub open spec fn hashes(k: nat) -> Seq<char> {
    Seq::new(k, |i: int| '#')
}

/// `k` copies of `#` followed by text that does not start with `#` start with
/// exactly `k` of them.
pub proof fn lemma_leading_hashes(k: nat, rest: Seq<char>)
    requires
        rest.len() == 0 || rest[0] != '#',
    ensures
        leading_count(hashes(k) + rest, '#') == k,
    decreases k,
{
    if k > 0 {
        assert((hashes(k) + rest).drop_first() =~= hashes((k - 1) as nat) + rest);
        lemma_leading_hashes((k - 1) as nat, rest);
    } else {
        assert(hashes(k) + rest =~= rest);
    }
}

/// A heading written as `depth + 1` hashes, a space and a title reads back as
/// that depth and title, whenever the title has no leading or trailing
/// whitespace and does not itself start with `#`.
pub proof fn lemma_parse_written_heading(depth: nat, title: Seq<char>)
    requires
        title.len() > 0 ==> !is_white_space(title[0]) && !is_white_space(title.last()) && title[0]
            != '#',
    ensures
        parse_heading(hashes(depth + 1) + seq![' '] + title) == Some((depth, title)),
{
    let line = hashes(depth + 1) + seq![' '] + title;
    let k = (depth + 1) as nat;
    if title.len() > 0 {
        assert(line.last() == title.last());
        assert(trim_end_seq(line) == line);
        lemma_leading_hashes(k, seq![' '] + title);
        assert(line =~= hashes(k) + (seq![' '] + title));
        assert(line.skip(k as int) =~= seq![' '] + title);
        assert((seq![' '] + title).drop_first() =~= title);
        assert(trim_start_seq(seq![' '] + title) == trim_start_seq(title));
    } else {
        assert(line.drop_last() =~= hashes(k));
        assert(trim_end_seq(hashes(k)) == hashes(k));
        assert(trim_end_seq(line) == hashes(k));
        lemma_leading_hashes(k, Seq::<char>::empty());
        assert(hashes(k) + Seq::<char>::empty() =~= hashes(k));
        assert(hashes(k).skip(k as int) =~= title);
    }
}

/// A title read from a line has no leading or trailing whitespace.
pub proof fn lemma_parsed_title_trimmed(line: Seq<char>)
    ensures
        parse_heading(line) matches Some((d, t)) ==> (t.len() > 0 ==> !is_white_space(t[0])
            && !is_white_space(t.last())),
{
    let x = trim_end_seq(line);
    if x.len() > 0 && x[0] == '#' {
        let n = leading_count(x, '#');
        lemma_leading_count_bound(x, '#');
        let y = x.skip(n as int);
        lemma_trim_leaves_no_whitespace(line);
        lemma_trim_leaves_no_whitespace(y);
        lemma_trim_start_is_suffix(y);
        let t = trim_start_seq(y);
        if t.len() > 0 {
            let k = choose|k: int| 0 <= k <= y.len() && t == y.skip(k);
            assert(t.last() == y.last());
            assert(y.last() == x.last());
        }
    }
}

/// A text starts with at most as many copies of a character as it has characters.
pub proof fn lemma_leading_count_bound(s: Seq<char>, c: char)
    ensures
        leading_count(s, c) <= s.len(),
    decreases s.len(),
{
    if s.len() > 0 {
        lemma_leading_count_bound(s.drop_first(), c);
    }
}

/// `n` copies of `s` take `n * |s|` characters.
pub proof fn lemma_repeat_len(s: Seq<char>, n: nat)
    ensures
        repeat_seq(s, n).len() == n * s.len(),
    decreases n,
{
    if n > 0 {
        lemma_repeat_len(s, (n - 1) as nat);
        assert((n - 1) * s.len() + s.len() == n * s.len()) by (nonlinear_arith);
    } else {
        assert(n * s.len() == 0) by (nonlinear_arith)
            requires
                n == 0,
        ;
    }
}

/// Repetitions of spaces are spaces.
pub proof fn lemma_repeat_spaces(k: nat, n: nat)
    ensures
        repeat_seq(spaces(k), n) == spaces(n * k),
    decreases n,
{
    if n > 0 {
        lemma_repeat_spaces(k, (n - 1) as nat);
        assert((n - 1) * k + k == n * k) by (nonlinear_arith);
        assert(repeat_seq(spaces(k), n) =~= spaces(n * k));
    } else {
        assert(n * k == 0) by (nonlinear_arith)
            requires
                n == 0,
        ;
        assert(repeat_seq(spaces(k), n) =~= spaces(n * k));
    }
}

/// A table-of-contents line is made exactly for the depths from `min_depth` up to
/// `max_depth`, and then it is `indent * (depth - min_depth)` spaces, the bullet,
/// a space, and the title, which is `[title](#anchor)` unless `no_link`: each
/// level below `min_depth` indents by `indent` more spaces, however deep.
pub proof fn lemma_heading_line_layout(depth: nat, title: Seq<char>, config: Config)
    ensures
        heading_line(depth, title, config) is Some <==> (depth >= config.min_depth
            && match config.max_depth {
            Some(m) => depth <= m,
            None => true,
        }),
        heading_line(depth, title, config) is Some ==> heading_line(depth, title, config)->0
            == Seq::new((config.indent * (depth - config.min_depth)) as nat, |i: int| ' ')
            + config.bullet@ + seq![' '] + if config.no_link {
            title
        } else {
            seq!['['] + title + seq![']', '(', '#'] + slug_seq(title) + seq![')']
        },
{
    if depth >= config.min_depth {
        let n = (depth - config.min_depth) as nat;
        let k = config.indent as nat;
        lemma_repeat_spaces(k, n);
        assert(n * k == k * n) by (nonlinear_arith);
        assert(spaces(n * k) =~= Seq::new((config.indent * (depth - config.min_depth)) as nat, |i: int| ' '));
    }
}

/// Counts the leading `#` of `t`.
fn count_leading_hashes(t: &Vec<char>) -> (n: usize)
    ensures
        n == leading_count(t@, '#'),
        n <= t.len(),
{
    let mut n: usize = 0;
    proof {
        assert(t@.skip(0) =~= t@);
    }
    while n < t.len() && t[n] == '#'
        invariant
            n <= t.len(),
            leading_count(t@, '#') == n + leading_count(t@.skip(n as int), '#'),
        decreases t.len() - n,
    {
        proof {
            assert(t@.skip(n as int).drop_first() =~= t@.skip(n + 1));
        }
        n += 1;
    }
    proof {
        if n < t.len() {
            assert(t@.skip(n as int)[0] == t@[n as int]);
        }
    }
    n
}

/// Appends `n` copies of `unit` to `out`.
fn push_repeated(out: &mut Vec<char>, unit: &Vec<char>, n: usize)
    ensures
        final(out)@ == old(out)@ + repeat_seq(unit@, n as nat),
{
    let mut i: usize = 0;
    while i < n
        invariant
            i <= n,
            out@ == old(out)@ + repeat_seq(unit@, i as nat),
        decreases n - i,
    {
        append_chars(out, unit);
        proof {
            assert(repeat_seq(unit@, (i + 1) as nat) == repeat_seq(unit@, i as nat) + unit@);
        }
        i += 1;
    }
}

impl Heading {
    /// Reads a line as a heading; `Err(())` when it is not one.
    pub fn parse(s: &str) -> (r: Result<Heading, ()>)
        ensures
            match parse_heading(s@) {
                Some((d, t)) => r matches Ok(h) && h.depth == d && h.title@ == t,
                None => r is Err,
            },
    {
        let chars = chars_of(s);
        let trimmed = trim_end_chars(&chars);
        if trimmed.len() > 0 && trimmed[0] == '#' {
            let n = count_leading_hashes(&trimmed);
            proof {
                assert(trimmed@.skip(n as int) =~= trimmed@.subrange(n as int, trimmed.len() as int));
            }
            let rest = sub_chars(&trimmed, n, trimmed.len());
            let title = trim_start_chars(&rest);
            Ok(Heading { depth: n - 1, title: string_of(&title) })
        } else {
            Err(())
        }
    }

    /// The table-of-contents line of this heading under `config`, or `None` when
    /// its depth lies outside `min_depth ..= max_depth`.
    pub fn format(&self, config: &Config) -> (r: Option<String>)
        ensures
            r.deep_view() == heading_line(self.depth as nat, self.title@, *config),
            r matches Some(l) ==> l@ == Seq::new(
                (config.indent * (self.depth - config.min_depth)) as nat,
                |i: int| ' ',
            ) + config.bullet@ + seq![' '] + if config.no_link {
                self.title@
            } else {
                seq!['['] + self.title@ + seq![']', '(', '#'] + slug_seq(self.title@) + seq![')']
            },
    {
        proof {
            lemma_heading_line_layout(self.depth as nat, self.title@, *config);
        }
        let in_range = self.depth >= config.min_depth && match config.max_depth {
            Some(d) => self.depth <= d,
            None => true,
        };
        if !in_range {
            return None;
        }
        let space = vec![' '];
        let mut unit: Vec<char> = Vec::new();
        push_repeated(&mut unit, &space, config.indent);
        proof {
            lemma_repeat_spaces(1, config.indent as nat);
            assert(space@ =~= spaces(1));
            assert(config.indent as nat * 1 == config.indent as nat);
            assert(unit@ =~= spaces(config.indent as nat));
        }
        let mut line: Vec<char> = Vec::new();
        push_repeated(&mut line, &unit, self.depth - config.min_depth);
        append_chars(&mut line, &chars_of(config.bullet.as_str()));
        line.push(' ');
        let title = chars_of(self.title.as_str());
        if config.no_link {
            append_chars(&mut line, &title);
        } else {
            line.push('[');
            append_chars(&mut line, &title);
            line.push(']');
            line.push('(');
            line.push('#');
            let anchor = slugify(self.title.as_str());
            append_chars(&mut line, &chars_of(anchor.as_str()));
            line.push(')');
        }
        proof {
            let expected = heading_line(self.depth as nat, self.title@, *config).unwrap();
            assert(line@ =~= expected);
        }
        Some(string_of(&line))
    }
}

impl std::str::FromStr for Heading {
    type Err = ();

    /// Reads a line as a heading, as `Heading::parse` does.
    fn from_str(s: &str) -> (r: Result<Self, Self::Err>)
        ensures
            match parse_heading(s@) {
                Some((d, t)) => r matches Ok(h) && h.depth == d && h.title@ == t,
                None => r is Err,
            },
    {
        Heading::parse(s)
    }
}

impl Default for Config {
    /// Reads standard input; bullet `1.`, four spaces per level, every depth,
    /// header `## Table of Contents`, links on.
    fn default() -> (c: Config)
        ensures
            c.input_file is StdIn,
            c.bullet@ == seq!['1', '.'],
            c.indent == 4,
            c.max_depth is None,
            c.min_depth == 0,
            c.no_link == false,
            c.header matches Some(h) && h@ == seq![
                '#', '#', ' ', 'T', 'a', 'b', 'l', 'e', ' ', 'o', 'f', ' ', 'C', 'o', 'n', 't', 'e',
                'n', 't', 's',
            ],
    {
        proof {
            reveal_strlit("1.");
            reveal_strlit("## Table of Contents");
        }
        Config {
            input_file: InputFile::StdIn,
            bullet: "1.".to_owned(),
            indent: 4,
            max_depth: None,
            min_depth: 0,
            no_link: false,
            header: Some("## Table of Contents".to_owned()),
        }
    }
}

/// The configuration with which a file's table of contents is compiled: read
/// from `path`, bullet `1.`, four spaces per level, every depth, no header,
/// links on.
pub fn compile_config(path: PathBuf) -> (c: Config)
    ensures
        c.input_file == InputFile::Path(path),
        c.bullet@ == seq!['1', '.'],
        c.indent == 4,
        c.max_depth is None,
        c.min_depth == 0,
        c.header is None,
        c.no_link == false,
{
    proof {
        reveal_strlit("1.");
    }
    Config {
        input_file: InputFile::Path(path),
        bullet: "1.".to_owned(),
        indent: 4,
        max_depth: None,
        min_depth: 0,
        header: None,
        no_link: false,
    }
}

} // verus!
