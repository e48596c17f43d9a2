//! Character-level text handling: whitespace trimming, prefixes, substring
//! replacement, line splitting and joining, each over `Vec<char>` with a
//! specification over `Seq<char>`.
use vstd::prelude::*;

verus! {

/// The Unicode `White_Space` property: the characters that `char::is_whitespace`,
/// `str::trim_start` and `str::trim_end` treat as whitespace.
pub open spec fn is_white_space(c: char) -> bool {
    ||| ('\u{9}' <= c && c <= '\u{d}')
    ||| c == ' '
    ||| c == '\u{85}'
    ||| c == '\u{a0}'
    ||| c == '\u{1680}'
    ||| ('\u{2000}' <= c && c <= '\u{200a}')
    ||| c == '\u{2028}'
    ||| c == '\u{2029}'
    ||| c == '\u{202f}'
    ||| c == '\u{205f}'
    ||| c == '\u{3000}'
}

/// Whether `c` has the Unicode `White_Space` property.
pub fn is_whitespace(c: char) -> (b: bool)
    ensures
        b == is_white_space(c),
{
    ('\u{9}' <= c && c <= '\u{d}') || c == ' ' || c == '\u{85}' || c == '\u{a0}' || c == '\u{1680}'
        || ('\u{2000}' <= c && c <= '\u{200a}') || c == '\u{2028}' || c == '\u{2029}' || c
        == '\u{202f}' || c == '\u{205f}' || c == '\u{3000}'
}

/// `s` without its leading whitespace.
pub open spec fn trim_start_seq(s: Seq<char>) -> Seq<char>
    decreases s.len(),
{
    if s.len() > 0 && is_white_space(s[0]) {
        trim_start_seq(s.drop_first())
    } else {
        s
    }
}

/// `s` without its trailing whitespace.
pub open spec fn trim_end_seq(s: Seq<char>) -> Seq<char>
    decreases s.len(),
{
    if s.len() > 0 && is_white_space(s.last()) {
        trim_end_seq(s.drop_last())
    } else {
        s
    }
}

/// `s` without leading and trailing whitespace.
pub open spec fn trim_seq(s: Seq<char>) -> Seq<char> {
    trim_end_seq(trim_start_seq(s))
}

/// `p` occurs in `s` starting at index `i`.
pub open spec fn occurs_at(s: Seq<char>, i: int, p: Seq<char>) -> bool {
    0 <= i && i + p.len() <= s.len() && s.subrange(i, i + p.len()) == p
}

/// `s` starts with `p`.
pub open spec fn has_prefix(s: Seq<char>, p: Seq<char>) -> bool {
    occurs_at(s, 0, p)
}

/// Replaces, from left to right, every non-overlapping occurrence of `from` in `s`
/// by `to` (the semantics of `str::replace` for a non-empty pattern).
pub open spec fn replace_seq(s: Seq<char>, from: Seq<char>, to: Seq<char>) -> Seq<char>
    decreases s.len(),
{
    if from.len() == 0 || s.len() < from.len() {
        s
    } else if s.subrange(0, from.len() as int) == from {
        to + replace_seq(s.skip(from.len() as int), from, to)
    } else {
        seq![s[0]] + replace_seq(s.drop_first(), from, to)
    }
}

/// Splits `s` at every `'\n'`; the pieces never contain `'\n'`, and there is one
/// piece more than there are newlines.
pub open spec fn split_newlines(s: Seq<char>) -> Seq<Seq<char>>
    decreases s.len(),
{
    if s.len() == 0 {
        seq![Seq::<char>::empty()]
    } else {
        let init = split_newlines(s.drop_last());
        if s.last() == '\n' {
            init.push(Seq::<char>::empty())
        } else {
            init.update(init.len() - 1, init.last().push(s.last()))
        }
    }
}

/// A line that a `'\n'` ended loses a `'\r'` just before that `'\n'`.
pub open spec fn strip_cr(l: Seq<char>) -> Seq<char> {
    if l.len() > 0 && l.last() == '\r' {
        l.drop_last()
    } else {
        l
    }
}

/// The lines of `s`, as `str::lines` gives them: split at `"\n"` or `"\r\n"`;
/// the text after the last newline is a line only when it is not empty.
pub open spec fn lines_seq(s: Seq<char>) -> Seq<Seq<char>> {
    let parts = split_newlines(s);
    let ended = Seq::new((parts.len() - 1) as nat, |j: int| strip_cr(parts[j]));
    if parts.last().len() == 0 {
        ended
    } else {
        ended.push(parts.last())
    }
}

/// The pieces of `parts`, with `sep` between each two neighbours.
pub open spec fn join_seq(parts: Seq<Seq<char>>, sep: Seq<char>) -> Seq<char>
    decreases parts.len(),
{
    if parts.len() == 0 {
        Seq::<char>::empty()
    } else if parts.len() == 1 {
        parts[0]
    } else {
        join_seq(parts.drop_last(), sep) + sep + parts.last()
    }
}

/// `split_newlines` never returns an empty sequence.
pub proof fn lemma_split_newlines_nonempty(s: Seq<char>)
    ensures
        split_newlines(s).len() >= 1,
    decreases s.len(),
{
    if s.len() > 0 {
        lemma_split_newlines_nonempty(s.drop_last());
    }
}

/// The deep view of a vector of characters is its view.
pub proof fn lemma_chars_deep_view(v: Vec<char>)
    ensures
        v.deep_view() == v@,
{
    assert(v.deep_view() =~= v@);
}

/// What `trim_start_seq` keeps is a suffix of its input.
pub proof fn lemma_trim_start_is_suffix(s: Seq<char>)
    ensures
        exists|k: int| 0 <= k <= s.len() && trim_start_seq(s) == s.skip(k),
    decreases s.len(),
{
    if s.len() > 0 && is_white_space(s[0]) {
        lemma_trim_start_is_suffix(s.drop_first());
        let k = choose|k: int| 0 <= k <= s.drop_first().len() && trim_start_seq(s.drop_first()) == s.drop_first().skip(k);
        assert(s.drop_first().skip(k) =~= s.skip(k + 1));
    } else {
        assert(s.skip(0) =~= s);
    }
}

/// Trimmed text neither starts nor ends with whitespace: `trim_start_seq` leaves no
/// leading whitespace, `trim_end_seq` no trailing whitespace, and `trim_seq` neither.
pub proof fn lemma_trim_leaves_no_whitespace(s: Seq<char>)
    ensures
        trim_start_seq(s).len() > 0 ==> !is_white_space(trim_start_seq(s)[0]),
        trim_end_seq(s).len() > 0 ==> !is_white_space(trim_end_seq(s).last()),
        trim_seq(s).len() > 0 ==> !is_white_space(trim_seq(s)[0]) && !is_white_space(
            trim_seq(s).last(),
        ),
    decreases s.len(),
{
    if s.len() > 0 {
        lemma_trim_leaves_no_whitespace(s.drop_first());
        lemma_trim_leaves_no_whitespace(s.drop_last());
    }
    lemma_trim_end_keeps_start(trim_start_seq(s));
}

/// Removing trailing whitespace from text that starts with a non-whitespace
/// character keeps that first character.
pub proof fn lemma_trim_end_keeps_start(s: Seq<char>)
    ensures
        s.len() > 0 && !is_white_space(s[0]) ==> trim_end_seq(s).len() > 0 && trim_end_seq(s)[0]
            == s[0],
    decreases s.len(),
{
    if s.len() > 1 && is_white_space(s.last()) {
        lemma_trim_end_keeps_start(s.drop_last());
    }
}

/// Text that already has no leading or trailing whitespace is left as it is by
/// trimming.
pub proof fn lemma_trim_of_trimmed(s: Seq<char>)
    requires
        s.len() > 0 ==> !is_white_space(s[0]) && !is_white_space(s.last()),
    ensures
        trim_start_seq(s) == s,
        trim_end_seq(s) == s,
        trim_seq(s) == s,
{
}

/// A pattern whose first character does not occur in a text is never replaced:
/// the text is returned as it is.
pub proof fn lemma_replace_absent(s: Seq<char>, from: Seq<char>, to: Seq<char>)
    requires
        from.len() > 0,
        forall|i: int| 0 <= i < s.len() ==> s[i] != from[0],
    ensures
        replace_seq(s, from, to) == s,
    decreases s.len(),
{
    if s.len() >= from.len() {
        assert(s.subrange(0, from.len() as int)[0] == s[0]);
        lemma_replace_absent(s.drop_first(), from, to);
        assert(seq![s[0]] + s.drop_first() =~= s);
    }
}

/// Replacing a single character by another leaves no copy of the first.
pub proof fn lemma_replace_char_removes(s: Seq<char>, c: char, d: char)
    requires
        c != d,
    ensures
        forall|i: int|
            0 <= i < replace_seq(s, seq![c], seq![d]).len() ==> #[trigger] replace_seq(
                s,
                seq![c],
                seq![d],
            )[i] != c,
    decreases s.len(),
{
    if s.len() > 0 {
        lemma_replace_char_removes(s.drop_first(), c, d);
        let rest = replace_seq(s.drop_first(), seq![c], seq![d]);
        if s.subrange(0, 1) == seq![c] {
            assert(s.skip(1) =~= s.drop_first());
            assert(replace_seq(s, seq![c], seq![d]) == seq![d] + rest);
        } else {
            assert(s.subrange(0, 1)[0] == s[0]);
            assert(s[0] != c) by {
                if s[0] == c {
                    assert(s.subrange(0, 1) =~= seq![c]);
                }
            }
            assert(replace_seq(s, seq![c], seq![d]) == seq![s[0]] + rest);
        }
        assert forall|i: int|
            0 <= i < replace_seq(s, seq![c], seq![d]).len() implies #[trigger] replace_seq(
            s,
            seq![c],
            seq![d],
        )[i] != c by {
            if i > 0 {
                assert(replace_seq(s, seq![c], seq![d])[i] == rest[i - 1]);
            }
        }
    }
}

/// Joining with one more piece at the end appends the separator and the piece.
pub proof fn lemma_join_push(parts: Seq<Seq<char>>, sep: Seq<char>, p: Seq<char>)
    requires
        parts.len() > 0,
    ensures
        join_seq(parts.push(p), sep) == join_seq(parts, sep) + sep + p,
{
    assert(parts.push(p).drop_last() =~= parts);
}

/// Joining the pieces between newlines with newlines gives back the text.
pub proof fn lemma_join_split_newlines(s: Seq<char>)
    ensures
        join_seq(split_newlines(s), seq!['\n']) == s,
    decreases s.len(),
{
    if s.len() > 0 {
        let init = split_newlines(s.drop_last());
        lemma_join_split_newlines(s.drop_last());
        lemma_split_newlines_nonempty(s.drop_last());
        if s.last() == '\n' {
            lemma_join_push(init, seq!['\n'], Seq::<char>::empty());
            assert(s.drop_last() + seq!['\n'] + Seq::<char>::empty() =~= s);
        } else {
            let next = init.update(init.len() - 1, init.last().push(s.last()));
            if init.len() == 1 {
                assert(join_seq(next, seq!['\n']) == next[0]);
                assert(next[0] =~= s);
            } else {
                assert(next.drop_last() =~= init.drop_last());
                assert(join_seq(next, seq!['\n']) =~= join_seq(init, seq!['\n']).push(s.last()));
                assert(s.drop_last().push(s.last()) =~= s);
            }
        }
    }
}

/// A text without carriage returns is restored, less one final newline, by
/// splitting it into lines and joining them with newlines.
pub proof fn lemma_join_lines(s: Seq<char>)
    requires
        forall|i: int| 0 <= i < s.len() ==> s[i] != '\r',
    ensures
        join_seq(lines_seq(s), seq!['\n']) == if s.len() > 0 && s.last() == '\n' {
            s.drop_last()
        } else {
            s
        },
{
    let parts = split_newlines(s);
    lemma_split_newlines_nonempty(s);
    lemma_join_split_newlines(s);
    lemma_split_newlines_chars(s);
    let ended = Seq::new((parts.len() - 1) as nat, |j: int| strip_cr(parts[j]));
    assert(ended =~= parts.drop_last()) by {
        assert forall|j: int| 0 <= j < ended.len() implies ended[j] == parts[j] by {
            assert(forall|k: int| 0 <= k < parts[j].len() ==> parts[j][k] != '\r');
            if parts[j].len() > 0 {
                assert(parts[j][parts[j].len() - 1] != '\r');
            }
        }
    }
    if parts.last().len() == 0 {
        if parts.len() == 1 {
            assert(s.len() == 0) by {
                if s.len() > 0 {
                    assert(join_seq(parts, seq!['\n']) == parts[0]);
                }
            }
        } else {
            lemma_join_push(parts.drop_last(), seq!['\n'], Seq::<char>::empty());
            assert(parts.drop_last().push(Seq::<char>::empty()) =~= parts);
            lemma_split_newlines_last_empty(s);
            assert(join_seq(parts.drop_last(), seq!['\n']) + seq!['\n'] =~= s);
            assert(s.drop_last() =~= join_seq(parts.drop_last(), seq!['\n']));
        }
    } else {
        assert(ended.push(parts.last()) =~= parts);
        lemma_split_newlines_last_nonempty(s);
    }
}

/// Every character of every piece between newlines is a character of the text.
pub proof fn lemma_split_newlines_chars(s: Seq<char>)
    ensures
        forall|j: int, k: int|
            0 <= j < split_newlines(s).len() && 0 <= k < split_newlines(s)[j].len() ==> exists|
                i: int,
            |
                0 <= i < s.len() && s[i] == #[trigger] split_newlines(s)[j][k],
    decreases s.len(),
{
    if s.len() > 0 {
        lemma_split_newlines_chars(s.drop_last());
        lemma_split_newlines_nonempty(s.drop_last());
        let init = split_newlines(s.drop_last());
        assert forall|j: int, k: int|
            0 <= j < split_newlines(s).len() && 0 <= k < split_newlines(
                s,
            )[j].len() implies exists|i: int|
            0 <= i < s.len() && s[i] == #[trigger] split_newlines(s)[j][k] by {
            if s.last() == '\n' {
                if j < init.len() {
                    assert(split_newlines(s)[j] == init[j]);
                    let i = choose|i: int| 0 <= i < s.drop_last().len() && s.drop_last()[i] == init[j][k];
                    assert(s[i] == s.drop_last()[i]);
                }
            } else {
                if j < init.len() - 1 {
                    assert(split_newlines(s)[j] == init[j]);
                    let i = choose|i: int| 0 <= i < s.drop_last().len() && s.drop_last()[i] == init[j][k];
                    assert(s[i] == s.drop_last()[i]);
                } else {
                    assert(split_newlines(s)[j] == init.last().push(s.last()));
                    if k < init.last().len() {
                        let i = choose|i: int|
                            0 <= i < s.drop_last().len() && s.drop_last()[i] == init[j][k];
                        assert(s[i] == s.drop_last()[i]);
                    } else {
                        assert(s[s.len() - 1] == split_newlines(s)[j][k]);
                    }
                }
            }
        }
    }
}

/// When the last piece between newlines is empty, the text is empty or ends with
/// a newline.
pub proof fn lemma_split_newlines_last_empty(s: Seq<char>)
    requires
        split_newlines(s).last().len() == 0,
        s.len() > 0,
    ensures
        s.last() == '\n',
{
    lemma_split_newlines_nonempty(s.drop_last());
}

/// When the last piece between newlines is not empty, the text does not end
/// with a newline.
pub proof fn lemma_split_newlines_last_nonempty(s: Seq<char>)
    requires
        split_newlines(s).last().len() > 0,
    ensures
        s.len() > 0 && s.last() != '\n',
{
    if s.len() > 0 {
        lemma_split_newlines_nonempty(s.drop_last());
    }
}

/// Appends one character to a `String` (`String::push`).
#[verifier::external_body]
pub(crate) fn push_char(s: &mut String, c: char)
    ensures
        final(s)@ == old(s)@.push(c),
{
    s.push(c);
}

/// The characters of a string slice, in order.
pub fn chars_of(s: &str) -> (v: Vec<char>)
    ensures
        v@ == s@,
{
    let mut v: Vec<char> = Vec::new();
    for c in it: s.chars()
        invariant
            v@ == it.seq().take(it.index() as int),
    {
        v.push(c);
    }
    v
}

/// A `String` holding the characters of `v`.
pub fn string_of(v: &Vec<char>) -> (s: String)
    ensures
        s@ == v@,
{
    let mut s = String::new();
    let mut i: usize = 0;
    while i < v.len()
        invariant
            i <= v.len(),
            s@ == v@.take(i as int),
        decreases v.len() - i,
    {
        push_char(&mut s, v[i]);
        proof {
            assert(v@.take(i + 1) =~= v@.take(i as int).push(v@[i as int]));
        }
        i += 1;
    }
    proof {
        assert(v@.take(i as int) =~= v@);
    }
    s
}

/// Appends all of `tail` to `out`.
pub fn append_chars(out: &mut Vec<char>, tail: &Vec<char>)
    ensures
        final(out)@ == old(out)@ + tail@,
{
    let mut i: usize = 0;
    while i < tail.len()
        invariant
            i <= tail.len(),
            out@ == old(out)@ + tail@.take(i as int),
        decreases tail.len() - i,
    {
        out.push(tail[i]);
        proof {
            assert(tail@.take(i + 1) =~= tail@.take(i as int).push(tail@[i as int]));
        }
        i += 1;
    }
    proof {
        assert(tail@.take(i as int) =~= tail@);
    }
}

/// The characters of `s` from index `from` up to (not including) `to`.
pub fn sub_chars(s: &Vec<char>, from: usize, to: usize) -> (r: Vec<char>)
    requires
        from <= to <= s.len(),
    ensures
        r@ == s@.subrange(from as int, to as int),
{
    let mut r: Vec<char> = Vec::new();
    let mut i: usize = from;
    while i < to
        invariant
            from <= i <= to <= s.len(),
            r@ == s@.subrange(from as int, i as int),
        decreases to - i,
    {
        r.push(s[i]);
        proof {
            assert(s@.subrange(from as int, i + 1) =~= s@.subrange(from as int, i as int).push(
                s@[i as int],
            ));
        }
        i += 1;
    }
    r
}

/// Whether `p` occurs in `s` at index `i`.
pub fn occurs_at_exec(s: &Vec<char>, i: usize, p: &Vec<char>) -> (b: bool)
    ensures
        b == occurs_at(s@, i as int, p@),
{
    if i > s.len() || p.len() > s.len() - i {
        return false;
    }
    let mut j: usize = 0;
    while j < p.len()
        invariant
            i + p.len() <= s.len(),
            j <= p.len(),
            forall|k: int| 0 <= k < j ==> s@[i + k] == p@[k],
        decreases p.len() - j,
    {
        if s[i + j] != p[j] {
            proof {
                assert(s@.subrange(i as int, i + p.len())[j as int] != p@[j as int]);
            }
            return false;
        }
        j += 1;
    }
    proof {
        assert(s@.subrange(i as int, i + p.len()) =~= p@);
    }
    true
}

/// Whether `s` starts with `p`.
pub fn starts_with_chars(s: &Vec<char>, p: &Vec<char>) -> (b: bool)
    ensures
        b == has_prefix(s@, p@),
{
    occurs_at_exec(s, 0, p)
}

/// `s` without its leading whitespace (`str::trim_start`).
pub fn trim_start_chars(s: &Vec<char>) -> (r: Vec<char>)
    ensures
        r@ == trim_start_seq(s@),
{
    let mut start: usize = 0;
    proof {
        assert(s@.skip(0) =~= s@);
    }
    while start < s.len() && is_whitespace(s[start])
        invariant
            start <= s.len(),
            trim_start_seq(s@) == trim_start_seq(s@.skip(start as int)),
        decreases s.len() - start,
    {
        proof {
            assert(s@.skip(start as int).drop_first() =~= s@.skip(start + 1));
        }
        start += 1;
    }
    proof {
        if start < s.len() {
            assert(s@.skip(start as int)[0] == s@[start as int]);
        } else {
            assert(s@.skip(start as int) =~= Seq::<char>::empty());
        }
        assert(s@.skip(start as int) =~= s@.subrange(start as int, s.len() as int));
    }
    sub_chars(s, start, s.len())
}

/// `s` without its trailing whitespace (`str::trim_end`).
pub fn trim_end_chars(s: &Vec<char>) -> (r: Vec<char>)
    ensures
        r@ == trim_end_seq(s@),
{
    let mut end: usize = s.len();
    proof {
        assert(s@.take(s.len() as int) =~= s@);
    }
    while end > 0 && is_whitespace(s[end - 1])
        invariant
            end <= s.len(),
            trim_end_seq(s@) == trim_end_seq(s@.take(end as int)),
        decreases end,
    {
        proof {
            assert(s@.take(end as int).drop_last() =~= s@.take(end - 1));
        }
        end -= 1;
    }
    proof {
        if end > 0 {
            assert(s@.take(end as int).last() == s@[end - 1]);
        } else {
            assert(s@.take(end as int) =~= Seq::<char>::empty());
        }
        assert(s@.take(end as int) =~= s@.subrange(0, end as int));
    }
    sub_chars(s, 0, end)
}

/// `s` without leading and trailing whitespace (`str::trim`).
pub fn trim_chars(s: &Vec<char>) -> (r: Vec<char>)
    ensures
        r@ == trim_seq(s@),
{
    let t = trim_start_chars(s);
    trim_end_chars(&t)
}

/// Every non-overlapping occurrence of `from` in `s`, from left to right, replaced
/// by `to` (`str::replace`).
pub fn replace_chars(s: &Vec<char>, from: &Vec<char>, to: &Vec<char>) -> (r: Vec<char>)
    requires
        from.len() > 0,
    ensures
        r@ == replace_seq(s@, from@, to@),
{
    let mut out: Vec<char> = Vec::new();
    let mut i: usize = 0;
    proof {
        assert(s@.skip(0) =~= s@);
    }
    while i < s.len()
        invariant
            i <= s.len(),
            from.len() > 0,
            replace_seq(s@, from@, to@) == out@ + replace_seq(s@.skip(i as int), from@, to@),
        decreases s.len() - i,
    {
        let ghost rest = s@.skip(i as int);
        if occurs_at_exec(s, i, from) {
            proof {
                assert(rest.subrange(0, from.len() as int) =~= s@.subrange(
                    i as int,
                    i + from.len(),
                ));
                assert(rest.skip(from.len() as int) =~= s@.skip(i + from.len()));
            }
            append_chars(&mut out, to);
            i = i + from.len();
        } else {
            proof {
                assert(rest.drop_first() =~= s@.skip(i + 1));
                if rest.len() >= from.len() {
                    assert(rest.subrange(0, from.len() as int) =~= s@.subrange(
                        i as int,
                        i + from.len(),
                    ));
                } else {
                    assert(seq![rest[0]] + rest.drop_first() =~= rest);
                }
                assert(replace_seq(rest, from@, to@) == seq![s@[i as int]] + replace_seq(
                    rest.drop_first(),
                    from@,
                    to@,
                ));
            }
            out.push(s[i]);
            i = i + 1;
        }
    }
    proof {
        assert(s@.skip(i as int) =~= Seq::<char>::empty());
    }
    out
}

/// Drops one `'\r'` at the end of `l`.
fn strip_cr_chars(l: &mut Vec<char>)
    ensures
        final(l)@ == strip_cr(old(l)@),
{
    if l.len() > 0 && l[l.len() - 1] == '\r' {
        l.pop();
    }
}

/// The lines of `s` (`str::lines`).
pub fn lines_of(s: &Vec<char>) -> (r: Vec<Vec<char>>)
    ensures
        r.deep_view() == lines_seq(s@),
{
    let mut done: Vec<Vec<char>> = Vec::new();
    let mut cur: Vec<char> = Vec::new();
    let mut i: usize = 0;
    proof {
        assert(s@.take(0) =~= Seq::<char>::empty());
    }
    while i < s.len()
        invariant
            i <= s.len(),
            split_newlines(s@.take(i as int)).len() == done.len() + 1,
            forall|j: int|
                0 <= j < done.len() ==> #[trigger] done@[j]@ == strip_cr(
                    split_newlines(s@.take(i as int))[j],
                ),
            cur@ == split_newlines(s@.take(i as int)).last(),
        decreases s.len() - i,
    {
        let ghost prev = split_newlines(s@.take(i as int));
        proof {
            assert(s@.take(i + 1).drop_last() =~= s@.take(i as int));
            assert(s@.take(i + 1).last() == s@[i as int]);
        }
        let c = s[i];
        if c == '\n' {
            let mut line = cur;
            strip_cr_chars(&mut line);
            done.push(line);
            cur = Vec::new();
            proof {
                let next = split_newlines(s@.take(i + 1));
                assert(next == prev.push(Seq::<char>::empty()));
                assert forall|j: int| 0 <= j < done.len() implies #[trigger] done@[j]@ == strip_cr(
                    next[j],
                ) by {
                    if j < done.len() - 1 {
                        assert(next[j] == prev[j]);
                    }
                }
                assert(cur@ =~= next.last());
            }
        } else {
            cur.push(c);
            proof {
                let next = split_newlines(s@.take(i + 1));
                assert(next == prev.update(prev.len() - 1, prev.last().push(c)));
                assert forall|j: int| 0 <= j < done.len() implies #[trigger] done@[j]@ == strip_cr(
                    next[j],
                ) by {
                    assert(next[j] == prev[j]);
                }
            }
        }
        i += 1;
    }
    proof {
        assert(s@.take(i as int) =~= s@);
    }
    let ghost parts = split_newlines(s@);
    let ghost ended = Seq::new((parts.len() - 1) as nat, |j: int| strip_cr(parts[j]));
    proof {
        assert forall|j: int| 0 <= j < done.len() implies #[trigger] done.deep_view()[j] == ended[j] by {
            lemma_chars_deep_view(done@[j]);
        }
        assert(done.deep_view() =~= ended);
    }
    if cur.len() > 0 {
        done.push(cur);
        proof {
            assert forall|j: int| 0 <= j < done.len() implies #[trigger] done.deep_view()[j]
                == ended.push(parts.last())[j] by {
                lemma_chars_deep_view(done@[j]);
            }
            assert(done.deep_view() =~= ended.push(parts.last()));
        }
    }
    done
}

/// The pieces of `parts`, with `sep` between each two neighbours (`join`).
pub fn join_chars(parts: &Vec<Vec<char>>, sep: &Vec<char>) -> (r: Vec<char>)
    ensures
        r@ == join_seq(parts.deep_view(), sep@),
{
    let ghost dv = parts.deep_view();
    let mut out: Vec<char> = Vec::new();
    let mut i: usize = 0;
    proof {
        assert(dv.take(0) =~= Seq::<Seq<char>>::empty());
    }
    while i < parts.len()
        invariant
            i <= parts.len(),
            dv == parts.deep_view(),
            out@ == join_seq(dv.take(i as int), sep@),
        decreases parts.len() - i,
    {
        proof {
            lemma_chars_deep_view(parts@[i as int]);
            assert(dv.take(i + 1).drop_last() =~= dv.take(i as int));
            assert(dv.take(i + 1).last() == parts@[i as int]@);
        }
        if i > 0 {
            append_chars(&mut out, sep);
        } else {
            assert(dv.take(1) =~= seq![parts@[0]@]);
        }
        append_chars(&mut out, &parts[i]);
        i += 1;
    }
    proof {
        assert(dv.take(i as int) =~= dv);
    }
    out
}

} // verus!
