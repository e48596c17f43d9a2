//! The table of contents of a markdown text: its lines outside fenced code
//! blocks, read as headings, formatted under a `Config`, one per line.
use vstd::prelude::*;

use crate::heading::{heading_line, parse_heading, Config, Heading};
use crate::text::{
    chars_of, has_prefix, join_chars, join_seq, lines_of, lines_seq, starts_with_chars,
    string_of, sub_chars,
};

verus! {

/// "```"
pub open spec fn backtick_fence() -> Seq<char> {
    seq!['`', '`', '`']
}

/// "~~~"
pub open spec fn tilde_fence() -> Seq<char> {
    seq!['~', '~', '~']
}

/// A line that opens a fenced code block.
pub open spec fn opens_fence(line: Seq<char>) -> bool {
    has_prefix(line, backtick_fence()) || has_prefix(line, tilde_fence())
}

/// The lines that lie outside fenced code blocks.  Outside a block, a line that
/// starts with "```" or "~~~" opens one and is dropped; every other line is kept.
/// Inside a block, every line is dropped, and one that starts with the opening
/// marker closes the block.
pub open spec fn unfenced_lines(lines: Seq<Seq<char>>, fence: Option<Seq<char>>) -> Seq<Seq<char>>
    decreases lines.len(),
{
    if lines.len() == 0 {
        Seq::<Seq<char>>::empty()
    } else {
        let line = lines[0];
        let rest = lines.drop_first();
        match fence {
            None => if opens_fence(line) {
                unfenced_lines(rest, Some(line.take(3)))
            } else {
                seq![line] + unfenced_lines(rest, None)
            },
            Some(tag) => if has_prefix(line, tag) {
                unfenced_lines(rest, None)
            } else {
                unfenced_lines(rest, Some(tag))
            },
        }
    }
}

/// The table-of-contents lines of `lines`: one for each line that reads as a
/// heading whose depth `config` lists, in order.
pub open spec fn toc_entries(lines: Seq<Seq<char>>, config: Config) -> Seq<Seq<char>>
    decreases lines.len(),
{
    if lines.len() == 0 {
        Seq::<Seq<char>>::empty()
    } else {
        let rest = toc_entries(lines.drop_first(), config);
        match parse_heading(lines[0]) {
            Some((d, t)) => match heading_line(d, t, config) {
                Some(l) => seq![l] + rest,
                None => rest,
            },
            None => rest,
        }
    }
}

/// The table of contents of a markdown text.
pub open spec fn toc_seq(content: Seq<char>, config: Config) -> Seq<char> {
    join_seq(toc_entries(unfenced_lines(lines_seq(content), None), config), seq!['\n'])
}

/// No line kept outside fenced blocks opens a fence, whatever state the scan
/// starts in.
pub proof fn lemma_kept_lines_open_no_fence(lines: Seq<Seq<char>>, fence: Option<Seq<char>>)
    ensures
        forall|i: int|
            0 <= i < unfenced_lines(lines, fence).len() ==> !opens_fence(
                #[trigger] unfenced_lines(lines, fence)[i],
            ),
    decreases lines.len(),
{
    if lines.len() > 0 {
        let rest = lines.drop_first();
        lemma_kept_lines_open_no_fence(rest, None);
        lemma_kept_lines_open_no_fence(rest, Some(lines[0].take(3)));
        match fence {
            Some(tag) => {
                lemma_kept_lines_open_no_fence(rest, Some(tag));
                if has_prefix(lines[0], tag) {
                    assert(unfenced_lines(lines, fence) == unfenced_lines(rest, None));
                } else {
                    assert(unfenced_lines(lines, fence) == unfenced_lines(rest, Some(tag)));
                }
            },
            None => {
                if opens_fence(lines[0]) {
                    assert(unfenced_lines(lines, fence) == unfenced_lines(
                        rest,
                        Some(lines[0].take(3)),
                    ));
                } else {
                    let tail = unfenced_lines(rest, None);
                    assert forall|i: int|
                        0 <= i < unfenced_lines(lines, fence).len() implies !opens_fence(
                        #[trigger] unfenced_lines(lines, fence)[i],
                    ) by {
                        if i > 0 {
                            assert(unfenced_lines(lines, fence)[i] == tail[i - 1]);
                        }
                    }
                }
            },
        }
    }
}

/// Text without fence markers passes the fence scan unchanged.
pub proof fn lemma_no_fences_keeps_all(lines: Seq<Seq<char>>)
    requires
        forall|i: int| 0 <= i < lines.len() ==> !opens_fence(#[trigger] lines[i]),
    ensures
        unfenced_lines(lines, None) == lines,
    decreases lines.len(),
{
    if lines.len() > 0 {
        lemma_no_fences_keeps_all(lines.drop_first());
        assert(seq![lines[0]] + lines.drop_first() =~= lines);
    }
}

/// Every line that the fence scan keeps is a line of its input.
pub proof fn lemma_kept_lines_are_lines(lines: Seq<Seq<char>>, fence: Option<Seq<char>>)
    ensures
        forall|i: int|
            0 <= i < unfenced_lines(lines, fence).len() ==> lines.contains(
                #[trigger] unfenced_lines(lines, fence)[i],
            ),
    decreases lines.len(),
{
    if lines.len() > 0 {
        let rest = lines.drop_first();
        lemma_kept_lines_are_lines(rest, None);
        lemma_kept_lines_are_lines(rest, Some(lines[0].take(3)));
        if let Some(tag) = fence {
            lemma_kept_lines_are_lines(rest, Some(tag));
        }
        let kept = unfenced_lines(lines, fence);
        assert forall|i: int| 0 <= i < kept.len() implies lines.contains(#[trigger] kept[i]) by {
            let tail_none = unfenced_lines(rest, None);
            if fence is None && !opens_fence(lines[0]) {
                if i == 0 {
                    assert(lines[0] == kept[i]);
                } else {
                    assert(kept[i] == tail_none[i - 1]);
                    let j = choose|j: int| 0 <= j < rest.len() && rest[j] == tail_none[i - 1];
                    assert(lines[j + 1] == rest[j]);
                }
            } else {
                let f2 = if fence is None {
                    Some(lines[0].take(3))
                } else if has_prefix(lines[0], fence->0) {
                    None
                } else {
                    fence
                };
                assert(kept == unfenced_lines(rest, f2));
                let j = choose|j: int| 0 <= j < rest.len() && rest[j] == kept[i];
                assert(lines[j + 1] == rest[j]);
            }
        }
    }
}

/// Lines none of which reads as a heading give no table-of-contents lines.
pub proof fn lemma_no_headings_no_entries(lines: Seq<Seq<char>>, config: Config)
    requires
        forall|i: int| 0 <= i < lines.len() ==> parse_heading(#[trigger] lines[i]) is None,
    ensures
        toc_entries(lines, config) == Seq::<Seq<char>>::empty(),
    decreases lines.len(),
{
    if lines.len() > 0 {
        lemma_no_headings_no_entries(lines.drop_first(), config);
    }
}

/// A text none of whose lines reads as a heading has an empty table of contents.
pub proof fn lemma_no_headings_empty_toc(content: Seq<char>, config: Config)
    requires
        forall|i: int|
            0 <= i < lines_seq(content).len() ==> parse_heading(#[trigger] lines_seq(content)[i]) is None,
    ensures
        toc_seq(content, config) == Seq::<char>::empty(),
{
    let lines = lines_seq(content);
    let kept = unfenced_lines(lines, None);
    lemma_kept_lines_are_lines(lines, None);
    assert forall|i: int| 0 <= i < kept.len() implies parse_heading(#[trigger] kept[i]) is None by {
        assert(lines.contains(kept[i]));
    }
    lemma_no_headings_no_entries(kept, config);
}

/// The state of the scan: outside a fenced block, or inside one opened by the
/// given marker.
enum Fence {
    Open(Vec<char>),
    Closed,
}

impl Fence {
    spec fn view_tag(&self) -> Option<Seq<char>> {
        match self {
            Fence::Open(t) => Some(t@),
            Fence::Closed => None,
        }
    }
}

/// The lines of `lines` that lie outside fenced code blocks.
fn drop_fenced(lines: &Vec<Vec<char>>) -> (r: Vec<Vec<char>>)
    ensures
        r.deep_view() == unfenced_lines(lines.deep_view(), None),
{
    let ghost dv = lines.deep_view();
    let backtick = vec!['`', '`', '`'];
    let tilde = vec!['~', '~', '~'];
    proof {
        assert(backtick@ =~= backtick_fence());
        assert(tilde@ =~= tilde_fence());
        assert(dv.skip(0) =~= dv);
    }
    let mut fence = Fence::Closed;
    let mut out: Vec<Vec<char>> = Vec::new();
    let mut i: usize = 0;
    while i < lines.len()
        invariant
            i <= lines.len(),
            dv == lines.deep_view(),
            backtick@ == backtick_fence(),
            tilde@ == tilde_fence(),
            unfenced_lines(dv, None) == out.deep_view() + unfenced_lines(
                dv.skip(i as int),
                fence.view_tag(),
            ),
        decreases lines.len() - i,
    {
        let line = &lines[i];
        proof {
            crate::text::lemma_chars_deep_view(*line);
            assert(dv.skip(i as int)[0] == line@);
            assert(dv.skip(i as int).drop_first() =~= dv.skip(i + 1));
        }
        let next = match &fence {
            Fence::Closed => {
                if starts_with_chars(line, &backtick) || starts_with_chars(line, &tilde) {
                    let tag = sub_chars(line, 0, 3);
                    proof {
                        assert(tag@ =~= line@.take(3));
                    }
                    Fence::Open(tag)
                } else {
                    let ghost before = out.deep_view();
                    out.push(line.clone());
                    proof {
                        crate::text::lemma_chars_deep_view(out@[out.len() - 1]);
                        assert(out.deep_view() =~= before.push(line@));
                        assert(seq![line@] + unfenced_lines(dv.skip(i + 1), None) =~= seq![
                            line@,
                        ].add(unfenced_lines(dv.skip(i + 1), None)));
                        assert(before.push(line@) + unfenced_lines(dv.skip(i + 1), None) =~= before
                            + (seq![line@] + unfenced_lines(dv.skip(i + 1), None)));
                    }
                    Fence::Closed
                }
            },
            Fence::Open(tag) => {
                if starts_with_chars(line, tag) {
                    Fence::Closed
                } else {
                    Fence::Open(tag.clone())
                }
            },
        };
        fence = next;
        i += 1;
    }
    proof {
        assert(dv.skip(i as int) =~= Seq::<Seq<char>>::empty());
        assert(out.deep_view() + Seq::<Seq<char>>::empty() =~= out.deep_view());
    }
    out
}

/// The table-of-contents lines of `lines` under `config`.
fn entries_of(lines: &Vec<Vec<char>>, config: &Config) -> (r: Vec<Vec<char>>)
    ensures
        r.deep_view() == toc_entries(lines.deep_view(), *config),
{
    let ghost dv = lines.deep_view();
    let mut out: Vec<Vec<char>> = Vec::new();
    let mut i: usize = 0;
    proof {
        assert(dv.skip(0) =~= dv);
    }
    while i < lines.len()
        invariant
            i <= lines.len(),
            dv == lines.deep_view(),
            toc_entries(dv, *config) == out.deep_view() + toc_entries(dv.skip(i as int), *config),
        decreases lines.len() - i,
    {
        proof {
            crate::text::lemma_chars_deep_view(lines@[i as int]);
            assert(dv.skip(i as int)[0] == lines@[i as int]@);
            assert(dv.skip(i as int).drop_first() =~= dv.skip(i + 1));
        }
        let text = string_of(&lines[i]);
        if let Ok(h) = Heading::parse(text.as_str()) {
            if let Some(l) = h.format(config) {
                let lc = chars_of(l.as_str());
                let ghost before = out.deep_view();
                out.push(lc);
                proof {
                    crate::text::lemma_chars_deep_view(out@[out.len() - 1]);
                    assert(out.deep_view() =~= before.push(l@));
                    let rest = toc_entries(dv.skip(i + 1), *config);
                    assert(before.push(l@) + rest =~= before + (seq![l@] + rest));
                }
            }
        }
        i += 1;
    }
    proof {
        assert(dv.skip(i as int) =~= Seq::<Seq<char>>::empty());
        assert(out.deep_view() + Seq::<Seq<char>>::empty() =~= out.deep_view());
    }
    out
}

/// The table of contents of `content` under `config`: the headings outside fenced
/// code blocks whose depth `config` lists, one formatted line each, joined by
/// newlines.
pub fn toc(content: &str, config: &Config) -> (r: String)
    ensures
        r@ == toc_seq(content@, *config),
{
    let chars = chars_of(content);
    let lines = lines_of(&chars);
    let kept = drop_fenced(&lines);
    let entries = entries_of(&kept, config);
    let newline = vec!['\n'];
    proof {
        assert(newline@ =~= seq!['\n']);
    }
    let joined = join_chars(&entries, &newline);
    string_of(&joined)
}

} // verus!
