//! The HTML that pages are made of: markdown rendered to HTML, the fragments
//! that replace code, math and script elements, and the finished document.
use kuchiki::traits::TendrilSink;
use vstd::prelude::*;

use crate::text::{
    append_chars, chars_of, lemma_replace_absent, replace_chars, replace_seq, string_of, sub_chars,
    trim_chars, trim_seq,
};

verus! {

/// The pulldown-cmark option bit that turns on tables.
pub const ENABLE_TABLES: u32 = 2;

/// The pulldown-cmark option bit that turns on strikethrough.
pub const ENABLE_STRIKETHROUGH: u32 = 8;

/// The HTML that pulldown-cmark renders from a markdown text under the given
/// option bits.
pub uninterp spec fn commonmark_html(source: Seq<char>, options: u32) -> Seq<char>;

/// `pulldown_cmark::html::push_html` into an empty `String`, over
/// `Parser::new_ext(source, Options::from_bits_truncate(options))`.  The contract
/// names the result, a function of the text and the options alone, and claims
/// nothing else of it.
#[verifier::external_body]
fn push_markdown_html(source: &str, options: u32) -> (r: String)
    ensures
        r@ == commonmark_html(source@, options),
{
    let mut out = String::new();
    let parser = pulldown_cmark::Parser::new_ext(
        source,
        pulldown_cmark::Options::from_bits_truncate(options),
    );
    pulldown_cmark::html::push_html(&mut out, parser);
    out
}

/// The option bits a page is rendered with: strikethrough always, tables on request.
pub open spec fn page_options(tables: bool) -> u32 {
    if tables {
        (ENABLE_STRIKETHROUGH | ENABLE_TABLES) as u32
    } else {
        ENABLE_STRIKETHROUGH
    }
}

/// Renders a markdown text to HTML with strikethrough, and with tables when
/// `tables` holds.
pub fn render_markdown(source: &str, tables: bool) -> (r: String)
    ensures
        r@ == commonmark_html(source@, page_options(tables)),
        tables ==> page_options(tables) == 10,
        !tables ==> page_options(tables) == 8,
{
    let options = if tables {
        ENABLE_STRIKETHROUGH | ENABLE_TABLES
    } else {
        ENABLE_STRIKETHROUGH
    };
    proof {
        assert((8u32 | 2u32) == 10u32) by (bit_vector);
    }
    push_markdown_html(source, options)
}

/// The six document tags that pages drop, in the order they are dropped.
pub open spec fn strip_html_tags_seq(value: Seq<char>) -> Seq<char> {
    let e = Seq::<char>::empty();
    let s1 = replace_seq(value, "<html>"@, e);
    let s2 = replace_seq(s1, "</html>"@, e);
    let s3 = replace_seq(s2, "<!DOCTYPE HTML>"@, e);
    let s4 = replace_seq(s3, "<!DOCTYPE html>"@, e);
    let s5 = replace_seq(s4, "<!doctype HTML>"@, e);
    replace_seq(s5, "<!doctype html>"@, e)
}

/// Removes, one after the other, every `<html>`, `</html>`, `<!DOCTYPE HTML>`,
/// `<!DOCTYPE html>`, `<!doctype HTML>` and `<!doctype html>`.
pub fn strip_html_tags(value: &str) -> (r: String)
    ensures
        r@ == strip_html_tags_seq(value@),
{
    let empty: Vec<char> = Vec::new();
    let mut s = chars_of(value);
    proof {
        reveal_strlit("<html>");
        reveal_strlit("</html>");
        reveal_strlit("<!DOCTYPE HTML>");
        reveal_strlit("<!DOCTYPE html>");
        reveal_strlit("<!doctype HTML>");
        reveal_strlit("<!doctype html>");
    }
    let t1 = chars_of("<html>");
    s = replace_chars(&s, &t1, &empty);
    let t2 = chars_of("</html>");
    s = replace_chars(&s, &t2, &empty);
    let t3 = chars_of("<!DOCTYPE HTML>");
    s = replace_chars(&s, &t3, &empty);
    let t4 = chars_of("<!DOCTYPE html>");
    s = replace_chars(&s, &t4, &empty);
    let t5 = chars_of("<!doctype HTML>");
    s = replace_chars(&s, &t5, &empty);
    let t6 = chars_of("<!doctype html>");
    s = replace_chars(&s, &t6, &empty);
    proof {
        assert(empty@ =~= Seq::<char>::empty());
    }
    string_of(&s)
}

/// A text without `<` holds none of the document tags, so stripping them leaves
/// it as it is.
pub proof fn lemma_strip_html_tags_without_tags(value: Seq<char>)
    requires
        forall|i: int| 0 <= i < value.len() ==> value[i] != '<',
    ensures
        strip_html_tags_seq(value) == value,
{
    reveal_strlit("<html>");
    reveal_strlit("</html>");
    reveal_strlit("<!DOCTYPE HTML>");
    reveal_strlit("<!DOCTYPE html>");
    reveal_strlit("<!doctype HTML>");
    reveal_strlit("<!doctype html>");
    let e = Seq::<char>::empty();
    lemma_replace_absent(value, "<html>"@, e);
    lemma_replace_absent(value, "</html>"@, e);
    lemma_replace_absent(value, "<!DOCTYPE HTML>"@, e);
    lemma_replace_absent(value, "<!DOCTYPE html>"@, e);
    lemma_replace_absent(value, "<!doctype HTML>"@, e);
    lemma_replace_absent(value, "<!doctype html>"@, e);
}

/// Replacing a pattern that starts with `<` in a text whose only `<` is its
/// first character, and which does not start with the pattern, changes nothing.
proof fn lemma_replace_misses_start(s: Seq<char>, from: Seq<char>, i: int)
    requires
        s.len() > 0,
        s[0] == '<',
        forall|j: int| 0 < j < s.len() ==> s[j] != '<',
        from.len() > 0,
        from[0] == '<',
        0 <= i < from.len(),
        i < s.len(),
        s[i] != from[i],
    ensures
        replace_seq(s, from, Seq::<char>::empty()) == s,
{
    if s.len() >= from.len() {
        assert(s.subrange(0, from.len() as int)[i] != from[i]);
        lemma_replace_absent(s.drop_first(), from, Seq::<char>::empty());
        assert(seq![s[0]] + s.drop_first() =~= s);
    }
}

/// Replacing a pattern at the start of a text without a further `<` removes it.
proof fn lemma_replace_at_start(d: Seq<char>, t: Seq<char>)
    requires
        d.len() > 0,
        d[0] == '<',
        forall|j: int| 0 <= j < t.len() ==> t[j] != '<',
    ensures
        replace_seq(d + t, d, Seq::<char>::empty()) == t,
{
    assert((d + t).subrange(0, d.len() as int) =~= d);
    assert((d + t).skip(d.len() as int) =~= t);
    lemma_replace_absent(t, d, Seq::<char>::empty());
    assert(Seq::<char>::empty() + t =~= t);
}

/// Each of the six document tags is removed from the front of a text that holds
/// no other `<`: stripping `D + t` gives `t` for `D` any of `<html>`, `</html>`,
/// `<!DOCTYPE HTML>`, `<!DOCTYPE html>`, `<!doctype HTML>` and `<!doctype html>`.
pub proof fn lemma_strip_html_tags_removes_tag(d: Seq<char>, t: Seq<char>)
    requires
        d == "<html>"@ || d == "</html>"@ || d == "<!DOCTYPE HTML>"@ || d == "<!DOCTYPE html>"@
            || d == "<!doctype HTML>"@ || d == "<!doctype html>"@,
        forall|j: int| 0 <= j < t.len() ==> t[j] != '<',
    ensures
        strip_html_tags_seq(d + t) == t,
{
    reveal_strlit("<html>");
    reveal_strlit("</html>");
    reveal_strlit("<!DOCTYPE HTML>");
    reveal_strlit("<!DOCTYPE html>");
    reveal_strlit("<!doctype HTML>");
    reveal_strlit("<!doctype html>");
    let e = Seq::<char>::empty();
    assert(d[0] == '<');
    assert forall|j: int| 0 < j < (d + t).len() implies (d + t)[j] != '<' by {
        if j < d.len() {
            assert((d + t)[j] == d[j]);
        } else {
            assert((d + t)[j] == t[j - d.len()]);
        }
    }
    assert((d + t)[0] == '<');
    if d == "<html>"@ {
        lemma_replace_at_start(d, t);
    } else if d == "</html>"@ {
        assert((d + t)[1] == d[1]);
        lemma_replace_misses_start(d + t, "<html>"@, 1);
        lemma_replace_at_start(d, t);
    } else if d == "<!DOCTYPE HTML>"@ {
        assert((d + t)[1] == d[1]);
        lemma_replace_misses_start(d + t, "<html>"@, 1);
        assert((d + t)[1] == d[1]);
        lemma_replace_misses_start(d + t, "</html>"@, 1);
        lemma_replace_at_start(d, t);
    } else if d == "<!DOCTYPE html>"@ {
        assert((d + t)[1] == d[1]);
        lemma_replace_misses_start(d + t, "<html>"@, 1);
        assert((d + t)[1] == d[1]);
        lemma_replace_misses_start(d + t, "</html>"@, 1);
        assert((d + t)[10] == d[10]);
        lemma_replace_misses_start(d + t, "<!DOCTYPE HTML>"@, 10);
        lemma_replace_at_start(d, t);
    } else if d == "<!doctype HTML>"@ {
        assert((d + t)[1] == d[1]);
        lemma_replace_misses_start(d + t, "<html>"@, 1);
        assert((d + t)[1] == d[1]);
        lemma_replace_misses_start(d + t, "</html>"@, 1);
        assert((d + t)[2] == d[2]);
        lemma_replace_misses_start(d + t, "<!DOCTYPE HTML>"@, 2);
        assert((d + t)[2] == d[2]);
        lemma_replace_misses_start(d + t, "<!DOCTYPE html>"@, 2);
        lemma_replace_at_start(d, t);
    } else if d == "<!doctype html>"@ {
        assert((d + t)[1] == d[1]);
        lemma_replace_misses_start(d + t, "<html>"@, 1);
        assert((d + t)[1] == d[1]);
        lemma_replace_misses_start(d + t, "</html>"@, 1);
        assert((d + t)[2] == d[2]);
        lemma_replace_misses_start(d + t, "<!DOCTYPE HTML>"@, 2);
        assert((d + t)[2] == d[2]);
        lemma_replace_misses_start(d + t, "<!DOCTYPE html>"@, 2);
        assert((d + t)[10] == d[10]);
        lemma_replace_misses_start(d + t, "<!doctype HTML>"@, 10);
        lemma_replace_at_start(d, t);
    }
    lemma_replace_absent(t, "<html>"@, e);
    lemma_replace_absent(t, "</html>"@, e);
    lemma_replace_absent(t, "<!DOCTYPE HTML>"@, e);
    lemma_replace_absent(t, "<!DOCTYPE html>"@, e);
    lemma_replace_absent(t, "<!doctype HTML>"@, e);
    lemma_replace_absent(t, "<!doctype html>"@, e);
}

/// `<span code-block>$$text$$</span>`: a preformatted block shown as display math.
pub open spec fn code_block_seq(text: Seq<char>) -> Seq<char> {
    "<span code-block>$$"@ + text + "$$</span>"@
}

/// Inline code whose trimmed text is `$...$` becomes inline math
/// `<span inline-code>\(...\)</span>`; other inline code stays as it is.
pub open spec fn inline_math_seq(text: Seq<char>) -> Option<Seq<char>> {
    let t = trim_seq(text);
    if t.len() >= 2 && t[0] == '$' && t.last() == '$' {
        Some("<span inline-code>\\("@ + t.subrange(1, t.len() - 1) + "\\)</span>"@)
    } else {
        None
    }
}

/// `<style>css</style>`.
pub open spec fn style_seq(css: Seq<char>) -> Seq<char> {
    "<style>"@ + css + "</style>"@
}

/// The table of contents block: its markdown rendered with strikethrough and
/// tables, inside `<div toc>`.
pub open spec fn toc_block_seq(toc_markdown: Seq<char>) -> Seq<char> {
    "<div toc>"@ + commonmark_html(toc_markdown, page_options(true)) + "</div>"@
}

/// A serialized document turned into the page: the document tags stripped and
/// the rest wrapped in one `<!DOCTYPE html>` and `<html>` element.
pub open spec fn page_seq(serialized: Seq<char>) -> Seq<char> {
    "<!DOCTYPE html>\n<html>\n"@ + strip_html_tags_seq(serialized) + "\n</html>"@
}

/// The same with only `<html>` and `</html>` stripped.
pub open spec fn basic_page_seq(serialized: Seq<char>) -> Seq<char> {
    let e = Seq::<char>::empty();
    "<!DOCTYPE html>\n<html>\n"@ + replace_seq(replace_seq(serialized, "<html>"@, e), "</html>"@, e)
        + "\n</html>"@
}

/// The decimal digits of `n`, most significant first, without leading zeros.
pub open spec fn decimal_seq(n: nat) -> Seq<char>
    decreases n,
{
    if n < 10 {
        seq![(n + 48) as char]
    } else {
        decimal_seq(n / 10).push(((n % 10) + 48) as char)
    }
}

/// The element that mounts a compiled script: an empty `div` with the id, and a
/// `script` that holds the code and calls the module's `default` export on that
/// `div`.
pub open spec fn script_seq(id: u64, module: Seq<char>, file: Seq<char>) -> Seq<char> {
    let digits = decimal_seq(id as nat);
    "\n<div id=\""@ + digits + "\"></div><script>\n"@ + file + "\nthis."@ + module
        + ".default(document.getElementById('"@ + digits + "'))\n</script>\n"@
}

/// `a + b + c` for the text of a literal `a` and `c`.
fn surround(a: &str, b: &Vec<char>, c: &str) -> (r: Vec<char>)
    ensures
        r@ == a@ + b@ + c@,
{
    let mut out = chars_of(a);
    append_chars(&mut out, b);
    append_chars(&mut out, &chars_of(c));
    out
}

/// `<span code-block>$$text$$</span>`.
pub fn code_block_html(text: &str) -> (r: String)
    ensures
        r@ == code_block_seq(text@),
{
    string_of(&surround("<span code-block>$$", &chars_of(text), "$$</span>"))
}

/// Inline math for inline code of the form `$...$` (after trimming), `None`
/// for any other inline code.
pub fn inline_math_html(text: &str) -> (r: Option<String>)
    ensures
        r.deep_view() == inline_math_seq(text@),
{
    let t = trim_chars(&chars_of(text));
    if t.len() >= 2 && t[0] == '$' && t[t.len() - 1] == '$' {
        let inner = sub_chars(&t, 1, t.len() - 1);
        Some(string_of(&surround("<span inline-code>\\(", &inner, "\\)</span>")))
    } else {
        None
    }
}

/// `<style>css</style>`.
pub fn style_html(css: &str) -> (r: String)
    ensures
        r@ == style_seq(css@),
{
    string_of(&surround("<style>", &chars_of(css), "</style>"))
}

/// The table of contents block of a page.
pub fn toc_block_html(toc_markdown: &str) -> (r: String)
    ensures
        r@ == toc_block_seq(toc_markdown@),
{
    let rendered = render_markdown(toc_markdown, true);
    string_of(&surround("<div toc>", &chars_of(rendered.as_str()), "</div>"))
}

/// The HTML that kuchiki serializes for the first node of a fragment parsed in
/// the context of a `div` element (`None` when the parse yields no node).
pub uninterp spec fn div_fragment_html(value: Seq<char>) -> Option<Seq<char>>;

/// `kuchiki::parse_fragment` in the context of an XHTML `div`, the text given to
/// `one`, and the first child of the result serialized with `to_string`.  The
/// contract names the result, a function of the text alone, and claims nothing
/// else of it.
#[verifier::external_body]
fn parse_div_fragment(value: &str) -> (r: Option<String>)
    ensures
        r.deep_view() == div_fragment_html(value@),
{
    let qual_name = html5ever::QualName::new(
        None,
        html5ever::Namespace::from("http://www.w3.org/1999/xhtml"),
        html5ever::LocalName::from("div"),
    );
    kuchiki::parse_fragment(qual_name, vec![]).one(value).first_child().map(|n| n.to_string())
}

/// The table of contents as it is inserted into a page: its block parsed as an
/// HTML fragment, serialized again, and stripped of document tags.
pub open spec fn toc_fragment_seq(toc_markdown: Seq<char>) -> Option<Seq<char>> {
    match div_fragment_html(toc_block_seq(toc_markdown)) {
        Some(h) => Some(strip_html_tags_seq(h)),
        None => None,
    }
}

/// The table of contents as it is inserted into a page.
pub fn toc_fragment_html(toc_markdown: &str) -> (r: Option<String>)
    ensures
        r.deep_view() == toc_fragment_seq(toc_markdown@),
{
    let block = toc_block_html(toc_markdown);
    match parse_div_fragment(block.as_str()) {
        Some(h) => Some(strip_html_tags(h.as_str())),
        None => None,
    }
}

/// The finished page of a serialized document.
pub fn page_html(serialized: &str) -> (r: String)
    ensures
        r@ == page_seq(serialized@),
{
    let stripped = strip_html_tags(serialized);
    string_of(&surround("<!DOCTYPE html>\n<html>\n", &chars_of(stripped.as_str()), "\n</html>"))
}

/// The finished page of a serialized document, with only `<html>` and `</html>`
/// stripped.
pub fn basic_page_html(serialized: &str) -> (r: String)
    ensures
        r@ == basic_page_seq(serialized@),
{
    let empty: Vec<char> = Vec::new();
    proof {
        reveal_strlit("<html>");
        reveal_strlit("</html>");
        assert(empty@ =~= Seq::<char>::empty());
    }
    let s = replace_chars(&chars_of(serialized), &chars_of("<html>"), &empty);
    let s = replace_chars(&s, &chars_of("</html>"), &empty);
    string_of(&surround("<!DOCTYPE html>\n<html>\n", &s, "\n</html>"))
}

/// The decimal digit `d`.
fn digit_char(d: u64) -> (c: char)
    requires
        d < 10,
    ensures
        c == (d + 48) as char,
{
    if d == 0 {
        '0'
    } else if d == 1 {
        '1'
    } else if d == 2 {
        '2'
    } else if d == 3 {
        '3'
    } else if d == 4 {
        '4'
    } else if d == 5 {
        '5'
    } else if d == 6 {
        '6'
    } else if d == 7 {
        '7'
    } else if d == 8 {
        '8'
    } else {
        '9'
    }
}

/// The decimal digits of `n`.
pub fn decimal_chars(n: u64) -> (r: Vec<char>)
    ensures
        r@ == decimal_seq(n as nat),
    decreases n,
{
    if n < 10 {
        let mut v = Vec::new();
        v.push(digit_char(n));
        proof {
            assert(v@ =~= seq![(n + 48) as char]);
        }
        v
    } else {
        let mut v = decimal_chars(n / 10);
        v.push(digit_char(n % 10));
        v
    }
}

/// The element that mounts a compiled script under the id `id`.
pub fn script_html(id: u64, module: &str, file: &str) -> (r: String)
    ensures
        r@ == script_seq(id, module@, file@),
{
    let digits = decimal_chars(id);
    let mut out = surround("\n<div id=\"", &digits, "\"></div><script>\n");
    append_chars(&mut out, &chars_of(file));
    append_chars(&mut out, &chars_of("\nthis."));
    append_chars(&mut out, &chars_of(module));
    append_chars(&mut out, &surround(".default(document.getElementById('", &digits, "'))\n</script>\n"));
    proof {
        let expected = script_seq(id, module@, file@);
        assert(out@ =~= expected);
    }
    string_of(&out)
}

/// `rand::random::<u64>()`: nothing is claimed of the value, which is drawn at
/// random.
#[verifier::external_body]
pub(crate) fn random_u64() -> u64 {
    rand::random::<u64>()
}

} // verus!
