//! Whole pages: the template parsed, the table of contents and the rendered
//! markdown inserted into its `main`, the passes run, and the document
//! serialized into the finished page.
use vstd::prelude::*;

use crate::dom::{
    events_view, html_document, html_fragment, html_serialized, parse_document_events,
    serialize_events, EventView, HtmlEvent,
};
use crate::markup::{
    basic_page_html, basic_page_seq, commonmark_html, page_html, page_options, page_seq,
    random_u64, render_markdown, style_html, style_seq, toc_fragment_html, toc_fragment_seq,
};
use crate::passes::{
    append_fragment_to_last, append_to_last, code_pass, code_step, headings_have_text,
    lemma_links_succeed_iff_headings_have_text, lemma_math_passes_succeed,
    lemma_scripts_outcome_ignores_ids, link_step, links_pass, pre_pass, pre_step, rewrite,
    headings_start_with_text, lemma_links_keep_no_script_sources, scripts_compile,
    lemma_scripts_pass_without_sources, no_script_sources, script_src, script_src_of, script_step, scripts_pass, scripts_view,
    ScriptFile, ScriptView,
};

verus! {

/// Math typesetting: display math for preformatted blocks, then inline math.
pub open spec fn latex_seq(doc: Seq<EventView>) -> Option<Seq<EventView>> {
    match rewrite(doc, 0, pre_step(doc)) {
        None => None,
        Some(p) => rewrite(p, 0, code_step(p)),
    }
}

/// The scripts mounted, the dependencies appended to the `body`, and the math
/// typeset.
pub open spec fn transformer_seq(
    doc: Seq<EventView>,
    scripts: Seq<ScriptView>,
    deps: Seq<char>,
    ids: Seq<u64>,
) -> Option<Seq<EventView>> {
    match rewrite(doc, 0, script_step(doc, scripts, ids)) {
        None => None,
        Some(s) => latex_seq(append_to_last(s, "body"@, html_fragment(deps))),
    }
}

/// The headings anchored, the scripts mounted, the dependencies and the default
/// style appended to the `body`, and the math typeset.
pub open spec fn file_passes_seq(
    doc: Seq<EventView>,
    scripts: Seq<ScriptView>,
    deps: Seq<char>,
    css: Seq<char>,
    ids: Seq<u64>,
) -> Option<Seq<EventView>> {
    match rewrite(doc, 0, link_step(doc)) {
        None => None,
        Some(l) => match rewrite(l, 0, script_step(l, scripts, ids)) {
            None => None,
            Some(s) => latex_seq(
                append_to_last(
                    append_to_last(s, "body"@, html_fragment(deps)),
                    "body"@,
                    html_fragment(style_seq(css)),
                ),
            ),
        },
    }
}

/// The template with the table of contents and then the markdown, rendered with
/// tables, appended to its last `main`.
pub open spec fn page_document_seq(
    template: Seq<char>,
    markdown: Seq<char>,
    toc_markdown: Seq<char>,
) -> Option<Seq<EventView>> {
    match toc_fragment_seq(toc_markdown) {
        None => None,
        Some(toc) => Some(
            append_to_last(
                append_to_last(html_document(template), "main"@, html_fragment(toc)),
                "main"@,
                html_fragment(commonmark_html(markdown, page_options(true))),
            ),
        ),
    }
}

/// The finished page of a markdown file of a site.
pub open spec fn compiled_page_seq(
    template: Seq<char>,
    markdown: Seq<char>,
    toc_markdown: Seq<char>,
    scripts: Seq<ScriptView>,
    deps: Seq<char>,
    css: Seq<char>,
    ids: Seq<u64>,
) -> Option<Seq<char>> {
    match page_document_seq(template, markdown, toc_markdown) {
        None => None,
        Some(d) => match file_passes_seq(d, scripts, deps, css, ids) {
            None => None,
            Some(f) => Some(page_seq(html_serialized(f))),
        },
    }
}

/// The template with the markdown, rendered without tables, appended to its
/// last `main`.
pub open spec fn basic_document_seq(template: Seq<char>, markdown: Seq<char>) -> Seq<EventView> {
    append_to_last(
        html_document(template),
        "main"@,
        html_fragment(commonmark_html(markdown, page_options(false))),
    )
}

/// The finished page of a markdown file of an input tree.
pub open spec fn generated_page_seq(
    template: Seq<char>,
    markdown: Seq<char>,
    scripts: Seq<ScriptView>,
    deps: Seq<char>,
    ids: Seq<u64>,
) -> Option<Seq<char>> {
    match transformer_seq(basic_document_seq(template, markdown), scripts, deps, ids) {
        None => None,
        Some(f) => Some(basic_page_seq(html_serialized(f))),
    }
}

/// The scripts pass over the walk succeeds: every script element with a `src`
/// names a script that swc compiles (whatever ids are drawn).
pub open spec fn scripts_succeed(doc: Seq<EventView>, scripts: Seq<ScriptView>) -> bool {
    rewrite(doc, 0, script_step(doc, scripts, Seq::empty())) is Some
}

/// The document of a site page can be built and anchored: the table of contents
/// parses to a node and every heading starts with text.
pub open spec fn page_ready(template: Seq<char>, markdown: Seq<char>, toc_markdown: Seq<char>) -> bool {
    match page_document_seq(template, markdown, toc_markdown) {
        None => false,
        Some(d) => headings_have_text(d),
    }
}

/// A site page is made when the table of contents parses to a node, every
/// heading starts with text, and every script it mounts compiles.
pub open spec fn page_succeeds(
    template: Seq<char>,
    markdown: Seq<char>,
    toc_markdown: Seq<char>,
    scripts: Seq<ScriptView>,
) -> bool {
    match page_document_seq(template, markdown, toc_markdown) {
        None => false,
        Some(d) => headings_have_text(d) && scripts_succeed(
            rewrite(d, 0, link_step(d))->0,
            scripts,
        ),
    }
}

/// An input-tree page is made when every script it mounts compiles.
pub open spec fn generated_page_succeeds(
    template: Seq<char>,
    markdown: Seq<char>,
    scripts: Seq<ScriptView>,
) -> bool {
    scripts_succeed(basic_document_seq(template, markdown), scripts)
}

/// Whatever the ids, the math passes and the appended fragments never fail.
proof fn lemma_transformer_outcome(doc: Seq<EventView>, scripts: Seq<ScriptView>, deps: Seq<char>, ids: Seq<u64>)
    ensures
        (transformer_seq(doc, scripts, deps, ids) is Some) == scripts_succeed(doc, scripts),
{
    lemma_scripts_outcome_ignores_ids(doc, 0, scripts, ids, Seq::empty());
    if let Some(s) = rewrite(doc, 0, script_step(doc, scripts, ids)) {
        let a = append_to_last(s, "body"@, html_fragment(deps));
        lemma_math_passes_succeed(a);
        lemma_math_passes_succeed(rewrite(a, 0, pre_step(a))->0);
    }
}

/// A site page is made exactly when `page_succeeds` holds, whatever the ids.
pub proof fn lemma_compiled_page_outcome(
    template: Seq<char>,
    markdown: Seq<char>,
    toc_markdown: Seq<char>,
    scripts: Seq<ScriptView>,
    deps: Seq<char>,
    css: Seq<char>,
    ids: Seq<u64>,
)
    ensures
        (compiled_page_seq(template, markdown, toc_markdown, scripts, deps, css, ids) is Some)
            == page_succeeds(template, markdown, toc_markdown, scripts),
{
    if let Some(d) = page_document_seq(template, markdown, toc_markdown) {
        lemma_links_succeed_iff_headings_have_text(d);
        if let Some(l) = rewrite(d, 0, link_step(d)) {
            lemma_scripts_outcome_ignores_ids(l, 0, scripts, ids, Seq::empty());
            if let Some(s) = rewrite(l, 0, script_step(l, scripts, ids)) {
                let a = append_to_last(
                    append_to_last(s, "body"@, html_fragment(deps)),
                    "body"@,
                    html_fragment(style_seq(css)),
                );
                lemma_math_passes_succeed(a);
                lemma_math_passes_succeed(rewrite(a, 0, pre_step(a))->0);
            }
        }
    }
}

/// An input-tree page is made exactly when `generated_page_succeeds` holds,
/// whatever the ids.
pub proof fn lemma_generated_page_outcome(
    template: Seq<char>,
    markdown: Seq<char>,
    scripts: Seq<ScriptView>,
    deps: Seq<char>,
    ids: Seq<u64>,
)
    ensures
        (generated_page_seq(template, markdown, scripts, deps, ids) is Some)
            == generated_page_succeeds(template, markdown, scripts),
{
    lemma_transformer_outcome(basic_document_seq(template, markdown), scripts, deps, ids);
}

/// Where the document holds no script element with a `src`, the passes of an
/// input-tree page give the same result whatever ids are drawn.
pub proof fn lemma_transformer_ignores_ids(
    doc: Seq<EventView>,
    scripts: Seq<ScriptView>,
    deps: Seq<char>,
    ids1: Seq<u64>,
    ids2: Seq<u64>,
)
    requires
        no_script_sources(doc),
    ensures
        transformer_seq(doc, scripts, deps, ids1) == transformer_seq(doc, scripts, deps, ids2),
{
    lemma_scripts_pass_without_sources(doc, scripts, ids1);
    lemma_scripts_pass_without_sources(doc, scripts, ids2);
}

/// Where the document holds no script element with a `src`, the passes of a site
/// page give the same result whatever ids are drawn.
pub proof fn lemma_file_passes_ignore_ids(
    doc: Seq<EventView>,
    scripts: Seq<ScriptView>,
    deps: Seq<char>,
    css: Seq<char>,
    ids1: Seq<u64>,
    ids2: Seq<u64>,
)
    requires
        no_script_sources(doc),
    ensures
        file_passes_seq(doc, scripts, deps, css, ids1) == file_passes_seq(
            doc,
            scripts,
            deps,
            css,
            ids2,
        ),
{
    if let Some(l) = rewrite(doc, 0, link_step(doc)) {
        lemma_links_keep_no_script_sources(doc);
        lemma_scripts_pass_without_sources(l, scripts, ids1);
        lemma_scripts_pass_without_sources(l, scripts, ids2);
    }
}

/// An input-tree page whose document holds no script element with a `src` is
/// the same whatever ids are drawn.
pub proof fn lemma_generated_page_ignores_ids(
    template: Seq<char>,
    markdown: Seq<char>,
    scripts: Seq<ScriptView>,
    deps: Seq<char>,
    ids1: Seq<u64>,
    ids2: Seq<u64>,
)
    requires
        no_script_sources(basic_document_seq(template, markdown)),
    ensures
        generated_page_seq(template, markdown, scripts, deps, ids1) == generated_page_seq(
            template,
            markdown,
            scripts,
            deps,
            ids2,
        ),
{
    lemma_transformer_ignores_ids(basic_document_seq(template, markdown), scripts, deps, ids1, ids2);
}

/// A site page whose document holds no script element with a `src` is the same
/// whatever ids are drawn.
pub proof fn lemma_compiled_page_ignores_ids(
    template: Seq<char>,
    markdown: Seq<char>,
    toc_markdown: Seq<char>,
    scripts: Seq<ScriptView>,
    deps: Seq<char>,
    css: Seq<char>,
    ids1: Seq<u64>,
    ids2: Seq<u64>,
)
    requires
        page_document_seq(template, markdown, toc_markdown) is Some,
        no_script_sources(page_document_seq(template, markdown, toc_markdown)->0),
    ensures
        compiled_page_seq(template, markdown, toc_markdown, scripts, deps, css, ids1)
            == compiled_page_seq(template, markdown, toc_markdown, scripts, deps, css, ids2),
{
    lemma_file_passes_ignore_ids(
        page_document_seq(template, markdown, toc_markdown)->0,
        scripts,
        deps,
        css,
        ids1,
        ids2,
    );
}

/// The walk of an optional document.
pub open spec fn opt_events_view(r: Option<Vec<HtmlEvent>>) -> Option<Seq<EventView>> {
    match r {
        Some(x) => Some(events_view(x@)),
        None => None,
    }
}

/// `n` ids drawn at random.
fn draw_ids(n: usize) -> (r: Vec<u64>)
    ensures
        r.len() == n,
{
    let mut r: Vec<u64> = Vec::new();
    while r.len() < n
        invariant
            r.len() <= n,
        decreases n - r.len(),
    {
        r.push(random_u64());
    }
    r
}

/// Display math, then inline math.
pub fn latex(doc: &Vec<HtmlEvent>) -> (r: Vec<HtmlEvent>)
    ensures
        latex_seq(events_view(doc@)) == Some(events_view(r@)),
{
    proof {
        lemma_math_passes_succeed(events_view(doc@));
    }
    let p = pre_pass(doc);
    proof {
        lemma_math_passes_succeed(events_view(p@));
    }
    code_pass(&p)
}

/// The passes of a site page under the given script ids: anchors, scripts, the
/// dependencies and the default style, math.  Every heading must start with
/// text, from which its anchor is made, and every script mounted must compile.
pub fn html_file_passes_with_ids(
    doc: &Vec<HtmlEvent>,
    scripts: &Vec<ScriptFile>,
    deps: &str,
    css: &str,
    ids: &Vec<u64>,
) -> (r: Vec<HtmlEvent>)
    requires
        headings_have_text(events_view(doc@)),
        scripts_succeed(
            rewrite(events_view(doc@), 0, link_step(events_view(doc@)))->0,
            scripts_view(scripts@),
        ),
    ensures
        file_passes_seq(events_view(doc@), scripts_view(scripts@), deps@, css@, ids@) == Some(
            events_view(r@),
        ),
{
    let l = links_pass(doc);
    proof {
        lemma_scripts_outcome_ignores_ids(events_view(l@), 0, scripts_view(scripts@), ids@, Seq::empty());
    }
    let s = scripts_pass(&l, scripts, ids);
    let with_deps = append_fragment_to_last(&s, "body", deps);
    let style = style_html(css);
    let with_style = append_fragment_to_last(&with_deps, "body", style.as_str());
    latex(&with_style)
}

/// The passes of a site page, each script mounted under a random id.  Every
/// heading must start with text, and every script mounted must compile.
pub fn html_file_passes(
    doc: &Vec<HtmlEvent>,
    scripts: &Vec<ScriptFile>,
    deps: &str,
    css: &str,
) -> (r: Vec<HtmlEvent>)
    requires
        headings_have_text(events_view(doc@)),
        scripts_succeed(
            rewrite(events_view(doc@), 0, link_step(events_view(doc@)))->0,
            scripts_view(scripts@),
        ),
    ensures
        exists|ids: Seq<u64>|
            file_passes_seq(events_view(doc@), scripts_view(scripts@), deps@, css@, ids) == Some(
                events_view(r@),
            ),
{
    let ids = draw_ids(doc.len());
    html_file_passes_with_ids(doc, scripts, deps, css, &ids)
}

/// The passes of an input-tree page under the given script ids: scripts, the
/// dependencies, math.  Every script mounted must compile.
pub fn apply_transformer_with_ids(
    doc: &Vec<HtmlEvent>,
    scripts: &Vec<ScriptFile>,
    deps: &str,
    ids: &Vec<u64>,
) -> (r: Vec<HtmlEvent>)
    requires
        scripts_succeed(events_view(doc@), scripts_view(scripts@)),
    ensures
        transformer_seq(events_view(doc@), scripts_view(scripts@), deps@, ids@) == Some(
            events_view(r@),
        ),
{
    proof {
        lemma_scripts_outcome_ignores_ids(events_view(doc@), 0, scripts_view(scripts@), ids@, Seq::empty());
    }
    let s = scripts_pass(doc, scripts, ids);
    let with_deps = append_fragment_to_last(&s, "body", deps);
    latex(&with_deps)
}

/// The passes of an input-tree page, each script mounted under a random id.
/// Every script mounted must compile.
pub fn apply_transformer(doc: &Vec<HtmlEvent>, scripts: &Vec<ScriptFile>, deps: &str) -> (r: Vec<
    HtmlEvent,
>)
    requires
        scripts_succeed(events_view(doc@), scripts_view(scripts@)),
    ensures
        exists|ids: Seq<u64>|
            transformer_seq(events_view(doc@), scripts_view(scripts@), deps@, ids) == Some(
                events_view(r@),
            ),
{
    let ids = draw_ids(doc.len());
    apply_transformer_with_ids(doc, scripts, deps, &ids)
}

/// The template with the table of contents and the markdown in its `main`;
/// `None` when the table of contents parses to no node.
pub fn page_document(template: &str, markdown: &str, toc_markdown: &str) -> (r: Option<
    Vec<HtmlEvent>,
>)
    ensures
        opt_events_view(r) == page_document_seq(template@, markdown@, toc_markdown@),
{
    let doc = parse_document_events(template);
    let toc = match toc_fragment_html(toc_markdown) {
        None => {
            return None;
        },
        Some(t) => t,
    };
    let with_toc = append_fragment_to_last(&doc, "main", toc.as_str());
    let body = render_markdown(markdown, true);
    Some(append_fragment_to_last(&with_toc, "main", body.as_str()))
}

/// The page of a markdown file of a site, under the given script ids.  The table
/// of contents must parse to a node, every heading must start with text, and
/// every script mounted must compile.
pub fn compile_html_file_with_ids(
    template: &str,
    markdown: &str,
    toc_markdown: &str,
    scripts: &Vec<ScriptFile>,
    deps: &str,
    css: &str,
    ids: &Vec<u64>,
) -> (r: String)
    requires
        page_succeeds(template@, markdown@, toc_markdown@, scripts_view(scripts@)),
    ensures
        compiled_page_seq(
            template@,
            markdown@,
            toc_markdown@,
            scripts_view(scripts@),
            deps@,
            css@,
            ids@,
        ) == Some(r@),
{
    let doc = match page_document(template, markdown, toc_markdown) {
        Some(d) => d,
        None => {
            proof {
                assert(false);
            }
            return String::new();
        },
    };
    let done = html_file_passes_with_ids(&doc, scripts, deps, css, ids);
    let serialized = serialize_events(&done);
    page_html(serialized.as_str())
}

/// The page of a markdown file of a site: the template, its table of contents,
/// the rendered markdown, the passes with random script ids, and the finished
/// document.  The table of contents must parse to a node, every heading must
/// start with text, and every script mounted must compile.
pub fn compile_html_file(
    template: &str,
    markdown: &str,
    toc_markdown: &str,
    scripts: &Vec<ScriptFile>,
    deps: &str,
    css: &str,
) -> (r: String)
    requires
        page_succeeds(template@, markdown@, toc_markdown@, scripts_view(scripts@)),
    ensures
        exists|ids: Seq<u64>|
            compiled_page_seq(
                template@,
                markdown@,
                toc_markdown@,
                scripts_view(scripts@),
                deps@,
                css@,
                ids,
            ) == Some(r@),
{
    let n = match page_document(template, markdown, toc_markdown) {
        Some(d) => d.len(),
        None => 0,
    };
    let ids = draw_ids(n);
    compile_html_file_with_ids(template, markdown, toc_markdown, scripts, deps, css, &ids)
}

/// The page of a markdown file of a site where it can be made
/// (`page_succeeds`), and `None` otherwise: the document is built, its headings
/// and scripts tested, and only then is `compile_html_file` called.
pub fn try_compile_html_file(
    template: &str,
    markdown: &str,
    toc_markdown: &str,
    scripts: &Vec<ScriptFile>,
    deps: &str,
    css: &str,
) -> (r: Option<String>)
    ensures
        r is Some <==> page_succeeds(template@, markdown@, toc_markdown@, scripts_view(scripts@)),
        r matches Some(p) ==> exists|ids: Seq<u64>|
            compiled_page_seq(
                template@,
                markdown@,
                toc_markdown@,
                scripts_view(scripts@),
                deps@,
                css@,
                ids,
            ) == Some(p@),
{
    let doc = match page_document(template, markdown, toc_markdown) {
        Some(d) => d,
        None => {
            return None;
        },
    };
    if !headings_start_with_text(&doc) {
        return None;
    }
    let l = links_pass(&doc);
    if !scripts_compile(&l, scripts) {
        return None;
    }
    Some(compile_html_file(template, markdown, toc_markdown, scripts, deps, css))
}

/// The template with the markdown, rendered without tables, in its `main`.
pub fn basic_document(template: &str, markdown: &str) -> (r: Vec<HtmlEvent>)
    ensures
        events_view(r@) == basic_document_seq(template@, markdown@),
{
    let doc = parse_document_events(template);
    let body = render_markdown(markdown, false);
    append_fragment_to_last(&doc, "main", body.as_str())
}

/// The page of a markdown file of an input tree under the given script ids.
/// Every script mounted must compile.
pub fn generate_html_for_markdown_file_with_ids(
    template: &str,
    markdown: &str,
    scripts: &Vec<ScriptFile>,
    deps: &str,
    ids: &Vec<u64>,
) -> (r: String)
    requires
        generated_page_succeeds(template@, markdown@, scripts_view(scripts@)),
    ensures
        generated_page_seq(template@, markdown@, scripts_view(scripts@), deps@, ids@) == Some(
            r@,
        ),
{
    let doc = basic_document(template, markdown);
    let done = apply_transformer_with_ids(&doc, scripts, deps, ids);
    let serialized = serialize_events(&done);
    basic_page_html(serialized.as_str())
}

/// The page of a markdown file of an input tree: the template, the rendered
/// markdown, the passes with random script ids, and the finished document.
/// Every script mounted must compile.
pub fn generate_html_for_markdown_file(
    template: &str,
    markdown: &str,
    scripts: &Vec<ScriptFile>,
    deps: &str,
) -> (r: String)
    requires
        generated_page_succeeds(template@, markdown@, scripts_view(scripts@)),
    ensures
        exists|ids: Seq<u64>|
            generated_page_seq(template@, markdown@, scripts_view(scripts@), deps@, ids) == Some(
                r@,
            ),
{
    let n = basic_document(template, markdown).len();
    let ids = draw_ids(n);
    generate_html_for_markdown_file_with_ids(template, markdown, scripts, deps, &ids)
}

/// The page of a markdown file of an input tree where its scripts compile
/// (`generated_page_succeeds`), and `None` otherwise: the scripts are tested
/// before `generate_html_for_markdown_file` is called.
pub fn try_generate_html_for_markdown_file(
    template: &str,
    markdown: &str,
    scripts: &Vec<ScriptFile>,
    deps: &str,
) -> (r: Option<String>)
    ensures
        r is Some <==> generated_page_succeeds(template@, markdown@, scripts_view(scripts@)),
        r matches Some(p) ==> exists|ids: Seq<u64>|
            generated_page_seq(template@, markdown@, scripts_view(scripts@), deps@, ids) == Some(
                p@,
            ),
{
    let doc = basic_document(template, markdown);
    if !scripts_compile(&doc, scripts) {
        return None;
    }
    Some(generate_html_for_markdown_file(template, markdown, scripts, deps))
}

/// The `src` of every script element of a walk, in order.
pub open spec fn script_srcs(ev: Seq<EventView>) -> Seq<Seq<char>>
    decreases ev.len(),
{
    if ev.len() == 0 {
        Seq::empty()
    } else {
        match script_src(ev.last()) {
            Some(src) => script_srcs(ev.drop_last()).push(src),
            None => script_srcs(ev.drop_last()),
        }
    }
}

/// The `src` of every script element of a document, in order: the files that
/// its scripts pass compiles.
pub fn script_sources(doc: &Vec<HtmlEvent>) -> (r: Vec<String>)
    ensures
        r.deep_view() == script_srcs(events_view(doc@)),
{
    let ghost v = events_view(doc@);
    let mut r: Vec<String> = Vec::new();
    let mut i: usize = 0;
    proof {
        assert(v.take(0) =~= Seq::<EventView>::empty());
        assert(r.deep_view() =~= Seq::<Seq<char>>::empty());
    }
    while i < doc.len()
        invariant
            v == events_view(doc@),
            i <= doc.len(),
            r.deep_view() == script_srcs(v.take(i as int)),
        decreases doc.len() - i,
    {
        proof {
            assert(v.take(i + 1).drop_last() =~= v.take(i as int));
            assert(v.take(i + 1).last() == v[i as int]);
        }
        let ghost before = r.deep_view();
        match script_src_of(&doc[i]) {
            Some(src) => {
                r.push(src);
                proof {
                    assert(r.deep_view() =~= before.push(script_src(v[i as int])->0));
                }
            },
            None => {},
        }
        i += 1;
    }
    proof {
        assert(v.take(i as int) =~= v);
    }
    r
}

} // verus!
