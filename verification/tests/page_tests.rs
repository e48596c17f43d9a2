use web_pub::dom::{HtmlEvent, HtmlNode};
use web_pub::heading::{Config, Heading};
use web_pub::page::{
    basic_document, compile_html_file, compile_html_file_with_ids, generate_html_for_markdown_file,
    generate_html_for_markdown_file_with_ids, latex, page_document, script_sources,
};
use web_pub::passes::{
    append_fragment_to_last, links_pass, pre_pass, scripts_compile, scripts_pass, ScriptFile,
};
use web_pub::paths::{is_valid_path, join, strip_parent, FilePath};
use web_pub::slug::slugify;

const TEMPLATE: &str = "<!DOCTYPE html><html><head></head><body><main></main></body></html>";

fn fp(parts: &[&str]) -> FilePath {
    FilePath { components: parts.iter().map(|s| s.to_string()).collect() }
}

fn ids(n: usize, id: u64) -> Vec<u64> {
    vec![id; n]
}

fn element_id(e: &HtmlEvent) -> Option<String> {
    match e {
        HtmlEvent::Start(HtmlNode::Element { attrs, .. }) => {
            attrs.iter().find(|a| a.ns.is_empty() && a.name == "id").map(|a| a.value.clone())
        }
        _ => None,
    }
}

fn is_element(e: &HtmlEvent, name: &str) -> bool {
    matches!(e, HtmlEvent::Start(HtmlNode::Element { name: n, .. }) if n == name)
}

#[test]
fn heading_id_is_toc_anchor() {
    let doc = basic_document(TEMPLATE, "# Hello World\n\n## Second Part\n");
    let linked = links_pass(&doc);
    assert_eq!(linked.len(), doc.len());
    let h1 = linked.iter().position(|e| is_element(e, "h1")).unwrap();
    let h2 = linked.iter().position(|e| is_element(e, "h2")).unwrap();
    assert_eq!(element_id(&linked[h1]).unwrap(), "hello-world");
    assert_eq!(element_id(&linked[h2]).unwrap(), "second-part");
    let line = Heading { depth: 0, title: "Hello World".to_string() }.format(&Config::default()).unwrap();
    assert!(line.ends_with(&format!("(#{})", element_id(&linked[h1]).unwrap())));
}

#[test]
fn heading_without_text_fails_links() {
    let doc = basic_document(TEMPLATE, "# *Emphasis*\n");
    assert!(!web_pub::passes::headings_start_with_text(&doc));
}

#[test]
fn existing_id_is_replaced() {
    let doc = basic_document(TEMPLATE, "<h2 id=\"old\" class=\"c\">New Name</h2>\n");
    let linked = links_pass(&doc);
    let h2 = linked.iter().position(|e| is_element(e, "h2")).unwrap();
    assert_eq!(element_id(&linked[h2]).unwrap(), "new-name");
}

#[test]
fn fragments_go_into_last_main() {
    let doc = basic_document("<html><body><main id=\"a\"></main><main id=\"b\"></main></body></html>", "");
    let with = append_fragment_to_last(&doc, "main", "<p>x</p>");
    let last_main = with.iter().rposition(|e| is_element(e, "main")).unwrap();
    assert_eq!(element_id(&with[last_main]).unwrap(), "b");
    assert!(with[last_main..].iter().any(|e| is_element(e, "p")));
    assert!(!with[..last_main].iter().any(|e| is_element(e, "p")));
}

#[test]
fn fragment_without_target_leaves_document() {
    let doc = basic_document("<html><body></body></html>", "");
    let with = append_fragment_to_last(&doc, "main", "<p>x</p>");
    assert_eq!(with.len(), doc.len());
}

#[test]
fn math_passes_typeset() {
    let doc = basic_document(TEMPLATE, "Inline `$x^2$` and `plain`.\n\n```\ny = 1\n```\n");
    let done = latex(&doc);
    let page = web_pub::page::generate_html_for_markdown_file_with_ids(TEMPLATE, "Inline `$x^2$` and `plain`.\n\n```\ny = 1\n```\n", &vec![], "", &vec![]);
    assert!(done.iter().all(|e| !is_element(e, "pre")));
    assert!(page.contains("<span inline-code=\"\">\\(x^2\\)</span>"));
    assert!(page.contains("<code>plain</code>"));
    assert!(page.contains("<span code-block=\"\">$$y = 1\n$$</span>"));
    assert!(page.starts_with("<!DOCTYPE html>\n<html>\n"));
    assert!(page.ends_with("\n</html>"));
}

#[test]
fn pre_without_inner_text_is_kept() {
    let doc = basic_document(TEMPLATE, "<pre></pre>\n");
    let done = pre_pass(&doc);
    assert!(done.iter().any(|e| is_element(e, "pre")));
}

#[test]
fn site_page_has_anchors_toc_style_and_math() {
    let markdown = "# Hello World\n\nText with `$a$`.\n\n| a | b |\n|---|---|\n| 1 | 2 |\n";
    let toc = "1. [Hello World](#hello-world)\n";
    let page = compile_html_file_with_ids(TEMPLATE, markdown, toc, &vec![], "<i>deps</i>", "p{}", &vec![]);
    assert!(page.starts_with("<!DOCTYPE html>\n<html>\n"));
    assert!(page.contains("<h1 id=\"hello-world\">Hello World</h1>"));
    assert!(page.contains("<div toc=\"\"><ol>"));
    assert!(page.contains("href=\"#hello-world\""));
    assert!(page.contains("<table>"));
    assert!(page.contains("<span inline-code=\"\">\\(a\\)</span>"));
    assert!(page.contains("<i>deps</i>"));
    assert!(page.contains("<style>p{}</style>"));
    let toc_at = page.find("<div toc").unwrap();
    let body_at = page.find("<h1").unwrap();
    assert!(toc_at < body_at);
    let style_at = page.find("<style>").unwrap();
    assert!(page.find("<i>deps</i>").unwrap() < style_at);
}

#[test]
fn basic_page_has_no_tables_and_no_anchors() {
    let markdown = "# Title\n\n| a | b |\n|---|---|\n| 1 | 2 |\n";
    let page = generate_html_for_markdown_file_with_ids(TEMPLATE, markdown, &vec![], "<i>d</i>", &vec![]);
    assert!(!page.contains("<table>"));
    assert!(page.contains("<h1>Title</h1>"));
    assert!(page.contains("<i>d</i>"));
}

#[test]
fn site_page_fails_on_heading_without_text() {
    let doc = page_document(TEMPLATE, "# `code`\n", "").unwrap();
    assert!(!web_pub::passes::headings_start_with_text(&doc));
    assert!(web_pub::page::try_compile_html_file(TEMPLATE, "# `code`\n", "", &vec![], "", "").is_none());
}

#[test]
fn site_page_with_random_ids() {
    let page = compile_html_file(TEMPLATE, "# Top\n", "", &vec![], "", "");
    assert!(page.contains("<h1 id=\"top\">Top</h1>"));
}

fn js_script(src: &str) -> ScriptFile {
    ScriptFile {
        src: src.to_string(),
        module: "widget".to_string(),
        file_name: "widget.js".to_string(),
        source: "export default function (el) { el.textContent = 'hi'; }\n".to_string(),
    }
}

#[test]
fn scripts_are_mounted_under_their_ids() {
    let markdown = "<script src=\"widget.js\"></script>\n";
    let doc = basic_document(TEMPLATE, markdown);
    assert_eq!(script_sources(&doc), vec!["widget.js".to_string()]);
    let page = generate_html_for_markdown_file_with_ids(TEMPLATE, markdown, &vec![js_script("widget.js")], "", &ids(doc.len(), 42));
    assert!(page.contains("<div id=\"42\"></div>"));
    assert!(page.contains("this.widget.default(document.getElementById('42'))"));
    assert!(!page.contains("src=\"widget.js\""));
}

#[test]
fn scripts_are_mounted_under_random_ids() {
    let markdown = "<script src=\"widget.js\"></script>\n";
    let page = generate_html_for_markdown_file(TEMPLATE, markdown, &vec![js_script("widget.js")], "");
    let start = page.find("<div id=\"").unwrap() + "<div id=\"".len();
    let end = page[start..].find('"').unwrap() + start;
    let id = &page[start..end];
    assert!(id.parse::<u64>().is_ok());
    assert!(page.contains(&format!("this.widget.default(document.getElementById('{}'))", id)));
}

#[test]
fn missing_script_fails() {
    let doc = basic_document(TEMPLATE, "<script src=\"other.js\"></script>\n");
    assert!(!scripts_compile(&doc, &vec![js_script("widget.js")]));
    assert!(web_pub::page::try_generate_html_for_markdown_file(TEMPLATE, "<script src=\"other.js\"></script>\n", &vec![js_script("widget.js")], "").is_none());
}

#[test]
fn script_that_does_not_compile_fails() {
    let doc = basic_document(TEMPLATE, "<script src=\"bad.js\"></script>\n");
    let mut bad = js_script("bad.js");
    bad.source = "let = = ;".to_string();
    assert!(!scripts_compile(&doc, &vec![bad]));
}

#[test]
fn script_without_src_is_kept() {
    let doc = basic_document(TEMPLATE, "<script>var a = 1;</script>\n");
    assert!(script_sources(&doc).is_empty());
    assert!(scripts_compile(&doc, &vec![]));
    let done = scripts_pass(&doc, &vec![], &vec![]);
    assert_eq!(done.len(), doc.len());
}

#[test]
fn page_document_holds_toc_then_body() {
    let doc = page_document(TEMPLATE, "para\n", "- item\n").unwrap();
    let li = doc.iter().position(|e| is_element(e, "li")).unwrap();
    let p = doc.iter().position(|e| is_element(e, "p")).unwrap();
    assert!(li < p);
}

#[test]
fn slug_of_printable_ascii_is_lowered_and_stable() {
    let s = slugify("Hello World, Again!");
    assert_eq!(s, "hello-world,-again!");
    assert_eq!(slugify(&s), s);
}

#[test]
fn valid_paths() {
    assert!(is_valid_path(&fp(&["/", "a", "b"])));
    assert!(is_valid_path(&fp(&[".", "a"])));
    assert!(!is_valid_path(&fp(&["a", "."])));
    assert!(!is_valid_path(&fp(&["a", "/"])));
    assert!(!is_valid_path(&fp(&["a", ""])));
    assert!(!is_valid_path(&fp(&["a/b"])));
}

#[test]
fn strip_then_join_gives_path_back() {
    let path = fp(&["example", "school-notes", "source", "calc", "chapter1.md"]);
    let reference = fp(&["example", "school-notes", "source"]);
    let rel = strip_parent(&path, &reference);
    assert_eq!(join(&reference, &rel).components, path.components);
}

#[test]
fn try_compile_reports_unready_pages() {
    assert!(web_pub::page::try_compile_html_file(TEMPLATE, "# `code`\n", "", &vec![], "", "").is_none());
    let page = web_pub::page::try_compile_html_file(TEMPLATE, "# Fine\n", "", &vec![], "", "").unwrap();
    assert!(page.contains("<h1 id=\"fine\">Fine</h1>"));
}

#[test]
fn headings_start_with_text_check() {
    assert!(web_pub::passes::headings_start_with_text(&basic_document(TEMPLATE, "# A\n\n## B\n")));
    assert!(!web_pub::passes::headings_start_with_text(&basic_document(TEMPLATE, "# A\n\n## *B*\n")));
}

#[test]
fn slug_has_no_space() {
    assert!(!slugify("Ünïcödé Title  Here").contains(' '));
    assert!(!slugify(" \u{00A0} ").contains(' '));
}

#[test]
fn page_without_script_sources_ignores_ids() {
    let md = "# Title\n\ntext\n";
    let a = compile_html_file_with_ids(TEMPLATE, md, "", &vec![], "", "", &ids(100, 1));
    let b = compile_html_file_with_ids(TEMPLATE, md, "", &vec![], "", "", &ids(100, 2));
    assert_eq!(a, b);
}
