use web_pub::markup::{
    basic_page_html, code_block_html, decimal_chars, inline_math_html, page_html, render_markdown,
    script_html, strip_html_tags, style_html, toc_block_html,
};
use web_pub::paths::{
    find_index_file_for, join, output_dirs, parent, rebase_parent, rebase_parents, root_index_path,
    same_path, strip_parent, FilePath,
};
use web_pub::site::{compiler_config, output_default, source_default, template_default, WebPubManifest};

fn fp(parts: &[&str]) -> FilePath {
    FilePath { components: parts.iter().map(|s| s.to_string()).collect() }
}

fn names(p: &FilePath) -> Vec<&str> {
    p.components.iter().map(|s| s.as_str()).collect()
}

#[test]
fn strip_html_tags_removes_document_tags() {
    assert_eq!(strip_html_tags("<!DOCTYPE html><html><body>x</body></html>"), "<body>x</body>");
    assert_eq!(strip_html_tags("<!doctype HTML><p>a</p>"), "<p>a</p>");
    assert_eq!(strip_html_tags("plain text"), "plain text");
}

#[test]
fn strip_html_tags_in_order() {
    // removing `<html>` first can leave a new `</html>` behind it, which goes too
    assert_eq!(strip_html_tags("</ht<html>ml>"), "");
    // but a `<html>` formed after its turn stays
    assert_eq!(strip_html_tags("<ht</html>ml>"), "<html>");
}

#[test]
fn inline_math_fragments() {
    assert_eq!(inline_math_html(" $x^2$ ").unwrap(), "<span inline-code>\\(x^2\\)</span>");
    assert_eq!(inline_math_html("$$").unwrap(), "<span inline-code>\\(\\)</span>");
    assert!(inline_math_html("$").is_none());
    assert!(inline_math_html("code").is_none());
    assert!(inline_math_html("$x").is_none());
}

#[test]
fn code_block_fragment() {
    assert_eq!(code_block_html("a+b"), "<span code-block>$$a+b$$</span>");
}

#[test]
fn style_fragment() {
    assert_eq!(style_html("p{}"), "<style>p{}</style>");
}

#[test]
fn script_fragment() {
    assert_eq!(
        script_html(42, "mod", "code();"),
        "\n<div id=\"42\"></div><script>\ncode();\nthis.mod.default(document.getElementById('42'))\n</script>\n"
    );
}

#[test]
fn decimal_digits() {
    let d: String = decimal_chars(0).into_iter().collect();
    assert_eq!(d, "0");
    let d: String = decimal_chars(305).into_iter().collect();
    assert_eq!(d, "305");
    let d: String = decimal_chars(u64::MAX).into_iter().collect();
    assert_eq!(d, u64::MAX.to_string());
}

#[test]
fn page_wrappers() {
    assert_eq!(page_html("<html><head></head></html>"), "<!DOCTYPE html>\n<html>\n<head></head>\n</html>");
    assert_eq!(
        basic_page_html("<!DOCTYPE html><html>x</html>"),
        "<!DOCTYPE html>\n<html>\n<!DOCTYPE html>x\n</html>"
    );
}

#[test]
fn markdown_rendering_options() {
    assert_eq!(render_markdown("~~x~~", false), "<p><del>x</del></p>\n");
    let table = "| a |\n|---|\n| b |\n";
    assert!(!render_markdown(table, false).contains("<table>"));
    assert!(render_markdown(table, true).contains("<table>"));
}

#[test]
fn toc_block_wraps_rendered_list() {
    let block = toc_block_html("1. [A](#a)");
    assert_eq!(block, format!("<div toc>{}</div>", render_markdown("1. [A](#a)", true)));
    assert!(block.starts_with("<div toc><ol>"));
    assert!(block.contains("<a href=\"#a\">A</a>"));
}

#[test]
fn strip_parent_doc_example() {
    let path = fp(&["example", "school-notes", "source", "calc", "chapter1.md"]);
    let reference = fp(&["example", "school-notes", "source"]);
    assert_eq!(names(&strip_parent(&path, &reference)), vec!["calc", "chapter1.md"]);
}

#[test]
fn rebase_parents_doc_example() {
    let paths = vec![fp(&["example", "school-notes", "source", "calc", "chapter1.md"])];
    let entries = rebase_parents(
        &paths,
        &fp(&["example", "school-notes", "source"]),
        &fp(&["example", "school-notes", "output"]),
    );
    assert_eq!(entries.len(), 1);
    assert_eq!(names(&entries[0].output), vec!["example", "school-notes", "output", "calc", "chapter1.md"]);
    assert_eq!(names(&entries[0].source), vec!["example", "school-notes", "source", "calc", "chapter1.md"]);
    assert_eq!(names(&entries[0].root), vec!["example", "school-notes", "source"]);
}

#[test]
fn rebase_parent_single() {
    let e = rebase_parent(&fp(&["src", "a", "b.md"]), &fp(&["src"]), &fp(&["/", "out"]));
    assert_eq!(names(&e.output), vec!["/", "out", "a", "b.md"]);
}

#[test]
fn output_with_extension() {
    let e = rebase_parent(&fp(&["src", "a", "b.md"]), &fp(&["src"]), &fp(&["out"]));
    assert_eq!(names(&e.output_with_ext("html")), vec!["out", "a", "b.html"]);
    let e = rebase_parent(&fp(&["src", ".bashrc"]), &fp(&["src"]), &fp(&["out"]));
    assert_eq!(names(&e.output_with_ext("html")), vec!["out", ".bashrc.html"]);
    let e = rebase_parent(&fp(&["src", "a.tar.gz"]), &fp(&["src"]), &fp(&["out"]));
    assert_eq!(names(&e.output_with_ext("html")), vec!["out", "a.tar.html"]);
    let e = rebase_parent(&fp(&["src", ".."]), &fp(&["src"]), &fp(&["out"]));
    assert_eq!(names(&e.output_with_ext("html")), vec!["out", ".."]);
    let e = rebase_parent(&fp(&["src", "page.md"]), &fp(&["src"]), &fp(&["out"]));
    let once = e.output_with_ext("html");
    let twice = rebase_parent(&once, &fp(&["out"]), &fp(&["out"])).output_with_ext("html");
    assert!(same_path(&once, &twice));
}

#[test]
fn join_and_parent() {
    assert_eq!(names(&join(&fp(&["a"]), &fp(&["/", "b"]))), vec!["/", "b"]);
    assert_eq!(names(&join(&fp(&["a"]), &fp(&[".", "b"]))), vec!["a", "b"]);
    assert_eq!(names(&join(&fp(&[]), &fp(&[".", "b"]))), vec![".", "b"]);
    assert!(parent(&fp(&["/"])).is_none());
    assert!(parent(&fp(&[])).is_none());
    assert_eq!(names(&parent(&fp(&["a"])).unwrap()), Vec::<&str>::new());
    assert_eq!(names(&parent(&fp(&["a", "b"])).unwrap()), vec!["a"]);
}

#[test]
fn index_file_lookup() {
    let input = fp(&["site"]);
    let output = fp(&["out"]);
    let index_files = vec![fp(&["site", "index.html"]), fp(&["site", "blog", "index.html"])];
    let found = find_index_file_for(&input, &output, &index_files, &fp(&["site", "blog", "post.md"]), false);
    assert_eq!(names(&found.unwrap()), vec!["site", "blog", "index.html"]);
    let found = find_index_file_for(&input, &output, &index_files, &fp(&["site", "x.md"]), false);
    assert_eq!(names(&found.unwrap()), vec!["site", "index.html"]);
    let found = find_index_file_for(&input, &output, &index_files[1..].to_vec(), &fp(&["site", "other", "x.md"]), true);
    assert_eq!(names(&found.unwrap()), vec!["site", "index.html"]);
    assert!(find_index_file_for(&input, &output, &index_files[1..].to_vec(), &fp(&["site", "other", "x.md"]), false).is_none());
    assert_eq!(names(&root_index_path(&input)), vec!["site", "index.html"]);
}

#[test]
fn output_directories() {
    let dirs = output_dirs(&fp(&["in"]), &fp(&["out"]), &vec![fp(&["in", "a", "index.html"]), fp(&["in", "b.html"])]);
    assert_eq!(names(&dirs[0]), vec!["out", "a"]);
    assert_eq!(names(&dirs[1]), vec!["out"]);
}

#[test]
fn manifest_defaults_and_config() {
    assert_eq!(names(&source_default()), vec!["source"]);
    assert_eq!(names(&template_default()), vec!["template"]);
    assert_eq!(names(&output_default()), vec!["output"]);
    let manifest = WebPubManifest { source: source_default(), template: fp(&["/", "tpl"]), output: output_default() };
    let config = compiler_config(fp(&["proj"]), &manifest);
    assert_eq!(names(&config.root_dir), vec!["proj"]);
    assert_eq!(names(&config.source_dir), vec!["proj", "source"]);
    assert_eq!(names(&config.template_dir), vec!["/", "tpl"]);
    assert_eq!(names(&config.output_dir), vec!["proj", "output"]);
}

#[test]
fn compile_typescript_script() {
    let src = "let x: number = 1;\nexport default function (el: any) { el.textContent = String(x); }\n";
    let out = web_pub::script::try_compile_code("widget.ts", src).unwrap();
    assert_eq!(web_pub::script::compile_code("widget.ts", src), out);
    assert!(!out.contains(": number"));
    assert!(out.contains("textContent"));
}

#[test]
fn compile_script_error() {
    assert!(web_pub::script::try_compile_code("broken.js", "let = ;").is_none());
}

#[test]
fn script_path_beside_page() {
    let p = web_pub::paths::sibling_path(&fp(&["src", "blog", "post.md"]), &fp(&["widget.ts"])).unwrap();
    assert_eq!(names(&p), vec!["src", "blog", "widget.ts"]);
    assert!(web_pub::paths::sibling_path(&fp(&["/"]), &fp(&["x.ts"])).is_none());
}

#[test]
fn toc_fragment_is_reserialized_block() {
    let f = web_pub::markup::toc_fragment_html("1. [A](#a)").unwrap();
    assert!(f.starts_with("<div toc=\"\"><ol>"));
    assert!(f.contains("<a href=\"#a\">A</a>"));
    assert!(!f.contains("<html>"));
}

#[test]
fn compile_javascript_script() {
    let out = web_pub::script::try_compile_code("widget.js", "const f = () => 1;\n").unwrap();
    assert!(out.contains("f"));
}
