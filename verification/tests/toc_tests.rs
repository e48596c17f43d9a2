use std::path::PathBuf;
use std::str::FromStr;

use web_pub::heading::{compile_config, Config, Heading, InputFile};
use web_pub::slug::slugify;
use web_pub::text::{chars_of, join_chars, lines_of, replace_chars, trim_chars};
use web_pub::toc::toc;

fn heading(depth: usize, title: &str) -> Heading {
    Heading { depth, title: title.to_string() }
}

fn chars(s: &str) -> Vec<char> {
    s.chars().collect()
}

#[test]
fn slugify_replaces_spaces_and_lowercases() {
    assert_eq!(slugify("Hello World"), "hello-world");
}

#[test]
fn slugify_encodes_controls() {
    assert_eq!(slugify("Tab\there"), "tab%09here");
    assert_eq!(slugify("a\u{7f}b"), "a%7Fb");
}

#[test]
fn slugify_encodes_non_ascii_bytes() {
    assert_eq!(slugify("Ünïcode Title"), "%C3%BCn%C3%AFcode-title");
}

#[test]
fn slugify_output_is_printable_ascii() {
    let s = slugify("Ça va?\u{1}\n Über Straße");
    assert!(s.chars().all(|c| (' '..='~').contains(&c)));
    assert!(!s.contains(' '));
}

#[test]
fn parse_heading_levels() {
    let h = Heading::from_str("## Hello World  ").unwrap();
    assert_eq!(h.depth, 1);
    assert_eq!(h.title, "Hello World");
    let h = Heading::from_str("#   Title").unwrap();
    assert_eq!(h.depth, 0);
    assert_eq!(h.title, "Title");
    let h = Heading::from_str("#Tight").unwrap();
    assert_eq!(h.depth, 0);
    assert_eq!(h.title, "Tight");
}

#[test]
fn parse_heading_without_title() {
    let h = Heading::from_str("###").unwrap();
    assert_eq!(h.depth, 2);
    assert_eq!(h.title, "");
    let h = Heading::from_str("# ").unwrap();
    assert_eq!(h.depth, 0);
    assert_eq!(h.title, "");
}

#[test]
fn parse_heading_title_may_start_with_hash() {
    let h = Heading::from_str("# #hash").unwrap();
    assert_eq!(h.depth, 0);
    assert_eq!(h.title, "#hash");
}

#[test]
fn parse_rejects_non_headings() {
    assert!(Heading::from_str("Not a heading").is_err());
    assert!(Heading::from_str("  # indented").is_err());
    assert!(Heading::from_str("").is_err());
    assert!(Heading::parse("   ").is_err());
}

#[test]
fn parse_written_heading_round_trip() {
    for depth in 0..5usize {
        for title in ["Intro", "A b c", "x", ""] {
            let line = format!("{} {}", "#".repeat(depth + 1), title);
            let h = Heading::parse(&line).unwrap();
            assert_eq!(h.depth, depth);
            assert_eq!(h.title, title);
        }
    }
}

#[test]
fn format_with_default_config() {
    let config = Config::default();
    assert_eq!(heading(0, "Hello World").format(&config).unwrap(), "1. [Hello World](#hello-world)");
    assert_eq!(heading(2, "Deep").format(&config).unwrap(), "        1. [Deep](#deep)");
}

#[test]
fn format_without_link() {
    let mut config = Config::default();
    config.no_link = true;
    config.bullet = "-".to_string();
    assert_eq!(heading(1, "Plain").format(&config).unwrap(), "    - Plain");
}

#[test]
fn format_depth_range() {
    let mut config = Config::default();
    config.min_depth = 1;
    config.max_depth = Some(2);
    config.indent = 2;
    assert!(heading(0, "Top").format(&config).is_none());
    assert!(heading(3, "Too deep").format(&config).is_none());
    assert_eq!(heading(1, "One").format(&config).unwrap(), "1. [One](#one)");
    assert_eq!(heading(2, "Two").format(&config).unwrap(), "  1. [Two](#two)");
}

#[test]
fn format_max_depth_inclusive() {
    let mut config = Config::default();
    config.max_depth = Some(0);
    assert!(heading(0, "A").format(&config).is_some());
    assert!(heading(1, "B").format(&config).is_none());
}

#[test]
fn default_config_values() {
    let config = Config::default();
    assert!(matches!(config.input_file, InputFile::StdIn));
    assert_eq!(config.bullet, "1.");
    assert_eq!(config.indent, 4);
    assert_eq!(config.max_depth, None);
    assert_eq!(config.min_depth, 0);
    assert_eq!(config.header.as_deref(), Some("## Table of Contents"));
    assert!(!config.no_link);
}

#[test]
fn compile_config_values() {
    let config = compile_config(PathBuf::from("notes.md"));
    match &config.input_file {
        InputFile::Path(p) => assert_eq!(p, &PathBuf::from("notes.md")),
        InputFile::StdIn => panic!("expected a path"),
    }
    assert_eq!(config.bullet, "1.");
    assert_eq!(config.indent, 4);
    assert_eq!(config.max_depth, None);
    assert_eq!(config.min_depth, 0);
    assert_eq!(config.header, None);
    assert!(!config.no_link);
}

#[test]
fn toc_skips_fenced_blocks() {
    let content = "# Title\n\nSome text\n## Section A\n```\n# not a heading\n```\n## Section B\r\n~~~rust\n## hidden\n```\n## still hidden\n~~~\n### Deep";
    let config = compile_config(PathBuf::from("x.md"));
    assert_eq!(
        toc(content, &config),
        "1. [Title](#title)\n    1. [Section A](#section-a)\n    1. [Section B](#section-b)\n        1. [Deep](#deep)"
    );
}

#[test]
fn toc_of_text_without_headings_is_empty() {
    let config = Config::default();
    assert_eq!(toc("just text\nmore text\n", &config), "");
    assert_eq!(toc("", &config), "");
}

#[test]
fn toc_unclosed_fence_hides_rest() {
    let config = Config::default();
    assert_eq!(toc("# A\n~~~\n# B\n# C", &config), "1. [A](#a)");
}

#[test]
fn toc_respects_depth_range() {
    let mut config = Config::default();
    config.min_depth = 1;
    config.max_depth = Some(1);
    config.no_link = true;
    assert_eq!(toc("# A\n## B\n### C\n## D", &config), "1. B\n1. D");
}

#[test]
fn lines_split_like_str_lines() {
    let v = lines_of(&chars("a\r\nb\n\nc\r"));
    let got: Vec<String> = v.iter().map(|l| l.iter().collect()).collect();
    assert_eq!(got, vec!["a", "b", "", "c\r"]);
    let expected: Vec<&str> = "a\r\nb\n\nc\r".lines().collect();
    assert_eq!(got, expected);
    assert!(lines_of(&chars("")).is_empty());
    assert_eq!(lines_of(&chars("\n")).len(), 1);
}

#[test]
fn lines_then_join_restores_text() {
    let text = "one\ntwo\n\nthree\n";
    let parts = lines_of(&chars(text));
    let joined: String = join_chars(&parts, &vec!['\n']).into_iter().collect();
    assert_eq!(joined, "one\ntwo\n\nthree");
}

#[test]
fn replace_is_left_to_right_non_overlapping() {
    let r: String = replace_chars(&chars("aaa"), &chars("aa"), &chars("b")).into_iter().collect();
    assert_eq!(r, "ba");
    let r: String = replace_chars(&chars("a b c"), &chars(" "), &chars("-")).into_iter().collect();
    assert_eq!(r, "a-b-c");
}

#[test]
fn trim_uses_unicode_whitespace() {
    let r: String = trim_chars(&chars("\u{3000}\t x y \u{a0}\n")).into_iter().collect();
    assert_eq!(r, "x y");
    assert_eq!(r, "\u{3000}\t x y \u{a0}\n".trim());
    assert_eq!(chars_of("héllo"), chars("héllo"));
}
