//! Tables of contents for markdown files, and the pages of a site built from
//! markdown: heading parsing and formatting, link anchors, fenced-block
//! scanning, the HTML fragments of a page, the passes over a page's document
//! (anchors, scripts, dependencies, math), and the rebasing of source paths onto
//! the output tree.
pub mod dom;
pub mod heading;
pub mod markup;
pub mod passes;
pub mod page;
pub mod paths;
pub mod script;
pub mod site;
pub mod slug;
pub mod text;
pub mod toc;
