# web_pub

A verified library for turning markdown into pages: the table of contents of a
markdown file, the HTML fragments a page is assembled from, and the mapping of a
source tree onto an output tree.

- `src/text.rs`: characters, Unicode whitespace trimming, substring replacement,
  line splitting and joining.
- `src/slug.rs`: link anchors (spaces to hyphens, lower case, percent-encoding).
- `src/heading.rs`: reading `#` headings and formatting table-of-contents lines.
- `src/toc.rs`: skipping fenced code blocks and building the table of contents.
- `src/markup.rs`: markdown rendering and the page's HTML fragments.
- `src/script.rs`: compiling a page's script.
- `src/paths.rs`, `src/site.rs`: paths as components, rebasing, template lookup,
  the project's directories.
- `app/`: the `web-pub` program: command line, files, and the DOM passes over
  kuchiki documents.
