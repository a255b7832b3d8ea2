// Tests for the documentation paths, the page header, and the markdown
// conversion.

use morty::doc::{render_doc, render_headline_doc, Renderer};

fn b(s: &str) -> Vec<u8> {
    s.as_bytes().to_vec()
}

fn contains(hay: &[u8], needle: &[u8]) -> bool {
    hay.windows(needle.len()).any(|w| w == needle)
}

#[test]
fn subpaths_name_kind_and_extension() {
    let r = Renderer::new(b("docs"));
    assert_eq!(r.subpath_to_package(&b("fifo_pkg")), b("package.fifo_pkg.html"));
    assert_eq!(r.subpath_to_module(&b("fifo")), b("module.fifo.html"));
    assert_eq!(r.subpath_to_type(&b("word_t")), b("type.word_t.html"));
}

#[test]
fn paths_join_the_directory()
{
    let r = Renderer::new(b("docs"));
    assert_eq!(r.path_to_package(&b("p")), b("docs/package.p.html"));
    assert_eq!(r.path_to_module(&b("m")), b("docs/module.m.html"));
    assert_eq!(r.path_to_type(&b("t")), b("docs/type.t.html"));
    let slash = Renderer::new(b("docs/"));
    assert_eq!(slash.path_to_module(&b("m")), b("docs/module.m.html"));
    let empty = Renderer::new(Vec::new());
    assert_eq!(empty.path_to_module(&b("m")), b("module.m.html"));
}

#[test]
fn header_links_both_stylesheets() {
    let r = Renderer::new(b("docs"));
    let h = r.render_header();
    assert!(h.starts_with(&b("<html>\n")));
    assert!(contains(&h, &b("static/rustdoc.css")));
    assert!(contains(&h, &b("static/light.css")));
}

#[test]
fn markdown_is_rendered_not_echoed() {
    let html = render_doc(&b("*emphasis* here"));
    assert!(contains(&html, &b("<em>emphasis</em>")));
    assert!(html != b("*emphasis* here"));
}

#[test]
fn headline_renders_only_the_first_line() {
    let html = render_headline_doc(&b("headline text\nbody that is left out"));
    assert!(contains(&html, &b("headline text")));
    assert!(!contains(&html, &b("body that is left out")));
}
