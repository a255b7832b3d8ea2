//! Documentation data and the paths of the HTML renderer.
//!
//! The renderer's file writing stays outside the library; here live the
//! documentation items gathered per scope, the renderer's path scheme, its
//! fixed page header, and the markdown conversion.

use vstd::prelude::*;

use crate::bytes::push_all;

verus! {

/// The documentation items gathered in one scope.
pub struct Context {
    pub params: Vec<ParamItem>,
    pub ports: Vec<PortItem>,
    pub types: Vec<TypeItem>,
    pub modules: Vec<ModuleItem>,
    pub packages: Vec<PackageItem>,
    pub vars: Vec<VarItem>,
}

/// Documentation for a package.
pub struct PackageItem {
    /// Documentation text.
    pub doc: Vec<u8>,
    /// Package name.
    pub name: Vec<u8>,
    /// The package contents.
    pub content: Context,
}

/// Documentation for a module.
pub struct ModuleItem {
    /// Documentation text.
    pub doc: Vec<u8>,
    /// Module name.
    pub name: Vec<u8>,
    /// The module contents.
    pub content: Context,
}

/// Documentation for a parameter.
pub struct ParamItem {
    pub doc: Vec<u8>,
    pub name: Vec<u8>,
    pub ty: Vec<u8>,
}

/// Documentation for a port.
pub struct PortItem {
    pub doc: Vec<u8>,
    pub name: Vec<u8>,
    pub ty: Vec<u8>,
}

/// Documentation for a type.
pub struct TypeItem {
    pub doc: Vec<u8>,
    pub name: Vec<u8>,
    pub ty: Vec<u8>,
}

/// Documentation for a variable.
pub struct VarItem {
    pub doc: Vec<u8>,
    pub name: Vec<u8>,
    pub ty: Vec<u8>,
}

/// What the markdown renderer produces for the given text; a function of
/// the text alone.
pub uninterp spec fn html_of(md: Seq<u8>) -> Seq<u8>;

/// Render markdown documentation to HTML.
///
/// Relies on pulldown_cmark's Parser and push_html: the rendering depends
/// on the input text alone.
#[verifier::external_body]
fn markdown_to_html(doc: &Vec<u8>) -> (r: Vec<u8>)
    ensures
        r@ == html_of(doc@),
{
    let text = String::from_utf8_lossy(doc);
    let parser = pulldown_cmark::Parser::new_ext(&text, pulldown_cmark::Options::all());
    let mut out = String::new();
    pulldown_cmark::html::push_html(&mut out, parser);
    out.into_bytes()
}

/// The text up to the first line end, or all of it.
pub open spec fn first_line_end(s: Seq<u8>, i: int) -> int
    decreases s.len() - i,
{
    if i < 0 || i >= s.len() || s[i] == 10u8 {
        i
    } else {
        first_line_end(s, i + 1)
    }
}

/// The first line of `s`.
pub open spec fn first_line(s: Seq<u8>) -> Seq<u8> {
    s.take(first_line_end(s, 0))
}

/// Render a documentation text whole.
pub fn render_doc(doc: &Vec<u8>) -> (r: Vec<u8>)
    ensures
        r@ == html_of(doc@),
{
    markdown_to_html(doc)
}

/// Render only the headline of a documentation text: its first line.
pub fn render_headline_doc(doc: &Vec<u8>) -> (r: Vec<u8>)
    ensures
        r@ == html_of(first_line(doc@)),
{
    let mut i: usize = 0;
    while i < doc.len() && doc[i] != 10u8
        invariant
            i <= doc@.len(),
            forall|j: int| 0 <= j < i ==> doc@[j] != 10u8,
        decreases doc@.len() - i,
    {
        i += 1;
    }
    proof {
        lemma_first_line_end(doc@, 0, i as int);
    }
    let mut head: Vec<u8> = Vec::new();
    crate::bytes::push_range(&mut head, doc, 0, i);
    markdown_to_html(&head)
}

/// The scan that stops at the first line end finds `first_line_end`.
proof fn lemma_first_line_end(s: Seq<u8>, from: int, stop: int)
    requires
        0 <= from <= stop <= s.len(),
        forall|j: int| from <= j < stop ==> s[j] != 10u8,
        stop == s.len() || s[stop] == 10u8,
    ensures
        first_line_end(s, from) == stop,
    decreases s.len() - from,
{
    if from < stop {
        lemma_first_line_end(s, from + 1, stop);
    }
}

/// The bytes of `<html>` and the two stylesheet links of every page.
pub open spec fn header_model() -> Seq<u8> {
    lit_header_a() + lit_header_b() + lit_header_c()
}

pub open spec fn lit_header_a() -> Seq<u8> {
    seq![60u8, 104u8, 116u8, 109u8, 108u8, 62u8, 10u8]
}

pub open spec fn lit_header_b() -> Seq<u8> {
    lit_link_open() + lit_rustdoc() + lit_link_close()
}

pub open spec fn lit_header_c() -> Seq<u8> {
    lit_link_open() + lit_light() + lit_link_close()
}

/// `<link rel="stylesheet" type="text/css" href="static/`
pub open spec fn lit_link_open() -> Seq<u8> {
    seq![
        60u8, 108u8, 105u8, 110u8, 107u8, 32u8, 114u8, 101u8, 108u8, 61u8, 34u8, 115u8, 116u8,
        121u8, 108u8, 101u8, 115u8, 104u8, 101u8, 101u8, 116u8, 34u8, 32u8, 116u8, 121u8, 112u8,
        101u8, 61u8, 34u8, 116u8, 101u8, 120u8, 116u8, 47u8, 99u8, 115u8, 115u8, 34u8, 32u8,
        104u8, 114u8, 101u8, 102u8, 61u8, 34u8, 115u8, 116u8, 97u8, 116u8, 105u8, 99u8, 47u8,
    ]
}

/// `rustdoc.css`
pub open spec fn lit_rustdoc() -> Seq<u8> {
    seq![114u8, 117u8, 115u8, 116u8, 100u8, 111u8, 99u8, 46u8, 99u8, 115u8, 115u8]
}

/// `light.css`
pub open spec fn lit_light() -> Seq<u8> {
    seq![108u8, 105u8, 103u8, 104u8, 116u8, 46u8, 99u8, 115u8, 115u8]
}

/// `">` and the line end
pub open spec fn lit_link_close() -> Seq<u8> {
    seq![34u8, 62u8, 10u8]
}

/// `package.`
pub open spec fn lit_package_dot() -> Seq<u8> {
    seq![112u8, 97u8, 99u8, 107u8, 97u8, 103u8, 101u8, 46u8]
}

/// `module.`
pub open spec fn lit_module_dot() -> Seq<u8> {
    seq![109u8, 111u8, 100u8, 117u8, 108u8, 101u8, 46u8]
}

/// `type.`
pub open spec fn lit_type_dot() -> Seq<u8> {
    seq![116u8, 121u8, 112u8, 101u8, 46u8]
}

/// `.html`
pub open spec fn lit_dot_html() -> Seq<u8> {
    seq![46u8, 104u8, 116u8, 109u8, 108u8]
}

/// The page file name of the item: the kind marker, the name, `.html`.
pub open spec fn subpath_model(marker: Seq<u8>, name: Seq<u8>) -> Seq<u8> {
    marker + name + lit_dot_html()
}

/// The path under the output directory: the directory, `/`, the file name.
pub open spec fn joined_model(dir: Seq<u8>, sub: Seq<u8>) -> Seq<u8> {
    if dir.len() == 0 {
        sub
    } else if dir.last() == 47u8 {
        dir + sub
    } else {
        dir + seq![47u8] + sub
    }
}

fn push_lit_link_open(out: &mut Vec<u8>)
    ensures
        final(out)@ == old(out)@ + lit_link_open(),
{
    let tail: Vec<u8> = vec![
        60u8, 108u8, 105u8, 110u8, 107u8, 32u8, 114u8, 101u8, 108u8, 61u8, 34u8, 115u8, 116u8,
        121u8, 108u8, 101u8, 115u8, 104u8, 101u8, 101u8, 116u8, 34u8, 32u8, 116u8, 121u8, 112u8,
        101u8, 61u8, 34u8, 116u8, 101u8, 120u8, 116u8, 47u8, 99u8, 115u8, 115u8, 34u8, 32u8,
        104u8, 114u8, 101u8, 102u8, 61u8, 34u8, 115u8, 116u8, 97u8, 116u8, 105u8, 99u8, 47u8,
    ];
    push_all(out, &tail);
    proof {
        assert(out@ =~= old(out)@ + lit_link_open());
    }
}

/// Renders the documentation pages; `dir` is the output directory whose
/// page paths this type lays out.
pub struct Renderer {
    pub dir: Vec<u8>,
}

impl Renderer {
    /// A renderer for pages under `dir`.
    pub fn new(dir: Vec<u8>) -> (r: Renderer)
        ensures
            r.dir@ == dir@,
    {
        Renderer { dir }
    }

    /// The fixed page header: the opening tag and the stylesheet links.
    pub fn render_header(&self) -> (r: Vec<u8>)
        ensures
            r@ == header_model(),
    {
        let mut out: Vec<u8> = Vec::new();
        let start: Vec<u8> = vec![60u8, 104u8, 116u8, 109u8, 108u8, 62u8, 10u8];
        push_all(&mut out, &start);
        push_lit_link_open(&mut out);
        let rustdoc: Vec<u8> = vec![
            114u8, 117u8, 115u8, 116u8, 100u8, 111u8, 99u8, 46u8, 99u8, 115u8, 115u8,
        ];
        push_all(&mut out, &rustdoc);
        let close: Vec<u8> = vec![34u8, 62u8, 10u8];
        push_all(&mut out, &close);
        push_lit_link_open(&mut out);
        let light: Vec<u8> = vec![108u8, 105u8, 103u8, 104u8, 116u8, 46u8, 99u8, 115u8, 115u8];
        push_all(&mut out, &light);
        let close2: Vec<u8> = vec![34u8, 62u8, 10u8];
        push_all(&mut out, &close2);
        proof {
            assert(out@ =~= header_model());
        }
        out
    }

    /// The file name of a package page.
    pub fn subpath_to_package(&self, name: &Vec<u8>) -> (r: Vec<u8>)
        ensures
            r@ == subpath_model(lit_package_dot(), name@),
    {
        let mut out: Vec<u8> = vec![112u8, 97u8, 99u8, 107u8, 97u8, 103u8, 101u8, 46u8];
        push_all(&mut out, name);
        let tail: Vec<u8> = vec![46u8, 104u8, 116u8, 109u8, 108u8];
        push_all(&mut out, &tail);
        proof {
            assert(out@ =~= subpath_model(lit_package_dot(), name@));
        }
        out
    }

    /// The file name of a module page.
    pub fn subpath_to_module(&self, name: &Vec<u8>) -> (r: Vec<u8>)
        ensures
            r@ == subpath_model(lit_module_dot(), name@),
    {
        let mut out: Vec<u8> = vec![109u8, 111u8, 100u8, 117u8, 108u8, 101u8, 46u8];
        push_all(&mut out, name);
        let tail: Vec<u8> = vec![46u8, 104u8, 116u8, 109u8, 108u8];
        push_all(&mut out, &tail);
        proof {
            assert(out@ =~= subpath_model(lit_module_dot(), name@));
        }
        out
    }

    /// The file name of a type page.
    pub fn subpath_to_type(&self, name: &Vec<u8>) -> (r: Vec<u8>)
        ensures
            r@ == subpath_model(lit_type_dot(), name@),
    {
        let mut out: Vec<u8> = vec![116u8, 121u8, 112u8, 101u8, 46u8];
        push_all(&mut out, name);
        let tail: Vec<u8> = vec![46u8, 104u8, 116u8, 109u8, 108u8];
        push_all(&mut out, &tail);
        proof {
            assert(out@ =~= subpath_model(lit_type_dot(), name@));
        }
        out
    }

    fn join_dir(&self, sub: Vec<u8>) -> (r: Vec<u8>)
        ensures
            r@ == joined_model(self.dir@, sub@),
    {
        let mut out: Vec<u8> = Vec::new();
        if self.dir.len() == 0 {
            push_all(&mut out, &sub);
            proof {
                assert(out@ =~= joined_model(self.dir@, sub@));
            }
            return out;
        }
        push_all(&mut out, &self.dir);
        if self.dir[self.dir.len() - 1] != 47u8 {
            out.push(47u8);
        }
        push_all(&mut out, &sub);
        proof {
            assert(out@ =~= joined_model(self.dir@, sub@));
        }
        out
    }

    /// The path of a package page under the output directory.
    pub fn path_to_package(&self, name: &Vec<u8>) -> (r: Vec<u8>)
        ensures
            r@ == joined_model(self.dir@, subpath_model(lit_package_dot(), name@)),
    {
        let sub = self.subpath_to_package(name);
        self.join_dir(sub)
    }

    /// The path of a module page under the output directory.
    pub fn path_to_module(&self, name: &Vec<u8>) -> (r: Vec<u8>)
        ensures
            r@ == joined_model(self.dir@, subpath_model(lit_module_dot(), name@)),
    {
        let sub = self.subpath_to_module(name);
        self.join_dir(sub)
    }

    /// The path of a type page under the output directory.
    pub fn path_to_type(&self, name: &Vec<u8>) -> (r: Vec<u8>)
        ensures
            r@ == joined_model(self.dir@, subpath_model(lit_type_dot(), name@)),
    {
        let sub = self.subpath_to_type(name);
        self.join_dir(sub)
    }
}

} // verus!
