//! The indexed form of one preprocessed source file.
//!
//! Parsing and the walk over the syntax tree happen outside the library;
//! what arrives here is the preprocessed text of each file together with
//! plain records for every top-level declaration, every reference that may
//! denote one, every text-macro definition and every timeunits declaration,
//! each anchored to its exact byte range in the text.

use vstd::prelude::*;

use crate::Span;

verus! {

/// The kind of a top-level SystemVerilog construct.
#[derive(Clone, Copy, PartialEq, Eq, Structural, Debug)]
pub enum SVConstructType {
    Module,
    Interface,
    Package,
    _Class,
}

/// One reference that may denote a top-level declaration: an instantiation
/// target, a package-import item, a package or class scope qualifier, or an
/// interface port header type.  `kind` is what the syntactic context implies
/// for the referent; `token` covers exactly the identifier token.
pub struct UsageRecord {
    pub kind: SVConstructType,
    pub name: Vec<u8>,
    pub token: Span,
}

/// One module instantiation that connects ports with a `.*` wildcard.
/// `dot_star` covers exactly the `.*` token; `connected` lists the port
/// names already connected explicitly in this instantiation.
pub struct InstRecord {
    pub target: Vec<u8>,
    pub dot_star: Span,
    pub connected: Vec<Vec<u8>>,
}

/// One top-level declaration.  `header` covers the whole declaration,
/// `ident` only the declared name's token; `ports` lists the declared port
/// names in declaration order; `usages` and `insts` are the references and
/// `.*` instantiations found inside this declaration.
pub struct DeclRecord {
    pub kind: SVConstructType,
    pub name: Vec<u8>,
    pub header: Span,
    pub ident: Span,
    pub ports: Vec<Vec<u8>>,
    pub usages: Vec<UsageRecord>,
    pub insts: Vec<InstRecord>,
}

/// One preprocessed input file with its index records.
pub struct ParsedFile {
    /// Path the file was read from.
    pub path: Vec<u8>,
    /// The exact preprocessed text; every span is a byte range into it.
    pub source: Vec<u8>,
    /// The top-level declarations, in source order.
    pub decls: Vec<DeclRecord>,
    /// Package imports at source-text top level, outside any declaration.
    pub global_imports: Vec<UsageRecord>,
    /// The spans of all text-macro definitions.
    pub macro_defs: Vec<Span>,
    /// The spans of all timeunits declarations.
    pub timeunits: Vec<Span>,
}

/// A non-empty span that lies within a buffer of length `n`.
pub open spec fn span_ok(s: Span, n: int) -> bool {
    s.len >= 1 && s.offset + s.len <= n
}

impl UsageRecord {
    pub open spec fn wf(self, n: int) -> bool {
        span_ok(self.token, n)
    }
}

impl InstRecord {
    pub open spec fn wf(self, n: int) -> bool {
        span_ok(self.dot_star, n)
    }
}

impl DeclRecord {
    pub open spec fn wf(self, n: int) -> bool {
        &&& span_ok(self.header, n)
        &&& span_ok(self.ident, n)
        &&& self.ident.inside(self.header)
        &&& forall|i: int| 0 <= i < self.usages@.len() ==> (#[trigger] self.usages@[i]).wf(n)
        &&& forall|i: int| 0 <= i < self.insts@.len() ==> (#[trigger] self.insts@[i]).wf(n)
    }
}

impl ParsedFile {
    /// Every span of the file's records is a non-empty byte range of its
    /// text, and each declared name's token lies inside its declaration.
    pub open spec fn wf(self) -> bool {
        let n = self.source@.len() as int;
        &&& forall|i: int| 0 <= i < self.decls@.len() ==> (#[trigger] self.decls@[i]).wf(n)
        &&& forall|i: int|
            0 <= i < self.global_imports@.len() ==> (#[trigger] self.global_imports@[i]).wf(n)
        &&& forall|i: int| 0 <= i < self.macro_defs@.len() ==> span_ok(
            #[trigger] self.macro_defs@[i],
            n,
        )
        &&& forall|i: int| 0 <= i < self.timeunits@.len() ==> span_ok(
            #[trigger] self.timeunits@[i],
            n,
        )
    }
}


/// The declaration whose header range contains the token's offset, if any:
/// the owner a reference at that position belongs to.
pub fn owner_of_token(decls: &Vec<DeclRecord>, token: Span) -> (r: Option<usize>)
    ensures
        match r {
            Some(j) => j < decls@.len() && decls@[j as int].header.offset <= token.offset
                && token.offset < decls@[j as int].header.offset + decls@[j as int].header.len,
            None => forall|j: int|
                0 <= j < decls@.len() ==> !((#[trigger] decls@[j]).header.offset <= token.offset
                    && token.offset < decls@[j].header.offset + decls@[j].header.len),
        },
{
    let mut j: usize = 0;
    while j < decls.len()
        invariant
            j <= decls@.len(),
            forall|k: int|
                0 <= k < j ==> !((#[trigger] decls@[k]).header.offset <= token.offset
                    && token.offset < decls@[k].header.offset + decls@[k].header.len),
        decreases decls@.len() - j,
    {
        let h = decls[j].header;
        if h.offset <= token.offset && token.offset - h.offset < h.len {
            return Some(j);
        }
        j += 1;
    }
    None
}

fn span_ok_exec(s: Span, n: usize) -> (r: bool)
    ensures
        r == span_ok(s, n as int),
{
    s.len >= 1 && s.offset <= n && n - s.offset >= s.len
}

/// Whether the file's records satisfy [`ParsedFile::wf`]; callers that
/// assemble records by hand can check them before handing them over.
pub fn check_file(f: &ParsedFile) -> (r: bool)
    ensures
        r == f.wf(),
{
    let n = f.source.len();
    let mut i: usize = 0;
    while i < f.decls.len()
        invariant
            i <= f.decls@.len(),
            n == f.source@.len(),
            forall|j: int| 0 <= j < i ==> (#[trigger] f.decls@[j]).wf(n as int),
        decreases f.decls@.len() - i,
    {
        let d = &f.decls[i];
        if !(span_ok_exec(d.header, n) && span_ok_exec(d.ident, n) && d.header.offset
            <= d.ident.offset && d.ident.offset - d.header.offset <= d.header.len
            && d.header.len - (d.ident.offset - d.header.offset) >= d.ident.len) {
            return false;
        }
        let mut u: usize = 0;
        while u < d.usages.len()
            invariant
                u <= d.usages@.len(),
                n == f.source@.len(),
                i < f.decls@.len(),
                *d == f.decls@[i as int],
                forall|k: int| 0 <= k < u ==> (#[trigger] d.usages@[k]).wf(n as int),
            decreases d.usages@.len() - u,
        {
            if !span_ok_exec(d.usages[u].token, n) {
                proof {
                    assert(!(#[trigger] f.decls@[i as int]).wf(n as int));
                }
                return false;
            }
            u += 1;
        }
        let mut v: usize = 0;
        while v < d.insts.len()
            invariant
                v <= d.insts@.len(),
                n == f.source@.len(),
                i < f.decls@.len(),
                *d == f.decls@[i as int],
                forall|k: int| 0 <= k < v ==> (#[trigger] d.insts@[k]).wf(n as int),
            decreases d.insts@.len() - v,
        {
            if !span_ok_exec(d.insts[v].dot_star, n) {
                proof {
                    assert(!(#[trigger] f.decls@[i as int]).wf(n as int));
                }
                return false;
            }
            v += 1;
        }
        i += 1;
    }
    let mut g: usize = 0;
    while g < f.global_imports.len()
        invariant
            g <= f.global_imports@.len(),
            n == f.source@.len(),
            forall|j: int| 0 <= j < f.decls@.len() ==> (#[trigger] f.decls@[j]).wf(n as int),
            forall|j: int| 0 <= j < g ==> (#[trigger] f.global_imports@[j]).wf(n as int),
        decreases f.global_imports@.len() - g,
    {
        if !span_ok_exec(f.global_imports[g].token, n) {
            return false;
        }
        g += 1;
    }
    let mut m: usize = 0;
    while m < f.macro_defs.len()
        invariant
            m <= f.macro_defs@.len(),
            n == f.source@.len(),
            forall|j: int| 0 <= j < f.decls@.len() ==> (#[trigger] f.decls@[j]).wf(n as int),
            forall|j: int|
                0 <= j < f.global_imports@.len() ==> (#[trigger] f.global_imports@[j]).wf(n as int),
            forall|j: int| 0 <= j < m ==> span_ok(#[trigger] f.macro_defs@[j], n as int),
        decreases f.macro_defs@.len() - m,
    {
        if !span_ok_exec(f.macro_defs[m], n) {
            return false;
        }
        m += 1;
    }
    let mut t: usize = 0;
    while t < f.timeunits.len()
        invariant
            t <= f.timeunits@.len(),
            n == f.source@.len(),
            forall|j: int| 0 <= j < f.decls@.len() ==> (#[trigger] f.decls@[j]).wf(n as int),
            forall|j: int|
                0 <= j < f.global_imports@.len() ==> (#[trigger] f.global_imports@[j]).wf(n as int),
            forall|j: int| 0 <= j < f.macro_defs@.len() ==> span_ok(
                #[trigger] f.macro_defs@[j],
                n as int,
            ),
            forall|j: int| 0 <= j < t ==> span_ok(#[trigger] f.timeunits@[j], n as int),
        decreases f.timeunits@.len() - t,
    {
        if !span_ok_exec(f.timeunits[t], n) {
            return false;
        }
        t += 1;
    }
    true
}

} // verus!
