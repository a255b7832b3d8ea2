//! The pickle orchestrator: declaration and usage tables, the dependency
//! graph over their names, reachability pruning, the rewrite plan, and the
//! emitters.

use vstd::prelude::*;

use crate::bytes::{bytes_eq, name_in, push_all};
use crate::edit::{edits_view, table_disjoint, Edit, EditModel};
use crate::graph::DepGraph;
use crate::source::{span_ok, DeclRecord, ParsedFile, SVConstructType, UsageRecord};
use crate::{PickleError, Span};

verus! {

/// One registered top-level declaration: its name, kind, and where its
/// record stands.
pub struct Declaration {
    pub name: Vec<u8>,
    pub kind: SVConstructType,
    pub file_id: usize,
    pub decl_idx: usize,
}

/// The mathematical value of a [`Declaration`].
#[verifier::ext_equal]
pub ghost struct DeclModel {
    pub name: Seq<u8>,
    pub kind: SVConstructType,
    pub file_id: int,
    pub decl_idx: int,
}

impl View for Declaration {
    type V = DeclModel;

    open spec fn view(&self) -> DeclModel {
        DeclModel {
            name: self.name@,
            kind: self.kind,
            file_id: self.file_id as int,
            decl_idx: self.decl_idx as int,
        }
    }
}

/// One registered textual occurrence of a name.
pub struct UsageEntry {
    pub name: Vec<u8>,
    pub kind: SVConstructType,
    pub file_id: usize,
    pub token: Span,
}

/// The mathematical value of a [`UsageEntry`].
#[verifier::ext_equal]
pub ghost struct UsageModel {
    pub name: Seq<u8>,
    pub kind: SVConstructType,
    pub file_id: int,
    pub offset: int,
    pub len: int,
}

impl View for UsageEntry {
    type V = UsageModel;

    open spec fn view(&self) -> UsageModel {
        UsageModel {
            name: self.name@,
            kind: self.kind,
            file_id: self.file_id as int,
            offset: self.token.offset as int,
            len: self.token.len as int,
        }
    }
}

/// A name whose declared kind differs from the kind a usage implies.
/// Reported, never fatal.
pub struct KindMismatch {
    pub name: Vec<u8>,
    pub declared: SVConstructType,
    pub used: SVConstructType,
}

/// The library map: file basenames stand for the module they declare.
pub struct LibraryBundle {
    pub include_dirs: Vec<Vec<u8>>,
    pub defines: Vec<(Vec<u8>, Option<Vec<u8>>)>,
    /// Pairs of module name and file path.
    pub files: Vec<(Vec<u8>, Vec<u8>)>,
}

/// A group of source files sharing include paths and defines.
pub struct FileBundle {
    pub include_dirs: Vec<Vec<u8>>,
    pub export_incdirs: Vec<(Vec<u8>, Vec<Vec<u8>>)>,
    pub defines: Vec<(Vec<u8>, Option<Vec<u8>>)>,
    pub files: Vec<Vec<u8>>,
}

/// The output manifest: the surviving bundles, the top names, and the
/// referenced names that no declaration defines.
pub struct Manifest {
    pub sources: Vec<FileBundle>,
    pub tops: Vec<Vec<u8>>,
    pub undefined: Vec<Vec<u8>>,
}

/// The mathematical value of a [`FileBundle`].
#[verifier::ext_equal]
pub ghost struct BundleModel {
    pub include_dirs: Seq<Seq<u8>>,
    pub export_incdirs: Seq<(Seq<u8>, Seq<Seq<u8>>)>,
    pub defines: Seq<(Seq<u8>, Option<Seq<u8>>)>,
    pub files: Seq<Seq<u8>>,
}

/// The byte sequences of a name list.
pub open spec fn names_model(s: Seq<Vec<u8>>) -> Seq<Seq<u8>> {
    s.map_values(|v: Vec<u8>| v@)
}

/// The byte sequences of an exported-include-directory list.
pub open spec fn exports_model(s: Seq<(Vec<u8>, Vec<Vec<u8>>)>) -> Seq<(Seq<u8>, Seq<Seq<u8>>)> {
    s.map_values(|p: (Vec<u8>, Vec<Vec<u8>>)| (p.0@, names_model(p.1@)))
}

impl View for FileBundle {
    type V = BundleModel;

    open spec fn view(&self) -> BundleModel {
        BundleModel {
            include_dirs: names_model(self.include_dirs@),
            export_incdirs: exports_model(self.export_incdirs@),
            defines: defines_model(self.defines@),
            files: names_model(self.files@),
        }
    }
}

/// The views of a bundle list.
pub open spec fn bundles_view(s: Seq<FileBundle>) -> Seq<BundleModel> {
    s.map_values(|b: FileBundle| b@)
}

/// The name `x` occurs in the library map.
pub open spec fn lib_has(files: Seq<(Vec<u8>, Vec<u8>)>, x: Seq<u8>) -> bool {
    exists|i: int| 0 <= i < files.len() && (#[trigger] files[i]).0@ == x
}

/// The declaration models of one file's records.
pub open spec fn decls_of_file(f: ParsedFile, i: int) -> Seq<DeclModel> {
    Seq::new(
        f.decls@.len(),
        |j: int|
            DeclModel {
                name: f.decls@[j].name@,
                kind: f.decls@[j].kind,
                file_id: i,
                decl_idx: j,
            },
    )
}

/// The declaration models of a file list, numbered from `base`.
pub open spec fn decls_of(files: Seq<ParsedFile>, base: int) -> Seq<DeclModel>
    decreases files.len(),
{
    if files.len() == 0 {
        Seq::empty()
    } else {
        decls_of(files.drop_last(), base) + decls_of_file(files.last(), base + files.len() - 1)
    }
}

/// All names of `s` are distinct.
pub open spec fn decl_names_unique(s: Seq<DeclModel>) -> bool {
    forall|i: int, j: int| 0 <= i < j < s.len() ==> (#[trigger] s[i]).name != (#[trigger] s[j]).name
}

/// The view of a declaration table.
pub open spec fn decls_view(s: Seq<Declaration>) -> Seq<DeclModel> {
    s.map_values(|d: Declaration| d@)
}

/// The view of a usage table.
pub open spec fn usages_view(s: Seq<UsageEntry>) -> Seq<UsageModel> {
    s.map_values(|u: UsageEntry| u@)
}

/// `x` is the name of a declaration of the table.
pub open spec fn declared_in(s: Seq<DeclModel>, x: Seq<u8>) -> bool {
    exists|i: int| 0 <= i < s.len() && (#[trigger] s[i]).name == x
}

/// `d` points at its own record in `files`.
pub open spec fn decl_entry_ok(d: DeclModel, files: Seq<ParsedFile>) -> bool {
    &&& 0 <= d.file_id < files.len()
    &&& 0 <= d.decl_idx < files[d.file_id].decls@.len()
    &&& files[d.file_id].decls@[d.decl_idx].name@ == d.name
    &&& files[d.file_id].decls@[d.decl_idx].kind == d.kind
}

/// `u` lies within its file.
pub open spec fn usage_entry_ok(u: UsageModel, files: Seq<ParsedFile>) -> bool {
    &&& 0 <= u.file_id < files.len()
    &&& u.len >= 1
    &&& u.offset >= 0
    &&& u.offset + u.len <= files[u.file_id].source@.len()
}

/// The usage entries whose name is a node of `g`, in table order.
pub open spec fn kept_usage_entries(us: Seq<UsageModel>, g: DepGraph) -> Seq<UsageModel>
    decreases us.len(),
{
    if us.len() == 0 {
        Seq::empty()
    } else {
        kept_usage_entries(us.drop_last(), g) + if g.has_node(us.last().name) {
            seq![us.last()]
        } else {
            Seq::<UsageModel>::empty()
        }
    }
}

/// An edit of the plan lies within its file and replaces at least one byte.
pub open spec fn edit_ok(e: EditModel, files: Seq<ParsedFile>) -> bool {
    &&& 0 <= e.file_id < files.len()
    &&& e.len >= 1
    &&& e.offset >= 0
    &&& e.offset + e.len <= files[e.file_id].source@.len()
}

/// File `i` of `files` holds an edge from declaration `x` to used name `y`:
/// a declaration named `x` whose body uses `y`, or — for a file-global
/// package import of `y` — any declaration `x` of that file.
pub open spec fn edge_in_file(f: ParsedFile, x: Seq<u8>, y: Seq<u8>) -> bool {
    exists|j: int|
        0 <= j < f.decls@.len() && (#[trigger] f.decls@[j]).name@ == x && (exists|k: int|
            0 <= k < f.decls@[j].usages@.len() && (#[trigger] f.decls@[j].usages@[k]).name@ == y)
}

/// As [`edge_in_file`], for the file-global package imports.
pub open spec fn global_edge_in_file(f: ParsedFile, x: Seq<u8>, y: Seq<u8>) -> bool {
    (exists|j: int| 0 <= j < f.decls@.len() && (#[trigger] f.decls@[j]).name@ == x) && (exists|
        k: int,
    |
        0 <= k < f.global_imports@.len() && (#[trigger] f.global_imports@[k]).name@ == y)
}

/// Some file of `files` holds an edge from `x` to `y`.
pub open spec fn edge_in_files(files: Seq<ParsedFile>, x: Seq<u8>, y: Seq<u8>) -> bool {
    exists|i: int|
        0 <= i < files.len() && (edge_in_file(#[trigger] files[i], x, y) || global_edge_in_file(
            files[i],
            x,
            y,
        ))
}

/// A name used or imported somewhere in `files`.
pub open spec fn used_in_files(files: Seq<ParsedFile>, y: Seq<u8>) -> bool {
    exists|i: int|
        0 <= i < files.len() && ((exists|j: int, k: int|
            0 <= j < (#[trigger] files[i]).decls@.len() && 0 <= k
                < files[i].decls@[j].usages@.len() && (#[trigger] files[i].decls@[j].usages@[k]).name@
                == y) || (exists|k: int|
            0 <= k < files[i].global_imports@.len()
                && (#[trigger] files[i].global_imports@[k]).name@ == y))
}

/// A name declared somewhere in `files`.
pub open spec fn declared_in_files(files: Seq<ParsedFile>, x: Seq<u8>) -> bool {
    exists|i: int, j: int|
        0 <= i < files.len() && 0 <= j < (#[trigger] files[i]).decls@.len()
            && (#[trigger] files[i].decls@[j]).name@ == x
}

/// A name used or imported somewhere in the one file `f`.
pub open spec fn used_in_file(f: ParsedFile, y: Seq<u8>) -> bool {
    (exists|j: int, k: int|
        0 <= j < f.decls@.len() && 0 <= k < (#[trigger] f.decls@[j]).usages@.len() && (
        #[trigger] f.decls@[j].usages@[k]).name@ == y) || (exists|k: int|
        0 <= k < f.global_imports@.len() && (#[trigger] f.global_imports@[k]).name@ == y)
}

/// The usage models of the file-global package imports of `f`.
pub open spec fn gi_models(f: ParsedFile, i: int) -> Seq<UsageModel> {
    Seq::new(
        f.global_imports@.len(),
        |k: int|
            UsageModel {
                name: f.global_imports@[k].name@,
                kind: f.global_imports@[k].kind,
                file_id: i,
                offset: f.global_imports@[k].token.offset as int,
                len: f.global_imports@[k].token.len as int,
            },
    )
}

/// The usage models of the references inside one declaration.
pub open spec fn usage_models_of_decl(d: DeclRecord, i: int) -> Seq<UsageModel> {
    Seq::new(
        d.usages@.len(),
        |k: int|
            UsageModel {
                name: d.usages@[k].name@,
                kind: d.usages@[k].kind,
                file_id: i,
                offset: d.usages@[k].token.offset as int,
                len: d.usages@[k].token.len as int,
            },
    )
}

/// The usage models of the references inside a declaration list.
pub open spec fn usage_models_of_decls(ds: Seq<DeclRecord>, i: int) -> Seq<UsageModel>
    decreases ds.len(),
{
    if ds.len() == 0 {
        Seq::empty()
    } else {
        usage_models_of_decls(ds.drop_last(), i) + usage_models_of_decl(ds.last(), i)
    }
}

/// The usage models of one file: its global imports first, then each
/// declaration's references in order.
pub open spec fn file_usage_models(f: ParsedFile, i: int) -> Seq<UsageModel> {
    gi_models(f, i) + usage_models_of_decls(f.decls@, i)
}

/// The usage models of a file list, numbered from `base`.
pub open spec fn usage_models(files: Seq<ParsedFile>, base: int) -> Seq<UsageModel>
    decreases files.len(),
{
    if files.len() == 0 {
        Seq::empty()
    } else {
        usage_models(files.drop_last(), base) + file_usage_models(
            files.last(),
            base + files.len() - 1,
        )
    }
}

/// The mathematical value of a [`KindMismatch`].
#[verifier::ext_equal]
pub ghost struct MismatchModel {
    pub name: Seq<u8>,
    pub declared: SVConstructType,
    pub used: SVConstructType,
}

impl View for KindMismatch {
    type V = MismatchModel;

    open spec fn view(&self) -> MismatchModel {
        MismatchModel { name: self.name@, declared: self.declared, used: self.used }
    }
}

/// The view of a mismatch list.
pub open spec fn mismatches_view(s: Seq<KindMismatch>) -> Seq<MismatchModel> {
    s.map_values(|m: KindMismatch| m@)
}

/// The declared kind of `x` in the table, if `x` is declared.
pub open spec fn declared_kind(table: Seq<DeclModel>, x: Seq<u8>) -> Option<SVConstructType>
    decreases table.len(),
{
    if table.len() == 0 {
        None
    } else if table.last().name == x {
        Some(table.last().kind)
    } else {
        declared_kind(table.drop_last(), x)
    }
}

/// Some reference or import of file `f` uses the name `y` with kind `k`.
pub open spec fn used_with_kind_in(f: ParsedFile, y: Seq<u8>, k: SVConstructType) -> bool {
    (exists|j: int, kk: int|
        0 <= j < f.decls@.len() && 0 <= kk < (#[trigger] f.decls@[j]).usages@.len() && (
        #[trigger] f.decls@[j].usages@[kk]).name@ == y && f.decls@[j].usages@[kk].kind == k) || (
    exists|kk: int|
        0 <= kk < f.global_imports@.len() && (#[trigger] f.global_imports@[kk]).name@ == y
            && f.global_imports@[kk].kind == k)
}

/// The mismatch is one the file really holds against the table.
pub open spec fn mismatch_real(m: MismatchModel, f: ParsedFile, table: Seq<DeclModel>) -> bool {
    &&& declared_kind(table, m.name) == Some(m.declared)
    &&& m.declared != m.used
    &&& used_with_kind_in(f, m.name, m.used)
}

/// The declaration `d` is named `x` and uses `y`.
pub open spec fn edge_in_decl(d: DeclRecord, x: Seq<u8>, y: Seq<u8>) -> bool {
    d.name@ == x && exists|k: int|
        0 <= k < d.usages@.len() && (#[trigger] d.usages@[k]).name@ == y
}

/// Some declaration of `ds` is named `x` and uses `y`.
pub open spec fn edge_in_decls(ds: Seq<DeclRecord>, x: Seq<u8>, y: Seq<u8>) -> bool {
    exists|j: int| 0 <= j < ds.len() && edge_in_decl(#[trigger] ds[j], x, y)
}

/// Some declaration of `ds` is named `x`, and `y` is a file-global import.
pub open spec fn gi_edge_decls(ds: Seq<DeclRecord>, f: ParsedFile, x: Seq<u8>, y: Seq<u8>) -> bool {
    (exists|j: int| 0 <= j < ds.len() && (#[trigger] ds[j]).name@ == x) && (exists|k: int|
        0 <= k < f.global_imports@.len() && (#[trigger] f.global_imports@[k]).name@ == y)
}

/// With unique names, any table position named `x` gives the declared kind.
proof fn lemma_declared_kind_unique(table: Seq<DeclModel>, k: int)
    requires
        decl_names_unique(table),
        0 <= k < table.len(),
    ensures
        declared_kind(table, table[k].name) == Some(table[k].kind),
    decreases table.len(),
{
    if k == table.len() - 1 {
    } else {
        assert(table.last().name != table[k].name);
        assert(table.drop_last()[k] == table[k]);
        lemma_declared_kind_unique(table.drop_last(), k);
    }
}

/// An undeclared name has no declared kind.
proof fn lemma_declared_kind_none(table: Seq<DeclModel>, x: Seq<u8>)
    requires
        !declared_in(table, x),
    ensures
        declared_kind(table, x) is None,
    decreases table.len(),
{
    if table.len() > 0 {
        assert(table.last().name != x) by {
            assert(table[table.len() - 1].name != x);
        }
        assert(!declared_in(table.drop_last(), x)) by {
            if declared_in(table.drop_last(), x) {
                let w = choose|w: int|
                    0 <= w < table.drop_last().len() && (#[trigger] table.drop_last()[w]).name
                        == x;
                assert(table[w].name == x);
            }
        }
        lemma_declared_kind_none(table.drop_last(), x);
    }
}


/// File `i`'s declaration `j` appears among the declaration models.
proof fn lemma_decls_of_covers(files: Seq<ParsedFile>, i: int, j: int)
    requires
        0 <= i < files.len(),
        0 <= j < files[i].decls@.len(),
    ensures
        exists|w: int|
            0 <= w < decls_of(files, 0).len() && (#[trigger] decls_of(files, 0)[w]).name
                == files[i].decls@[j].name@,
    decreases files.len(),
{
    lemma_decls_of_covers_base(files, 0, i, j);
}

/// File `i`'s declaration `j` appears among the declaration models, for any
/// numbering base.
proof fn lemma_decls_of_covers_base(files: Seq<ParsedFile>, base: int, i: int, j: int)
    requires
        0 <= i < files.len(),
        0 <= j < files[i].decls@.len(),
    ensures
        exists|w: int|
            0 <= w < decls_of(files, base).len() && (#[trigger] decls_of(files, base)[w]).name
                == files[i].decls@[j].name@,
    decreases files.len(),
{
    let whole = decls_of(files, base);
    let pre = decls_of(files.drop_last(), base);
    if i == files.len() - 1 {
        let w = pre.len() + j;
        assert(whole[w] == decls_of_file(files.last(), base + files.len() - 1)[j]);
        assert(whole[w].name == files[i].decls@[j].name@);
    } else {
        assert(files.drop_last()[i] == files[i]);
        lemma_decls_of_covers_base(files.drop_last(), base, i, j);
        let w = choose|w: int|
            0 <= w < pre.len() && (#[trigger] pre[w]).name == files[i].decls@[j].name@;
        assert(whole[w] == pre[w]);
    }
}

/// The candidate edits may join the table: none collides with a planned
/// edit of the same file, nor with another candidate of the same file.
pub open spec fn can_add(table: Seq<EditModel>, cnd: Seq<EditModel>) -> bool {
    &&& forall|a: int, b: int|
        0 <= a < cnd.len() && 0 <= b < table.len() && (#[trigger] cnd[a]).file_id == (
        #[trigger] table[b]).file_id ==> cnd[a].disjoint(table[b])
    &&& forall|a: int, b: int|
        0 <= a < cnd.len() && 0 <= b < cnd.len() && a != b && (#[trigger] cnd[a]).file_id == (
        #[trigger] cnd[b]).file_id ==> cnd[a].disjoint(cnd[b])
}

/// Deletion edits for every text-macro definition of one file.
pub open spec fn macro_models_of_file(f: ParsedFile, i: int) -> Seq<EditModel> {
    Seq::new(
        f.macro_defs@.len(),
        |k: int|
            EditModel {
                file_id: i,
                offset: f.macro_defs@[k].offset as int,
                len: f.macro_defs@[k].len as int,
                text: Seq::empty(),
            },
    )
}

/// Deletion edits for every text-macro definition, file by file.
pub open spec fn macro_models(files: Seq<ParsedFile>) -> Seq<EditModel>
    decreases files.len(),
{
    if files.len() == 0 {
        Seq::empty()
    } else {
        macro_models(files.drop_last()) + macro_models_of_file(files.last(), files.len() - 1)
    }
}

/// Deletion edits for every timeunits declaration of one file.
pub open spec fn timeunit_models_of_file(f: ParsedFile, i: int) -> Seq<EditModel> {
    Seq::new(
        f.timeunits@.len(),
        |k: int|
            EditModel {
                file_id: i,
                offset: f.timeunits@[k].offset as int,
                len: f.timeunits@[k].len as int,
                text: Seq::empty(),
            },
    )
}

/// Deletion edits for every timeunits declaration, file by file.
pub open spec fn timeunit_models(files: Seq<ParsedFile>) -> Seq<EditModel>
    decreases files.len(),
{
    if files.len() == 0 {
        Seq::empty()
    } else {
        timeunit_models(files.drop_last()) + timeunit_models_of_file(
            files.last(),
            files.len() - 1,
        )
    }
}

/// `x` occurs in the name list.
pub open spec fn seq_name_in(l: Seq<Vec<u8>>, x: Seq<u8>) -> bool {
    name_in(l, x)
}

/// The renamed form of `name`: the prefix, the name, the suffix.
pub open spec fn wrapped_name(pb: Seq<u8>, name: Seq<u8>, sb: Seq<u8>) -> Seq<u8> {
    pb + name + sb
}

/// The rename edits of the usages of `nm`, in table order.
pub open spec fn usage_rename_models(us: Seq<UsageModel>, nm: Seq<u8>, txt: Seq<u8>) -> Seq<
    EditModel,
>
    decreases us.len(),
{
    if us.len() == 0 {
        Seq::empty()
    } else {
        usage_rename_models(us.drop_last(), nm, txt) + if us.last().name == nm {
            seq![
                EditModel {
                    file_id: us.last().file_id,
                    offset: us.last().offset,
                    len: us.last().len,
                    text: txt,
                },
            ]
        } else {
            Seq::<EditModel>::empty()
        }
    }
}

/// The rename edit at a declaration's own name token.
pub open spec fn ident_rename_model(
    d: DeclModel,
    files: Seq<ParsedFile>,
    txt: Seq<u8>,
) -> EditModel {
    EditModel {
        file_id: d.file_id,
        offset: files[d.file_id].decls@[d.decl_idx].ident.offset as int,
        len: files[d.file_id].decls@[d.decl_idx].ident.len as int,
        text: txt,
    }
}

/// The rename edits: for each declaration not excluded from renaming, one
/// edit at its name token and one at every usage of its name.
pub open spec fn rename_models(
    ds: Seq<DeclModel>,
    us: Seq<UsageModel>,
    files: Seq<ParsedFile>,
    pb: Seq<u8>,
    sb: Seq<u8>,
    excl: Seq<Vec<u8>>,
) -> Seq<EditModel>
    decreases ds.len(),
{
    if ds.len() == 0 {
        Seq::empty()
    } else {
        rename_models(ds.drop_last(), us, files, pb, sb, excl) + if seq_name_in(
            excl,
            ds.last().name,
        ) {
            Seq::<EditModel>::empty()
        } else {
            seq![ident_rename_model(ds.last(), files, wrapped_name(pb, ds.last().name, sb))]
                + usage_rename_models(us, ds.last().name, wrapped_name(pb, ds.last().name, sb))
        }
    }
}

/// `// Compiled by morty-`
pub open spec fn lit_banner_head() -> Seq<u8> {
    seq![
        47u8, 47u8, 32u8, 67u8, 111u8, 109u8, 112u8, 105u8, 108u8, 101u8, 100u8, 32u8, 98u8,
        121u8, 32u8, 109u8, 111u8, 114u8, 116u8, 121u8, 45u8,
    ]
}

/// ` / `
pub open spec fn lit_banner_sep() -> Seq<u8> {
    seq![32u8, 47u8, 32u8]
}

/// The banner line and the blank line after it.
pub open spec fn banner_model(version: Seq<u8>, ts: Seq<u8>) -> Seq<u8> {
    lit_banner_head() + version + lit_banner_sep() + ts + seq![10u8, 10u8]
}

/// `0.1.0`
pub open spec fn version_model() -> Seq<u8> {
    seq![48u8, 46u8, 49u8, 46u8, 48u8]
}

/// `s`, with a line end added if it does not end in one.
pub open spec fn with_newline(s: Seq<u8>) -> Seq<u8> {
    if s.len() > 0 && s[s.len() - 1] == 10u8 {
        s
    } else {
        s + seq![10u8]
    }
}

/// The chunks, one after the other.
pub open spec fn concat_chunks(cs: Seq<Seq<u8>>) -> Seq<u8>
    decreases cs.len(),
{
    if cs.len() == 0 {
        Seq::empty()
    } else {
        concat_chunks(cs.drop_last()) + cs.last()
    }
}

/// `out` is the window with the window's planned edits applied in offset
/// order.
pub open spec fn is_applied_window(
    table: Seq<EditModel>,
    src: Seq<u8>,
    fid: int,
    base: int,
    win_len: int,
    out: Seq<u8>,
) -> bool {
    exists|s: Seq<EditModel>|
        {
            &&& s.to_multiset() == crate::edit::window_edits(
                table,
                fid,
                base,
                base + win_len,
            ).to_multiset()
            &&& crate::edit::sorted_edits(s)
            &&& out == crate::edit::spec_apply(src, base, base + win_len, s)
        }
}

/// Each file's preprocessed text, a line end ensured, in input order.
pub open spec fn preprocess_concat(files: Seq<ParsedFile>) -> Seq<u8>
    decreases files.len(),
{
    if files.len() == 0 {
        Seq::empty()
    } else {
        preprocess_concat(files.drop_last()) + with_newline(files.last().source@)
    }
}

/// The port names of `ports` that `connected` does not hold, in order.
pub open spec fn remaining_ports(ports: Seq<Vec<u8>>, connected: Seq<Vec<u8>>) -> Seq<Seq<u8>>
    decreases ports.len(),
{
    if ports.len() == 0 {
        Seq::empty()
    } else {
        remaining_ports(ports.drop_last(), connected) + if !name_in(
            connected,
            ports.last()@,
        ) {
            seq![ports.last()@]
        } else {
            Seq::<Seq<u8>>::empty()
        }
    }
}

/// `.p(p)`
pub open spec fn port_item(p: Seq<u8>) -> Seq<u8> {
    seq![46u8] + p + seq![40u8] + p + seq![41u8]
}

/// `.p(p), .q(q), ...` for the given ports; empty when none remain.
pub open spec fn ports_text(rem: Seq<Seq<u8>>) -> Seq<u8>
    decreases rem.len(),
{
    if rem.len() == 0 {
        Seq::empty()
    } else if rem.len() == 1 {
        port_item(rem[0])
    } else {
        ports_text(rem.drop_last()) + seq![44u8, 32u8] + port_item(rem.last())
    }
}

/// The declaration of the table named `x`, if any.
pub open spec fn declared_model(table: Seq<DeclModel>, x: Seq<u8>) -> Option<DeclModel>
    decreases table.len(),
{
    if table.len() == 0 {
        None
    } else if table.last().name == x {
        Some(table.last())
    } else {
        declared_model(table.drop_last(), x)
    }
}

/// With unique names, any table position named `x` is the lookup's answer.
proof fn lemma_declared_lookup(table: Seq<DeclModel>, k: int, x: Seq<u8>)
    requires
        decl_names_unique(table),
        0 <= k < table.len(),
        table[k].name == x,
    ensures
        declared_model(table, x) == Some(table[k]),
    decreases table.len(),
{
    if k == table.len() - 1 {
    } else {
        assert(table.last().name != x);
        assert(table.drop_last()[k] == table[k]);
        lemma_declared_lookup(table.drop_last(), k, x);
    }
}

/// The replacement edit for one `.*` wildcard: the declared ports of the
/// instantiated module that are not already connected, in declaration
/// order.
pub open spec fn dot_star_model_of_inst(
    r: crate::source::InstRecord,
    i: int,
    files: Seq<ParsedFile>,
    table: Seq<DeclModel>,
) -> EditModel {
    let text = match declared_model(table, r.target@) {
        Some(d) => ports_text(
            remaining_ports(files[d.file_id].decls@[d.decl_idx].ports@, r.connected@),
        ),
        None => Seq::<u8>::empty(),
    };
    EditModel {
        file_id: i,
        offset: r.dot_star.offset as int,
        len: r.dot_star.len as int,
        text: text,
    }
}

/// The wildcard edits of a list of instantiations.
pub open spec fn dot_star_models_of_insts(
    insts: Seq<crate::source::InstRecord>,
    i: int,
    files: Seq<ParsedFile>,
    table: Seq<DeclModel>,
) -> Seq<EditModel> {
    Seq::new(insts.len(), |k: int| dot_star_model_of_inst(insts[k], i, files, table))
}

/// The wildcard edits of a list of declarations.
pub open spec fn dot_star_models_of_decls(
    ds: Seq<DeclRecord>,
    i: int,
    files: Seq<ParsedFile>,
    table: Seq<DeclModel>,
) -> Seq<EditModel>
    decreases ds.len(),
{
    if ds.len() == 0 {
        Seq::empty()
    } else {
        dot_star_models_of_decls(ds.drop_last(), i, files, table) + dot_star_models_of_insts(
            ds.last().insts@,
            i,
            files,
            table,
        )
    }
}

/// The wildcard edits of the first `upto` files.
pub open spec fn dot_star_models_upto(
    files: Seq<ParsedFile>,
    upto: int,
    table: Seq<DeclModel>,
) -> Seq<EditModel>
    decreases upto,
{
    if upto <= 0 {
        Seq::empty()
    } else {
        dot_star_models_upto(files, upto - 1, table) + dot_star_models_of_decls(
            files[upto - 1].decls@,
            upto - 1,
            files,
            table,
        )
    }
}

/// The wildcard edits of every file.
pub open spec fn dot_star_models(files: Seq<ParsedFile>, table: Seq<DeclModel>) -> Seq<EditModel> {
    dot_star_models_upto(files, files.len() as int, table)
}

/// The pickle: source files, tables, graph, and the rewrite plan.
pub struct Pickle {
    /// All indexed files, input files first, resolved library files after.
    pub all_files: Vec<ParsedFile>,
    /// The library map, once attached.
    pub libs: Option<LibraryBundle>,
    /// Paths of library files handed out for parsing.
    pub used_libs: Vec<Vec<u8>>,
    /// Names already handed to the library resolver.
    pub lib_attempted: Vec<Vec<u8>>,
    /// The dependency graph over names.
    pub module_graph: DepGraph,
    /// All registered declarations; names unique.
    pub declarations: Vec<Declaration>,
    /// All registered usages.
    pub usages: Vec<UsageEntry>,
    /// The rewrite plan; same-file edits never overlap.
    pub replace_table: Vec<Edit>,
    /// Declared/used kind mismatches found while registering usages.
    pub mismatches: Vec<KindMismatch>,
}

/// `c` is file `i`'s classic emission: the file with its edits applied
/// and a line end ensured.
pub open spec fn classic_chunk_ok(p: Pickle, i: int, c: Seq<u8>) -> bool {
    exists|body: Seq<u8>|
        is_applied_window(
            edits_view(p.replace_table@),
            p.all_files@[i].source@,
            i,
            0,
            p.all_files@[i].source@.len() as int,
            body,
        ) && c == with_newline(body)
}

/// `ord` lists exactly the live declared slots, each once, every edge
/// target before its source.
pub open spec fn emission_order_ok(p: Pickle, ord: Seq<usize>) -> bool {
    &&& ord.no_duplicates()
    &&& forall|k: int|
        0 <= k < ord.len() ==> p.module_graph.node_alive((#[trigger] ord[k]) as int)
            && declared_in(decls_view(p.declarations@), p.module_graph.names@[ord[k] as int]@)
    &&& forall|i: int|
        p.module_graph.node_alive(i) && declared_in(
            decls_view(p.declarations@),
            (#[trigger] p.module_graph.names@[i])@,
        ) ==> exists|k: int| 0 <= k < ord.len() && (#[trigger] ord[k]) as int == i
    &&& forall|k1: int, k2: int|
        0 <= k1 < ord.len() && 0 <= k2 < ord.len() && #[trigger] p.module_graph.has_edge(
            ord[k1] as int,
            ord[k2] as int,
        ) ==> k2 < k1
}

/// `c` is the topological emission of the declaration at `slot`: its
/// header range with that range's edits applied and a line end ensured.
pub open spec fn pickle_chunk_ok(p: Pickle, slot: int, c: Seq<u8>) -> bool {
    exists|di: int|
        0 <= di < decls_view(p.declarations@).len() && (#[trigger] decls_view(
            p.declarations@,
        )[di]).name == p.module_graph.names@[slot]@ && (exists|body: Seq<u8>|
            is_applied_window(
                edits_view(p.replace_table@),
                p.all_files@[decls_view(p.declarations@)[di].file_id].source@,
                decls_view(p.declarations@)[di].file_id,
                p.all_files@[decls_view(p.declarations@)[di].file_id].decls@[decls_view(
                    p.declarations@,
                )[di].decl_idx].header.offset as int,
                p.all_files@[decls_view(p.declarations@)[di].file_id].decls@[decls_view(
                    p.declarations@,
                )[di].decl_idx].header.len as int,
                body,
            ) && c == with_newline(body))
}

/// An edit begins inside the header range of the declaration at table
/// position `di` but ends past it.
pub open spec fn straddling_decl(p: Pickle, di: int) -> bool {
    let d = decls_view(p.declarations@)[di];
    let hd = p.all_files@[d.file_id].decls@[d.decl_idx].header;
    exists|w: int|
        0 <= w < crate::edit::window_edits(
            edits_view(p.replace_table@),
            d.file_id,
            hd.offset as int,
            hd.offset + hd.len,
        ).len() && (#[trigger] crate::edit::window_edits(
            edits_view(p.replace_table@),
            d.file_id,
            hd.offset as int,
            hd.offset + hd.len,
        )[w]).end() > hd.offset + hd.len
}

/// `digraph {` and a line end.
pub open spec fn lit_digraph_open() -> Seq<u8> {
    seq![100u8, 105u8, 103u8, 114u8, 97u8, 112u8, 104u8, 32u8, 123u8, 10u8]
}

/// The DOT line of the live node in slot `i`.
pub open spec fn dot_node_line(g: DepGraph, i: int) -> Seq<u8> {
    seq![32u8, 32u8, 32u8, 32u8] + crate::bytes::dec_bytes(i) + seq![
        32u8, 91u8, 32u8, 108u8, 97u8, 98u8, 101u8, 108u8, 32u8, 61u8, 32u8, 34u8,
    ] + g.names@[i]@ + seq![34u8, 32u8, 93u8, 10u8]
}

/// The DOT lines of the live nodes among the first `upto` slots.
pub open spec fn dot_node_lines(g: DepGraph, upto: int) -> Seq<u8>
    decreases upto,
{
    if upto <= 0 {
        Seq::empty()
    } else {
        dot_node_lines(g, upto - 1) + if g.alive@[upto - 1] {
            dot_node_line(g, upto - 1)
        } else {
            Seq::<u8>::empty()
        }
    }
}

/// The DOT line of edge `k`.
pub open spec fn dot_edge_line(g: DepGraph, k: int) -> Seq<u8> {
    seq![32u8, 32u8, 32u8, 32u8] + crate::bytes::dec_bytes(g.edges@[k].0 as int) + seq![
        32u8, 45u8, 62u8, 32u8,
    ] + crate::bytes::dec_bytes(g.edges@[k].1 as int) + seq![32u8, 91u8, 32u8, 93u8, 10u8]
}

/// The DOT lines of the first `upto` edges.
pub open spec fn dot_edge_lines(g: DepGraph, upto: int) -> Seq<u8>
    decreases upto,
{
    if upto <= 0 {
        Seq::empty()
    } else {
        dot_edge_lines(g, upto - 1) + dot_edge_line(g, upto - 1)
    }
}

/// The whole DOT rendering of the graph.
pub open spec fn dot_model(g: DepGraph) -> Seq<u8> {
    lit_digraph_open() + dot_node_lines(g, g.n()) + dot_edge_lines(g, g.edges@.len() as int)
        + seq![125u8, 10u8]
}

/// Some declaration still stands in the file read from `path`.
pub open spec fn needed_path(p: Pickle, path: Seq<u8>) -> bool {
    exists|k: int|
        0 <= k < p.declarations@.len() && p.all_files@[(#[trigger] p.declarations@[k])@.file_id].path@
            == path
}

/// The file survives manifest filtering: kept as is without a top, kept
/// only when a declaration survives in it with one.
pub open spec fn file_kept(p: Pickle, top_given: bool, f: Seq<u8>) -> bool {
    !top_given || needed_path(p, f)
}

/// The files of a bundle that survive manifest filtering, in order.
pub open spec fn kept_files_model(p: Pickle, top_given: bool, files: Seq<Vec<u8>>) -> Seq<Seq<u8>>
    decreases files.len(),
{
    if files.len() == 0 {
        Seq::empty()
    } else {
        kept_files_model(p, top_given, files.drop_last()) + if file_kept(
            p,
            top_given,
            files.last()@,
        ) {
            seq![files.last()@]
        } else {
            Seq::<Seq<u8>>::empty()
        }
    }
}

/// The bundle shares the given include paths and defines, so its files
/// merge into the base bundle.
pub open spec fn bundle_matches(
    b: FileBundle,
    incdirs: Seq<Seq<u8>>,
    defs: Seq<(Seq<u8>, Option<Seq<u8>>)>,
) -> bool {
    names_model(b.include_dirs@) == incdirs && defines_model(b.defines@) == defs
}

/// The surviving non-matching bundles, in input order, each with only its
/// kept files; a bundle left without files is dropped.
pub open spec fn rest_bundles_model(
    p: Pickle,
    bs: Seq<FileBundle>,
    incdirs: Seq<Seq<u8>>,
    defs: Seq<(Seq<u8>, Option<Seq<u8>>)>,
    top_given: bool,
) -> Seq<BundleModel>
    decreases bs.len(),
{
    if bs.len() == 0 {
        Seq::empty()
    } else {
        (if bundle_matches(bs[0], incdirs, defs) {
            Seq::<BundleModel>::empty()
        } else {
            let kf = kept_files_model(p, top_given, bs[0].files@);
            if kf.len() > 0 {
                seq![
                    BundleModel {
                        include_dirs: names_model(bs[0].include_dirs@),
                        export_incdirs: exports_model(bs[0].export_incdirs@),
                        defines: defines_model(bs[0].defines@),
                        files: kf,
                    },
                ]
            } else {
                Seq::<BundleModel>::empty()
            }
        }) + rest_bundles_model(p, bs.drop_first(), incdirs, defs, top_given)
    }
}

/// The kept files of the matching bundles, in input order.
pub open spec fn base_files_model(
    p: Pickle,
    bs: Seq<FileBundle>,
    incdirs: Seq<Seq<u8>>,
    defs: Seq<(Seq<u8>, Option<Seq<u8>>)>,
    top_given: bool,
) -> Seq<Seq<u8>>
    decreases bs.len(),
{
    if bs.len() == 0 {
        Seq::empty()
    } else {
        (if bundle_matches(bs[0], incdirs, defs) {
            kept_files_model(p, top_given, bs[0].files@)
        } else {
            Seq::<Seq<u8>>::empty()
        }) + base_files_model(p, bs.drop_first(), incdirs, defs, top_given)
    }
}

/// The whole sources array: the surviving non-matching bundles, then — when
/// any file remains — one bundle with the given include paths and defines
/// holding the matching bundles' kept files and the resolved library paths.
pub open spec fn manifest_sources_model(
    p: Pickle,
    bs: Seq<FileBundle>,
    incdirs: Seq<Seq<u8>>,
    defs: Seq<(Seq<u8>, Option<Seq<u8>>)>,
    top_given: bool,
) -> Seq<BundleModel> {
    let base = base_files_model(p, bs, incdirs, defs, top_given) + names_model(p.used_libs@);
    rest_bundles_model(p, bs, incdirs, defs, top_given) + if base.len() > 0 {
        seq![
            BundleModel {
                include_dirs: incdirs,
                export_incdirs: Seq::empty(),
                defines: defs,
                files: base,
            },
        ]
    } else {
        Seq::<BundleModel>::empty()
    }
}

/// Whether two name lists hold the same byte strings in the same order.
fn names_list_eq(a: &Vec<Vec<u8>>, b: &Vec<Vec<u8>>) -> (r: bool)
    ensures
        r == (a@.map_values(|v: Vec<u8>| v@) == b@.map_values(|v: Vec<u8>| v@)),
{
    if a.len() != b.len() {
        proof {
            assert(a@.map_values(|v: Vec<u8>| v@).len() != b@.map_values(|v: Vec<u8>| v@).len());
        }
        return false;
    }
    let mut i: usize = 0;
    while i < a.len()
        invariant
            a@.len() == b@.len(),
            i <= a@.len(),
            forall|j: int| 0 <= j < i ==> (#[trigger] a@[j])@ == b@[j]@,
        decreases a@.len() - i,
    {
        if !bytes_eq(&a[i], &b[i]) {
            proof {
                assert(a@.map_values(|v: Vec<u8>| v@)[i as int] != b@.map_values(
                    |v: Vec<u8>| v@,
                )[i as int]);
            }
            return false;
        }
        i += 1;
    }
    proof {
        assert(a@.map_values(|v: Vec<u8>| v@) =~= b@.map_values(|v: Vec<u8>| v@));
    }
    true
}

/// The defines' mathematical value: names with optional texts.
pub open spec fn defines_model(d: Seq<(Vec<u8>, Option<Vec<u8>>)>) -> Seq<
    (Seq<u8>, Option<Seq<u8>>),
> {
    d.map_values(
        |p: (Vec<u8>, Option<Vec<u8>>)|
            (
                p.0@,
                match p.1 {
                    Some(v) => Some(v@),
                    None => None,
                },
            ),
    )
}

/// Whether two define lists are the same, name for name and text for text.
fn defines_eq(a: &Vec<(Vec<u8>, Option<Vec<u8>>)>, b: &Vec<(Vec<u8>, Option<Vec<u8>>)>) -> (r:
    bool)
    ensures
        r == (defines_model(a@) == defines_model(b@)),
{
    if a.len() != b.len() {
        proof {
            assert(defines_model(a@).len() != defines_model(b@).len());
        }
        return false;
    }
    let mut i: usize = 0;
    while i < a.len()
        invariant
            a@.len() == b@.len(),
            i <= a@.len(),
            forall|j: int| 0 <= j < i ==> defines_model(a@)[j] == defines_model(b@)[j],
        decreases a@.len() - i,
    {
        if !bytes_eq(&a[i].0, &b[i].0) {
            proof {
                assert(defines_model(a@)[i as int].0 != defines_model(b@)[i as int].0);
            }
            return false;
        }
        let same_text = match (&a[i].1, &b[i].1) {
            (Some(x), Some(y)) => bytes_eq(x, y),
            (None, None) => true,
            _ => false,
        };
        if !same_text {
            proof {
                assert(defines_model(a@)[i as int].1 != defines_model(b@)[i as int].1);
            }
            return false;
        }
        proof {
            assert(defines_model(a@)[i as int] == defines_model(b@)[i as int]);
        }
        i += 1;
    }
    proof {
        assert(defines_model(a@) =~= defines_model(b@));
    }
    true
}

/// The path the library map gives for `name`, if any.
fn lib_lookup(lb: &LibraryBundle, name: &Vec<u8>) -> (r: Option<Vec<u8>>)
    ensures
        match r {
            Some(p) => exists|w: int|
                0 <= w < lb.files@.len() && (#[trigger] lb.files@[w]).0@ == name@
                    && lb.files@[w].1@ == p@,
            None => !lib_has(lb.files@, name@),
        },
{
    let mut w: usize = 0;
    while w < lb.files.len()
        invariant
            w <= lb.files@.len(),
            forall|w2: int| 0 <= w2 < w ==> (#[trigger] lb.files@[w2]).0@ != name@,
        decreases lb.files@.len() - w,
    {
        if bytes_eq(&lb.files[w].0, name) {
            let mut p: Vec<u8> = Vec::new();
            push_all(&mut p, &lb.files[w].1);
            return Some(p);
        }
        w += 1;
    }
    None
}

impl Pickle {
    /// The whole-state invariant: tables point at real records, names of
    /// declarations are unique and are graph nodes, and the plan's edits
    /// stay within their file and never overlap.
    pub open spec fn wf(self) -> bool {
        &&& self.module_graph.wf()
        &&& forall|i: int| 0 <= i < self.all_files@.len() ==> (#[trigger] self.all_files@[i]).wf()
        &&& forall|k: int|
            0 <= k < self.declarations@.len() ==> decl_entry_ok(
                (#[trigger] self.declarations@[k])@,
                self.all_files@,
            )
        &&& decl_names_unique(decls_view(self.declarations@))
        &&& forall|k: int|
            0 <= k < self.declarations@.len() ==> self.module_graph.has_node(
                (#[trigger] self.declarations@[k])@.name,
            )
        &&& forall|k: int|
            0 <= k < self.usages@.len() ==> usage_entry_ok(
                (#[trigger] self.usages@[k])@,
                self.all_files@,
            ) && self.module_graph.has_node(self.usages@[k]@.name)
        &&& forall|k: int|
            0 <= k < self.replace_table@.len() ==> edit_ok(
                (#[trigger] self.replace_table@[k])@,
                self.all_files@,
            )
        &&& table_disjoint(edits_view(self.replace_table@))
        &&& self.lib_attempted@.map_values(|v: Vec<u8>| v@).no_duplicates()
        &&& (self.libs is None ==> self.lib_attempted@.len() == 0)
        &&& forall|k: int|
            0 <= k < self.lib_attempted@.len() ==> lib_has(
                self.libs.unwrap().files@,
                (#[trigger] self.lib_attempted@[k])@,
            )
    }

    /// An empty pickle.
    pub open spec fn is_init(self) -> bool {
        &&& self.all_files@.len() == 0
        &&& self.libs is None
        &&& self.used_libs@.len() == 0
        &&& self.lib_attempted@.len() == 0
        &&& self.module_graph.n() == 0
        &&& self.module_graph.edges@.len() == 0
        &&& self.declarations@.len() == 0
        &&& self.usages@.len() == 0
        &&& self.replace_table@.len() == 0
        &&& self.mismatches@.len() == 0
    }

    pub fn new() -> (p: Pickle)
        ensures
            p.wf(),
            p.is_init(),
    {
        Pickle {
            all_files: Vec::new(),
            libs: None,
            used_libs: Vec::new(),
            lib_attempted: Vec::new(),
            module_graph: DepGraph::new(),
            declarations: Vec::new(),
            usages: Vec::new(),
            replace_table: Vec::new(),
            mismatches: Vec::new(),
        }
    }

    /// Take over a batch of indexed files, appended after those already
    /// held.
    pub fn add_files(&mut self, files: Vec<ParsedFile>)
        requires
            old(self).wf(),
            forall|i: int| 0 <= i < files@.len() ==> (#[trigger] files@[i]).wf(),
        ensures
            final(self).wf(),
            final(self).all_files@ == old(self).all_files@ + files@,
            final(self).libs == old(self).libs,
            final(self).used_libs == old(self).used_libs,
            final(self).lib_attempted == old(self).lib_attempted,
            final(self).module_graph == old(self).module_graph,
            final(self).declarations == old(self).declarations,
            final(self).usages == old(self).usages,
            final(self).replace_table == old(self).replace_table,
            final(self).mismatches == old(self).mismatches,
    {
        let ghost incoming = files@;
        let mut files = files;
        self.all_files.append(&mut files);
        proof {
            assert(self.all_files@ == old(self).all_files@ + incoming);
            assert forall|i: int|
                0 <= i < self.all_files@.len() implies (#[trigger] self.all_files@[i]).wf() by {
                if i < old(self).all_files@.len() {
                    assert(self.all_files@[i] == old(self).all_files@[i]);
                } else {
                    assert(self.all_files@[i] == incoming[i - old(self).all_files@.len()]);
                }
            }
            assert forall|k: int|
                0 <= k < self.declarations@.len() implies decl_entry_ok(
                (#[trigger] self.declarations@[k])@,
                self.all_files@,
            ) by {
                assert(decl_entry_ok(self.declarations@[k]@, old(self).all_files@));
            }
            assert forall|k: int|
                0 <= k < self.usages@.len() implies usage_entry_ok(
                (#[trigger] self.usages@[k])@,
                self.all_files@,
            ) by {
                assert(usage_entry_ok(self.usages@[k]@, old(self).all_files@));
            }
            assert forall|k: int|
                0 <= k < self.replace_table@.len() implies edit_ok(
                (#[trigger] self.replace_table@[k])@,
                self.all_files@,
            ) by {
                assert(edit_ok(self.replace_table@[k]@, old(self).all_files@));
            }
            assert forall|k: int|
                0 <= k < self.lib_attempted@.len() implies lib_has(
                self.libs.unwrap().files@,
                (#[trigger] self.lib_attempted@[k])@,
            ) by {
                assert(self.lib_attempted@[k]@ == (#[trigger] old(self).lib_attempted@[k])@);
                assert(self.libs == old(self).libs);
            }
        }
    }

    /// The position of the declaration named `name` in the table.
    pub fn lookup_decl(&self, name: &Vec<u8>) -> (r: Option<usize>)
        requires
            self.wf(),
        ensures
            match r {
                Some(k) => k < self.declarations@.len() && self.declarations@[k as int]@.name
                    == name@,
                None => !declared_in(decls_view(self.declarations@), name@),
            },
    {
        let mut k: usize = 0;
        while k < self.declarations.len()
            invariant
                k <= self.declarations@.len(),
                forall|l: int| 0 <= l < k ==> (#[trigger] self.declarations@[l])@.name != name@,
            decreases self.declarations@.len() - k,
        {
            if bytes_eq(&self.declarations[k].name, name) {
                return Some(k);
            }
            k += 1;
        }
        proof {
            assert forall|l: int|
                0 <= l < decls_view(self.declarations@).len() implies (#[trigger] decls_view(
                self.declarations@,
            )[l]).name != name@ by {
                assert(self.declarations@[l]@.name != name@);
            }
        }
        None
    }

    /// Register the declarations of every held file: reject a name declared
    /// twice, give each declaration a graph node and a table entry.
    fn register_declarations(&mut self) -> (r: Result<(), PickleError>)
        requires
            old(self).wf(),
        ensures
            final(self).wf(),
            final(self).all_files == old(self).all_files,
            final(self).libs == old(self).libs,
            final(self).used_libs == old(self).used_libs,
            final(self).lib_attempted == old(self).lib_attempted,
            final(self).usages == old(self).usages,
            final(self).replace_table == old(self).replace_table,
            final(self).mismatches == old(self).mismatches,
            final(self).module_graph.edges@ == old(self).module_graph.edges@,
            forall|u: Seq<u8>, v: Seq<u8>|
                #![trigger final(self).module_graph.name_edge(u, v)]
                final(self).module_graph.name_edge(u, v) <==> old(self).module_graph.name_edge(
                    u,
                    v,
                ),
            ({
                let cand = decls_of(old(self).all_files@, 0);
                let combined = decls_view(old(self).declarations@) + cand;
                match r {
                    Ok(()) => {
                        &&& decl_names_unique(combined)
                        &&& decls_view(final(self).declarations@) == combined
                        &&& forall|x: Seq<u8>| #![trigger final(self).module_graph.has_node(x)]
                            final(self).module_graph.has_node(x) <==> old(
                                self,
                            ).module_graph.has_node(x) || declared_in(cand, x)
                    },
                    Err(e) => {
                        &&& !decl_names_unique(combined)
                        &&& (e matches PickleError::DuplicateDeclaration { name } && exists|
                            a: int,
                            b: int,
                        |
                            0 <= a < b < combined.len() && (#[trigger] combined[a]).name == (
                            #[trigger] combined[b]).name && combined[b].name == name@)
                        &&& *final(self) == *old(self)
                    },
                }
            }),
    {
        let ghost cand_spec = decls_of(old(self).all_files@, 0);
        let ghost combined = decls_view(old(self).declarations@) + cand_spec;
        // gather the candidate table entries, file by file
        let mut cand: Vec<Declaration> = Vec::new();
        let mut i: usize = 0;
        while i < self.all_files.len()
            invariant
                self == old(self),
                i <= self.all_files@.len(),
                cand_spec == decls_of(old(self).all_files@, 0),
                decls_view(cand@) == decls_of(self.all_files@.take(i as int), 0),
                forall|l: int|
                    0 <= l < cand@.len() ==> decl_entry_ok(
                        (#[trigger] cand@[l])@,
                        self.all_files@,
                    ),
            decreases self.all_files@.len() - i,
        {
            let ghost fprefix = self.all_files@.take(i as int);
            let ghost fnext = self.all_files@.take(i + 1);
            proof {
                assert(fnext.drop_last() =~= fprefix);
                assert(fnext.last() == self.all_files@[i as int]);
            }
            let mut j: usize = 0;
            while j < self.all_files[i].decls.len()
                invariant
                    self == old(self),
                    i < self.all_files@.len(),
                    j <= self.all_files@[i as int].decls@.len(),
                    fprefix == self.all_files@.take(i as int),
                    decls_view(cand@) == decls_of(fprefix, 0) + decls_of_file(
                        self.all_files@[i as int],
                        i as int,
                    ).take(j as int),
                    forall|l: int|
                        0 <= l < cand@.len() ==> decl_entry_ok(
                            (#[trigger] cand@[l])@,
                            self.all_files@,
                        ),
                decreases self.all_files@[i as int].decls@.len() - j,
            {
                let rec = &self.all_files[i].decls[j];
                let mut nm: Vec<u8> = Vec::new();
                push_all(&mut nm, &rec.name);
                let d = Declaration { name: nm, kind: rec.kind, file_id: i, decl_idx: j };
                proof {
                    assert(d@ =~= decls_of_file(self.all_files@[i as int], i as int)[j as int]);
                    assert(decl_entry_ok(d@, self.all_files@));
                }
                let ghost cpre = decls_view(cand@);
                cand.push(d);
                proof {
                    assert(decls_view(cand@) =~= cpre.push(
                        decls_of_file(self.all_files@[i as int], i as int)[j as int],
                    ));
                    assert(decls_view(cand@) =~= decls_of(fprefix, 0) + decls_of_file(
                        self.all_files@[i as int],
                        i as int,
                    ).take(j + 1));
                }
                j += 1;
            }
            proof {
                assert(decls_of_file(self.all_files@[i as int], i as int).take(
                    decls_of_file(self.all_files@[i as int], i as int).len() as int,
                ) =~= decls_of_file(self.all_files@[i as int], i as int));
                assert(decls_of(fnext, 0) == decls_of(fprefix, 0) + decls_of_file(
                    self.all_files@[i as int],
                    i as int,
                ));
            }
            i += 1;
        }
        proof {
            assert(self.all_files@.take(self.all_files@.len() as int) =~= self.all_files@);
            assert(decls_view(cand@) == cand_spec);
        }
        // reject any name declared twice
        let mut l: usize = 0;
        while l < cand.len()
            invariant
                self == old(self),
                self.wf(),
                l <= cand@.len(),
                cand_spec == decls_view(cand@),
                cand_spec == decls_of(old(self).all_files@, 0),
                combined == decls_view(old(self).declarations@) + cand_spec,
                forall|a: int, b: int|
                    0 <= a < self.declarations@.len() && 0 <= b < l ==> (
                    #[trigger] self.declarations@[a])@.name != (#[trigger] cand@[b])@.name,
                forall|a: int, b: int|
                    0 <= a < b < l ==> (#[trigger] cand@[a])@.name != (#[trigger] cand@[b])@.name,
            decreases cand@.len() - l,
        {
            let hit_table = self.lookup_decl(&cand[l].name);
            if let Some(_) = hit_table {
                let mut nm: Vec<u8> = Vec::new();
                push_all(&mut nm, &cand[l].name);
                proof {
                    let dn = decls_view(old(self).declarations@).len() as int;
                    let k = choose|k: int|
                        0 <= k < self.declarations@.len()
                            && (#[trigger] self.declarations@[k])@.name == cand@[l as int]@.name;
                    assert(combined[k].name == combined[dn + l].name);
                    assert(0 <= k < dn + l);
                    assert(combined[dn + l].name == nm@);
                    assert(!decl_names_unique(combined));
                }
                return Err(PickleError::DuplicateDeclaration { name: nm });
            }
            let mut b: usize = 0;
            while b < l
                invariant
                    self == old(self),
                    self.wf(),
                    l < cand@.len(),
                    b <= l,
                    cand_spec == decls_view(cand@),
                    cand_spec == decls_of(old(self).all_files@, 0),
                    combined == decls_view(old(self).declarations@) + decls_view(cand@),
                    forall|a: int| 0 <= a < b ==> (#[trigger] cand@[a])@.name != cand@[l as int]@.name,
                decreases l - b,
            {
                if bytes_eq(&cand[b].name, &cand[l].name) {
                    let mut nm: Vec<u8> = Vec::new();
                    push_all(&mut nm, &cand[l].name);
                    proof {
                        let dn = decls_view(old(self).declarations@).len() as int;
                        assert(combined[dn + b].name == combined[dn + l].name);
                        assert(0 <= dn + b);
                        assert(combined[dn + l].name == nm@);
                        assert(!decl_names_unique(combined));
                    }
                    return Err(PickleError::DuplicateDeclaration { name: nm });
                }
                b += 1;
            }
            proof {
                assert forall|a: int|
                    0 <= a < self.declarations@.len() implies (
                #[trigger] self.declarations@[a])@.name != cand@[l as int]@.name by {
                    if self.declarations@[a]@.name == cand@[l as int]@.name {
                        assert(decls_view(self.declarations@)[a].name == cand@[l as int]@.name);
                        assert(declared_in(decls_view(self.declarations@), cand@[l as int]@.name));
                    }
                }
            }
            l += 1;
        }
        proof {
            assert(decl_names_unique(combined)) by {
                assert forall|a: int, b: int|
                    0 <= a < b < combined.len() implies (#[trigger] combined[a]).name != (
                #[trigger] combined[b]).name by {
                    let dn = decls_view(old(self).declarations@).len() as int;
                    if b < dn {
                        assert(combined[a] == decls_view(old(self).declarations@)[a]);
                        assert(combined[b] == decls_view(old(self).declarations@)[b]);
                    } else if a < dn {
                        assert(combined[a] == decls_view(old(self).declarations@)[a]);
                        assert(combined[b] == decls_view(cand@)[b - dn]);
                        assert(self.declarations@[a]@.name != cand@[b - dn]@.name);
                    } else {
                        assert(combined[a] == decls_view(cand@)[a - dn]);
                        assert(combined[b] == decls_view(cand@)[b - dn]);
                        assert(cand@[a - dn]@.name != cand@[b - dn]@.name);
                    }
                }
            }
        }
        // register: a graph node and a table entry per declaration
        let mut rest = cand;
        while rest.len() > 0
            invariant
                self.all_files == old(self).all_files,
                self.libs == old(self).libs,
                self.used_libs == old(self).used_libs,
                self.lib_attempted == old(self).lib_attempted,
                self.usages == old(self).usages,
                self.replace_table == old(self).replace_table,
                self.mismatches == old(self).mismatches,
                self.module_graph.edges@ == old(self).module_graph.edges@,
                forall|u: Seq<u8>, v: Seq<u8>|
                    #![trigger self.module_graph.name_edge(u, v)]
                    self.module_graph.name_edge(u, v) <==> old(self).module_graph.name_edge(u, v),
                self.wf(),
                cand_spec == decls_of(old(self).all_files@, 0),
                combined == decls_view(old(self).declarations@) + cand_spec,
                decl_names_unique(combined),
                rest@.len() <= cand_spec.len(),
                decls_view(self.declarations@) + decls_view(rest@) == combined,
                forall|l2: int|
                    0 <= l2 < rest@.len() ==> decl_entry_ok(
                        (#[trigger] rest@[l2])@,
                        self.all_files@,
                    ),
                forall|x: Seq<u8>|
                    self.module_graph.has_node(x) <==> old(self).module_graph.has_node(x)
                        || declared_in(decls_view(self.declarations@).skip(
                        old(self).declarations@.len() as int,
                    ), x),
            decreases rest@.len(),
        {
            let ghost dv_pre = decls_view(self.declarations@);
            let ghost rv_pre = decls_view(rest@);
            let d = rest.remove(0);
            self.module_graph.ensure(&d.name);
            self.declarations.push(d);
            proof {
                assert(decls_view(rest@) =~= rv_pre.drop_first());
                assert(decls_view(self.declarations@) =~= dv_pre.push(rv_pre[0]));
                assert(decls_view(self.declarations@) + decls_view(rest@) =~= combined);
                let on = old(self).declarations@.len() as int;
                let reg = decls_view(self.declarations@).skip(on);
                assert(dv_pre.len() >= on);
                assert(decls_view(self.declarations@) =~= dv_pre.push(rv_pre[0]));
                assert(reg.len() == dv_pre.len() + 1 - on);
                assert(reg[dv_pre.len() - on] == decls_view(self.declarations@)[dv_pre.len() as int]);
                assert(reg[dv_pre.len() - on] == rv_pre[0]);
                assert forall|x: Seq<u8>|
                    self.module_graph.has_node(x) <==> old(self).module_graph.has_node(x)
                        || declared_in(reg, x) by {
                    if self.module_graph.has_node(x) {
                        if x == rv_pre[0].name {
                            assert((#[trigger] reg[dv_pre.len() - on]).name == x);
                            assert(declared_in(reg, x));
                        } else {
                            assert(declared_in(dv_pre.skip(on), x) ==> declared_in(reg, x)) by {
                                if declared_in(dv_pre.skip(on), x) {
                                    let w = choose|w: int|
                                        0 <= w < dv_pre.skip(on).len() && (#[trigger] dv_pre.skip(
                                            on,
                                        )[w]).name == x;
                                    assert(reg[w].name == x);
                                }
                            }
                        }
                    } else {
                    }
                    if declared_in(reg, x) {
                        let w = choose|w: int| 0 <= w < reg.len() && (#[trigger] reg[w]).name == x;
                        if w < dv_pre.skip(on).len() {
                            assert(dv_pre.skip(on)[w].name == x);
                            assert(declared_in(dv_pre.skip(on), x));
                        } else {
                            assert(x == rv_pre[0].name);
                        }
                    }
                }
                // the fresh entry points at its record and its name is a node
                assert(decl_entry_ok(rv_pre[0], self.all_files@));
                assert forall|k: int|
                    0 <= k < self.declarations@.len() implies decl_entry_ok(
                    (#[trigger] self.declarations@[k])@,
                    self.all_files@,
                ) && self.module_graph.has_node(self.declarations@[k]@.name) by {
                    if k < dv_pre.len() {
                        assert(self.declarations@[k]@ == dv_pre[k]);
                    } else {
                        assert(self.declarations@[k]@ == rv_pre[0]);
                        assert(declared_in(
                            decls_view(self.declarations@).skip(
                                old(self).declarations@.len() as int,
                            ),
                            rv_pre[0].name,
                        ));
                    }
                }
                assert forall|k: int|
                    0 <= k < self.usages@.len() implies usage_entry_ok(
                    (#[trigger] self.usages@[k])@,
                    self.all_files@,
                ) && self.module_graph.has_node(self.usages@[k]@.name) by {}
                assert(decl_names_unique(decls_view(self.declarations@))) by {
                    assert forall|a: int, b: int|
                        0 <= a < b < decls_view(self.declarations@).len() implies (
                    #[trigger] decls_view(self.declarations@)[a]).name != (#[trigger] decls_view(
                        self.declarations@,
                    )[b]).name by {
                        assert(decls_view(self.declarations@)[a] == combined[a]);
                        assert(decls_view(self.declarations@)[b] == combined[b]);
                    }
                }
            }
        }
        proof {
            assert(decls_view(rest@) =~= Seq::<DeclModel>::empty());
            assert(decls_view(self.declarations@) =~= combined);
            assert forall|x: Seq<u8>|
                final(self).module_graph.has_node(x) <==> old(self).module_graph.has_node(x)
                    || declared_in(cand_spec, x) by {
                let on = old(self).declarations@.len() as int;
                assert(decls_view(self.declarations@).skip(on) =~= cand_spec);
            }
        }
        Ok(())
    }

    /// Register the file-global package imports of file `i`: a usage entry
    /// and a graph node each, and a mismatch record where the declared kind
    /// is not the used kind.
    fn register_globals_file(&mut self, i: usize)
        requires
            old(self).wf(),
            i < old(self).all_files@.len(),
        ensures
            final(self).wf(),
            final(self).all_files == old(self).all_files,
            final(self).libs == old(self).libs,
            final(self).used_libs == old(self).used_libs,
            final(self).lib_attempted == old(self).lib_attempted,
            final(self).declarations == old(self).declarations,
            final(self).replace_table == old(self).replace_table,
            usages_view(final(self).usages@) == usages_view(old(self).usages@) + gi_models(
                old(self).all_files@[i as int],
                i as int,
            ),
            forall|x: Seq<u8>|
                final(self).module_graph.has_node(x) <==> old(self).module_graph.has_node(x) || (
                exists|k: int|
                    0 <= k < old(self).all_files@[i as int].global_imports@.len() && (
                    #[trigger] old(self).all_files@[i as int].global_imports@[k]).name@ == x),
            forall|u: Seq<u8>, v: Seq<u8>|
                final(self).module_graph.name_edge(u, v) <==> old(self).module_graph.name_edge(
                    u,
                    v,
                ),
            mismatches_view(old(self).mismatches@).is_prefix_of(
                mismatches_view(final(self).mismatches@),
            ),
            forall|l: int|
                old(self).mismatches@.len() <= l < final(self).mismatches@.len() ==> mismatch_real(
                    #[trigger] mismatches_view(final(self).mismatches@)[l],
                    old(self).all_files@[i as int],
                    decls_view(old(self).declarations@),
                ),
            forall|k: int|
                0 <= k < old(self).all_files@[i as int].global_imports@.len() && declared_kind(
                    decls_view(old(self).declarations@),
                    (#[trigger] old(self).all_files@[i as int].global_imports@[k]).name@,
                ) is Some && declared_kind(
                    decls_view(old(self).declarations@),
                    old(self).all_files@[i as int].global_imports@[k].name@,
                ).unwrap() != old(self).all_files@[i as int].global_imports@[k].kind ==> exists|
                l: int,
            |
                old(self).mismatches@.len() <= l < final(self).mismatches@.len()
                    && #[trigger] mismatches_view(final(self).mismatches@)[l] == (MismatchModel {
                    name: old(self).all_files@[i as int].global_imports@[k].name@,
                    declared: declared_kind(
                        decls_view(old(self).declarations@),
                        old(self).all_files@[i as int].global_imports@[k].name@,
                    ).unwrap(),
                    used: old(self).all_files@[i as int].global_imports@[k].kind,
                }),
    {
        let ghost f = old(self).all_files@[i as int];
        let ghost tv = decls_view(old(self).declarations@);
        let ghost g0 = old(self).module_graph;
        let ghost um0 = usages_view(old(self).usages@);
        let ghost mm0 = mismatches_view(old(self).mismatches@);
        let mut k: usize = 0;
        while k < self.all_files[i].global_imports.len()
            invariant
                self.wf(),
                self.all_files == old(self).all_files,
                self.libs == old(self).libs,
                self.used_libs == old(self).used_libs,
                self.lib_attempted == old(self).lib_attempted,
                self.declarations == old(self).declarations,
                self.replace_table == old(self).replace_table,
                i < self.all_files@.len(),
                f == self.all_files@[i as int],
                tv == decls_view(self.declarations@),
                g0 == old(self).module_graph,
                um0 == usages_view(old(self).usages@),
                mm0 == mismatches_view(old(self).mismatches@),
                k <= f.global_imports@.len(),
                usages_view(self.usages@) == um0 + gi_models(f, i as int).take(k as int),
                forall|x: Seq<u8>| #![trigger self.module_graph.has_node(x)]
                    self.module_graph.has_node(x) <==> g0.has_node(x) || (exists|k2: int|
                        0 <= k2 < k && (#[trigger] f.global_imports@[k2]).name@ == x),
                forall|u: Seq<u8>, v: Seq<u8>|
                    self.module_graph.name_edge(u, v) <==> g0.name_edge(u, v),
                mm0.is_prefix_of(mismatches_view(self.mismatches@)),
                forall|l: int|
                    mm0.len() <= l < self.mismatches@.len() ==> mismatch_real(
                        #[trigger] mismatches_view(self.mismatches@)[l],
                        f,
                        tv,
                    ),
                forall|k2: int|
                    0 <= k2 < k && declared_kind(
                        tv,
                        (#[trigger] f.global_imports@[k2]).name@,
                    ) is Some && declared_kind(tv, f.global_imports@[k2].name@).unwrap()
                        != f.global_imports@[k2].kind ==> exists|l: int|
                        mm0.len() <= l < self.mismatches@.len() && #[trigger] mismatches_view(
                            self.mismatches@,
                        )[l] == (MismatchModel {
                            name: f.global_imports@[k2].name@,
                            declared: declared_kind(tv, f.global_imports@[k2].name@).unwrap(),
                            used: f.global_imports@[k2].kind,
                        }),
            decreases f.global_imports@.len() - k,
        {
            let ghost g_prev = self.module_graph;
            let ghost mm_head = mismatches_view(self.mismatches@);
            proof {
                assert forall|x: Seq<u8>|
                    #![trigger g_prev.has_node(x)]
                    g_prev.has_node(x) <==> g0.has_node(x) || (exists|k2: int|
                        0 <= k2 < k && (#[trigger] f.global_imports@[k2]).name@ == x) by {
                    assert(self.module_graph.has_node(x) <==> g0.has_node(x) || (exists|k2: int|
                        0 <= k2 < k && (#[trigger] f.global_imports@[k2]).name@ == x));
                }
                assert(forall|k2: int|
                    0 <= k2 < k && declared_kind(
                        tv,
                        (#[trigger] f.global_imports@[k2]).name@,
                    ) is Some && declared_kind(tv, f.global_imports@[k2].name@).unwrap()
                        != f.global_imports@[k2].kind ==> exists|l: int|
                        mm0.len() <= l < mm_head.len() && #[trigger] mm_head[l] == (MismatchModel {
                            name: f.global_imports@[k2].name@,
                            declared: declared_kind(tv, f.global_imports@[k2].name@).unwrap(),
                            used: f.global_imports@[k2].kind,
                        }));
            }
            let mut nm: Vec<u8> = Vec::new();
            push_all(&mut nm, &self.all_files[i].global_imports[k].name);
            let ukind = self.all_files[i].global_imports[k].kind;
            let token = self.all_files[i].global_imports[k].token;
            let mut nm2: Vec<u8> = Vec::new();
            push_all(&mut nm2, &nm);
            proof {
                assert(nm2@ == f.global_imports@[k as int].name@);
            }
            let ghost uv_pre = usages_view(self.usages@);
            self.usages.push(UsageEntry { name: nm, kind: ukind, file_id: i, token });
            proof {
                assert(usages_view(self.usages@) =~= uv_pre.push(gi_models(f, i as int)[k as int]));
                assert(usages_view(self.usages@) =~= um0 + gi_models(f, i as int).take(k + 1));
                assert(usage_entry_ok(gi_models(f, i as int)[k as int], self.all_files@)) by {
                    assert(f.wf());
                    assert(f.global_imports@[k as int].wf(f.source@.len() as int));
                }
            }
            let ghost g_prev = self.module_graph;
            self.module_graph.ensure(&nm2);
            proof {
                assert(forall|x: Seq<u8>|
                    self.module_graph.has_node(x) <==> g_prev.has_node(x) || x == nm2@);
                assert forall|x: Seq<u8>|
                    self.module_graph.has_node(x) <==> g0.has_node(x) || (exists|k2: int|
                        0 <= k2 < k + 1 && (#[trigger] f.global_imports@[k2]).name@ == x) by {
                    if self.module_graph.has_node(x) {
                        if g_prev.has_node(x) {
                        } else {
                            assert(x == nm2@);
                            assert(f.global_imports@[k as int].name@ == x);
                        }
                    }
                    if exists|k2: int|
                        0 <= k2 < k + 1 && (#[trigger] f.global_imports@[k2]).name@ == x {
                        let k2 = choose|k2: int|
                            0 <= k2 < k + 1 && (#[trigger] f.global_imports@[k2]).name@ == x;
                        if k2 < k {
                            assert(g_prev.has_node(x));
                        } else {
                            assert(x == nm2@);
                        }
                    }
                }
                assert forall|kk: int|
                    0 <= kk < self.usages@.len() implies usage_entry_ok(
                    (#[trigger] self.usages@[kk])@,
                    self.all_files@,
                ) && self.module_graph.has_node(self.usages@[kk]@.name) by {
                    if kk < uv_pre.len() {
                        assert(self.usages@[kk]@ == uv_pre[kk]);
                        assert(g_prev.has_node(uv_pre[kk].name));
                    } else {
                        assert(self.usages@[kk]@.name == nm2@);
                    }
                }
            }
            let hit = self.lookup_decl(&nm2);
            match hit {
                Some(di) => {
                    let dkind = self.declarations[di].kind;
                    proof {
                        lemma_declared_kind_unique(tv, di as int);
                        assert(declared_kind(tv, nm2@) == Some(dkind));
                    }
                    if !(dkind == ukind) {
                        let ghost mv_pre = mismatches_view(self.mismatches@);
                        self.mismatches.push(
                            KindMismatch { name: nm2, declared: dkind, used: ukind },
                        );
                        proof {
                            assert(mismatches_view(self.mismatches@) =~= mv_pre.push(
                                MismatchModel {
                                    name: f.global_imports@[k as int].name@,
                                    declared: dkind,
                                    used: ukind,
                                },
                            ));
                            assert(forall|l: int|
                                0 <= l < mv_pre.len() ==> #[trigger] mismatches_view(
                                    self.mismatches@,
                                )[l] == mv_pre[l]);
                            assert(mm0.is_prefix_of(mismatches_view(self.mismatches@))) by {
                                assert(mismatches_view(self.mismatches@).take(mm0.len() as int)
                                    =~= mm0);
                            }
                            assert(mismatch_real(
                                mismatches_view(self.mismatches@)[mv_pre.len() as int],
                                f,
                                tv,
                            )) by {
                                assert(f.global_imports@[k as int].name@ == nm2@
                                    && f.global_imports@[k as int].kind == ukind);
                                assert(used_with_kind_in(f, nm2@, ukind));
                            }
                            assert forall|k2: int|
                                0 <= k2 < k + 1 && declared_kind(
                                    tv,
                                    (#[trigger] f.global_imports@[k2]).name@,
                                ) is Some && declared_kind(
                                    tv,
                                    f.global_imports@[k2].name@,
                                ).unwrap() != f.global_imports@[k2].kind implies exists|l: int|
                                mm0.len() <= l < self.mismatches@.len()
                                    && #[trigger] mismatches_view(self.mismatches@)[l] == (
                                MismatchModel {
                                    name: f.global_imports@[k2].name@,
                                    declared: declared_kind(
                                        tv,
                                        f.global_imports@[k2].name@,
                                    ).unwrap(),
                                    used: f.global_imports@[k2].kind,
                                }) by {
                                if k2 < k {
                                    assert(mv_pre == mm_head);
                                    let l = choose|l: int|
                                        mm0.len() <= l < mv_pre.len() && #[trigger] mv_pre[l] == (
                                        MismatchModel {
                                            name: f.global_imports@[k2].name@,
                                            declared: declared_kind(
                                                tv,
                                                f.global_imports@[k2].name@,
                                            ).unwrap(),
                                            used: f.global_imports@[k2].kind,
                                        });
                                    assert(mismatches_view(self.mismatches@)[l] == mv_pre[l]);
                                } else {
                                    assert(mismatches_view(self.mismatches@)[mv_pre.len() as int]
                                        == (MismatchModel {
                                        name: f.global_imports@[k2].name@,
                                        declared: declared_kind(
                                            tv,
                                            f.global_imports@[k2].name@,
                                        ).unwrap(),
                                        used: f.global_imports@[k2].kind,
                                    }));
                                }
                            }
                        }
                    } else {
                        proof {
                            assert forall|k2: int|
                                0 <= k2 < k + 1 && declared_kind(
                                    tv,
                                    (#[trigger] f.global_imports@[k2]).name@,
                                ) is Some && declared_kind(
                                    tv,
                                    f.global_imports@[k2].name@,
                                ).unwrap() != f.global_imports@[k2].kind implies exists|l: int|
                                mm0.len() <= l < self.mismatches@.len()
                                    && #[trigger] mismatches_view(self.mismatches@)[l] == (
                                MismatchModel {
                                    name: f.global_imports@[k2].name@,
                                    declared: declared_kind(
                                        tv,
                                        f.global_imports@[k2].name@,
                                    ).unwrap(),
                                    used: f.global_imports@[k2].kind,
                                }) by {
                                if k2 == k {
                                    assert(declared_kind(tv, f.global_imports@[k2].name@)
                                        == Some(ukind));
                                    assert(false);
                                } else {
                                    assert(mismatches_view(self.mismatches@) == mm_head);
                                    let l = choose|l: int|
                                        mm0.len() <= l < mm_head.len() && #[trigger] mm_head[l]
                                            == (MismatchModel {
                                            name: f.global_imports@[k2].name@,
                                            declared: declared_kind(
                                                tv,
                                                f.global_imports@[k2].name@,
                                            ).unwrap(),
                                            used: f.global_imports@[k2].kind,
                                        });
                                    assert(mismatches_view(self.mismatches@)[l] == mm_head[l]);
                                }
                            }
                        }
                    }
                },
                None => {
                    proof {
                        lemma_declared_kind_none(tv, nm2@);
                        assert forall|k2: int|
                            0 <= k2 < k + 1 && declared_kind(
                                tv,
                                (#[trigger] f.global_imports@[k2]).name@,
                            ) is Some && declared_kind(
                                tv,
                                f.global_imports@[k2].name@,
                            ).unwrap() != f.global_imports@[k2].kind implies exists|l: int|
                            mm0.len() <= l < self.mismatches@.len()
                                && #[trigger] mismatches_view(self.mismatches@)[l] == (
                            MismatchModel {
                                name: f.global_imports@[k2].name@,
                                declared: declared_kind(tv, f.global_imports@[k2].name@).unwrap(),
                                used: f.global_imports@[k2].kind,
                            }) by {
                            if k2 == k {
                                assert(declared_kind(tv, f.global_imports@[k2].name@) is None);
                                assert(false);
                            } else {
                                assert(mismatches_view(self.mismatches@) == mm_head);
                                let l = choose|l: int|
                                    mm0.len() <= l < mm_head.len() && #[trigger] mm_head[l] == (
                                    MismatchModel {
                                        name: f.global_imports@[k2].name@,
                                        declared: declared_kind(
                                            tv,
                                            f.global_imports@[k2].name@,
                                        ).unwrap(),
                                        used: f.global_imports@[k2].kind,
                                    });
                                assert(mismatches_view(self.mismatches@)[l] == mm_head[l]);
                            }
                        }
                    }
                },
            }
            k += 1;
        }
        proof {
            assert(gi_models(f, i as int).take(f.global_imports@.len() as int) =~= gi_models(
                f,
                i as int,
            ));
        }
    }

    /// Register the references inside declaration `j` of file `i`: a usage
    /// entry, a node and an edge from the declaration for each, an edge to
    /// each file-global import, and mismatch records.
    fn register_decl_usages(&mut self, i: usize, j: usize)
        requires
            old(self).wf(),
            i < old(self).all_files@.len(),
            j < old(self).all_files@[i as int].decls@.len(),
            old(self).module_graph.has_node(
                old(self).all_files@[i as int].decls@[j as int].name@,
            ),
            forall|k: int|
                0 <= k < old(self).all_files@[i as int].global_imports@.len() ==> old(
                    self,
                ).module_graph.has_node(
                    (#[trigger] old(self).all_files@[i as int].global_imports@[k]).name@,
                ),
        ensures
            final(self).wf(),
            final(self).all_files == old(self).all_files,
            final(self).libs == old(self).libs,
            final(self).used_libs == old(self).used_libs,
            final(self).lib_attempted == old(self).lib_attempted,
            final(self).declarations == old(self).declarations,
            final(self).replace_table == old(self).replace_table,
            usages_view(final(self).usages@) == usages_view(old(self).usages@)
                + usage_models_of_decl(
                old(self).all_files@[i as int].decls@[j as int],
                i as int,
            ),
            forall|x: Seq<u8>| #![trigger final(self).module_graph.has_node(x)]
                final(self).module_graph.has_node(x) <==> old(self).module_graph.has_node(x) || (
                exists|k: int|
                    0 <= k < old(self).all_files@[i as int].decls@[j as int].usages@.len() && (
                    #[trigger] old(self).all_files@[i as int].decls@[j as int].usages@[k]).name@
                        == x),
            forall|u: Seq<u8>, v: Seq<u8>|
                #![trigger final(self).module_graph.name_edge(u, v)]
                final(self).module_graph.name_edge(u, v) <==> old(self).module_graph.name_edge(
                    u,
                    v,
                ) || edge_in_decl(old(self).all_files@[i as int].decls@[j as int], u, v) || (old(
                    self,
                ).all_files@[i as int].decls@[j as int].name@ == u && exists|k: int|
                    0 <= k < old(self).all_files@[i as int].global_imports@.len() && (
                    #[trigger] old(self).all_files@[i as int].global_imports@[k]).name@ == v),
            mismatches_view(old(self).mismatches@).is_prefix_of(
                mismatches_view(final(self).mismatches@),
            ),
            forall|l: int|
                old(self).mismatches@.len() <= l < final(self).mismatches@.len() ==> mismatch_real(
                    #[trigger] mismatches_view(final(self).mismatches@)[l],
                    old(self).all_files@[i as int],
                    decls_view(old(self).declarations@),
                ),
            forall|k: int|
                0 <= k < old(self).all_files@[i as int].decls@[j as int].usages@.len()
                    && declared_kind(
                    decls_view(old(self).declarations@),
                    (#[trigger] old(self).all_files@[i as int].decls@[j as int].usages@[k]).name@,
                ) is Some && declared_kind(
                    decls_view(old(self).declarations@),
                    old(self).all_files@[i as int].decls@[j as int].usages@[k].name@,
                ).unwrap() != old(self).all_files@[i as int].decls@[j as int].usages@[k].kind
                    ==> exists|l: int|
                    old(self).mismatches@.len() <= l < final(self).mismatches@.len()
                        && #[trigger] mismatches_view(final(self).mismatches@)[l] == (
                    MismatchModel {
                        name: old(self).all_files@[i as int].decls@[j as int].usages@[k].name@,
                        declared: declared_kind(
                            decls_view(old(self).declarations@),
                            old(self).all_files@[i as int].decls@[j as int].usages@[k].name@,
                        ).unwrap(),
                        used: old(self).all_files@[i as int].decls@[j as int].usages@[k].kind,
                    }),
    {
        let ghost f = old(self).all_files@[i as int];
        let ghost d = old(self).all_files@[i as int].decls@[j as int];
        let ghost tv = decls_view(old(self).declarations@);
        let ghost g0 = old(self).module_graph;
        let ghost um0 = usages_view(old(self).usages@);
        let ghost mm0 = mismatches_view(old(self).mismatches@);
        let mut pn: Vec<u8> = Vec::new();
        push_all(&mut pn, &self.all_files[i].decls[j].name);
        let mut k: usize = 0;
        while k < self.all_files[i].decls[j].usages.len()
            invariant
                self.wf(),
                self.all_files == old(self).all_files,
                self.libs == old(self).libs,
                self.used_libs == old(self).used_libs,
                self.lib_attempted == old(self).lib_attempted,
                self.declarations == old(self).declarations,
                self.replace_table == old(self).replace_table,
                i < self.all_files@.len(),
                j < self.all_files@[i as int].decls@.len(),
                f == self.all_files@[i as int],
                d == f.decls@[j as int],
                pn@ == d.name@,
                tv == decls_view(self.declarations@),
                g0 == old(self).module_graph,
                g0.has_node(d.name@),
                forall|k2: int|
                    0 <= k2 < f.global_imports@.len() ==> g0.has_node(
                        (#[trigger] f.global_imports@[k2]).name@,
                    ),
                um0 == usages_view(old(self).usages@),
                mm0 == mismatches_view(old(self).mismatches@),
                k <= d.usages@.len(),
                usages_view(self.usages@) == um0 + usage_models_of_decl(d, i as int).take(k as int),
                forall|x: Seq<u8>| #![trigger self.module_graph.has_node(x)]
                    self.module_graph.has_node(x) <==> g0.has_node(x) || (exists|k2: int|
                        0 <= k2 < k && (#[trigger] d.usages@[k2]).name@ == x),
                forall|u: Seq<u8>, v: Seq<u8>|
                    #![trigger self.module_graph.name_edge(u, v)]
                    self.module_graph.name_edge(u, v) <==> g0.name_edge(u, v) || (d.name@ == u && (
                    exists|k2: int| 0 <= k2 < k && (#[trigger] d.usages@[k2]).name@ == v)),
                mm0.is_prefix_of(mismatches_view(self.mismatches@)),
                forall|l: int|
                    mm0.len() <= l < self.mismatches@.len() ==> mismatch_real(
                        #[trigger] mismatches_view(self.mismatches@)[l],
                        f,
                        tv,
                    ),
                forall|k2: int|
                    0 <= k2 < k && declared_kind(tv, (#[trigger] d.usages@[k2]).name@) is Some
                        && declared_kind(tv, d.usages@[k2].name@).unwrap() != d.usages@[k2].kind
                        ==> exists|l: int|
                        mm0.len() <= l < self.mismatches@.len() && #[trigger] mismatches_view(
                            self.mismatches@,
                        )[l] == (MismatchModel {
                            name: d.usages@[k2].name@,
                            declared: declared_kind(tv, d.usages@[k2].name@).unwrap(),
                            used: d.usages@[k2].kind,
                        }),
            decreases d.usages@.len() - k,
        {
            let ghost g_prev = self.module_graph;
            let ghost mm_head = mismatches_view(self.mismatches@);
            proof {
                assert forall|x: Seq<u8>| #![trigger g_prev.has_node(x)]
                    g_prev.has_node(x) <==> g0.has_node(x) || (exists|k2: int|
                        0 <= k2 < k && (#[trigger] d.usages@[k2]).name@ == x) by {
                    assert(self.module_graph.has_node(x) <==> g0.has_node(x) || (exists|k2: int|
                        0 <= k2 < k && (#[trigger] d.usages@[k2]).name@ == x));
                }
                assert forall|u: Seq<u8>, v: Seq<u8>|
                    #![trigger g_prev.name_edge(u, v)]
                    g_prev.name_edge(u, v) <==> g0.name_edge(u, v) || (d.name@ == u && (exists|
                        k2: int,
                    | 0 <= k2 < k && (#[trigger] d.usages@[k2]).name@ == v)) by {
                    assert(self.module_graph.name_edge(u, v) <==> g0.name_edge(u, v) || (d.name@
                        == u && (exists|k2: int|
                        0 <= k2 < k && (#[trigger] d.usages@[k2]).name@ == v)));
                }
                assert(forall|k2: int|
                    0 <= k2 < k && declared_kind(tv, (#[trigger] d.usages@[k2]).name@) is Some
                        && declared_kind(tv, d.usages@[k2].name@).unwrap() != d.usages@[k2].kind
                        ==> exists|l: int|
                        mm0.len() <= l < mm_head.len() && #[trigger] mm_head[l] == (MismatchModel {
                            name: d.usages@[k2].name@,
                            declared: declared_kind(tv, d.usages@[k2].name@).unwrap(),
                            used: d.usages@[k2].kind,
                        }));
            }
            let mut nm: Vec<u8> = Vec::new();
            push_all(&mut nm, &self.all_files[i].decls[j].usages[k].name);
            let ukind = self.all_files[i].decls[j].usages[k].kind;
            let token = self.all_files[i].decls[j].usages[k].token;
            let mut nm2: Vec<u8> = Vec::new();
            push_all(&mut nm2, &nm);
            proof {
                assert(nm2@ == d.usages@[k as int].name@);
            }
            let ghost uv_pre = usages_view(self.usages@);
            self.usages.push(UsageEntry { name: nm, kind: ukind, file_id: i, token });
            proof {
                assert(usages_view(self.usages@) =~= uv_pre.push(
                    usage_models_of_decl(d, i as int)[k as int],
                ));
                assert(usages_view(self.usages@) =~= um0 + usage_models_of_decl(d, i as int).take(
                    k + 1,
                ));
                assert(usage_entry_ok(usage_models_of_decl(d, i as int)[k as int], self.all_files@))
                    by {
                    assert(f.wf());
                    assert(d.wf(f.source@.len() as int));
                    assert(d.usages@[k as int].wf(f.source@.len() as int));
                }
            }
            self.module_graph.add_name_edge(&pn, &nm2);
            proof {
                assert forall|x: Seq<u8>| #![trigger self.module_graph.has_node(x)]
                    self.module_graph.has_node(x) <==> g0.has_node(x) || (exists|k2: int|
                        0 <= k2 < k + 1 && (#[trigger] d.usages@[k2]).name@ == x) by {
                    if self.module_graph.has_node(x) {
                        if g_prev.has_node(x) {
                        } else if x == pn@ {
                            assert(g0.has_node(x));
                        } else {
                            assert(x == nm2@);
                            assert(d.usages@[k as int].name@ == x);
                        }
                    }
                    if exists|k2: int| 0 <= k2 < k + 1 && (#[trigger] d.usages@[k2]).name@ == x {
                        let k2 = choose|k2: int|
                            0 <= k2 < k + 1 && (#[trigger] d.usages@[k2]).name@ == x;
                        if k2 < k {
                            assert(g_prev.has_node(x));
                        } else {
                            assert(x == nm2@);
                        }
                    }
                }
                assert forall|u: Seq<u8>, v: Seq<u8>|
                    #![trigger self.module_graph.name_edge(u, v)]
                    self.module_graph.name_edge(u, v) <==> g0.name_edge(u, v) || (d.name@ == u && (
                    exists|k2: int|
                        0 <= k2 < k + 1 && (#[trigger] d.usages@[k2]).name@ == v)) by {
                    if self.module_graph.name_edge(u, v) {
                        if g_prev.name_edge(u, v) {
                        } else {
                            assert(u == pn@ && v == nm2@);
                            assert(d.usages@[k as int].name@ == v);
                        }
                    }
                    if g0.name_edge(u, v) {
                        assert(g_prev.name_edge(u, v));
                        assert(self.module_graph.name_edge(u, v));
                    }
                    if d.name@ == u && (exists|k2: int|
                        0 <= k2 < k + 1 && (#[trigger] d.usages@[k2]).name@ == v) {
                        let k2 = choose|k2: int|
                            0 <= k2 < k + 1 && (#[trigger] d.usages@[k2]).name@ == v;
                        if k2 < k {
                            assert(g_prev.name_edge(u, v));
                            assert(self.module_graph.name_edge(u, v));
                        } else {
                            assert(u == pn@ && v == nm2@);
                            assert(self.module_graph.name_edge(u, v));
                        }
                    }
                }
                assert forall|kk: int|
                    0 <= kk < self.usages@.len() implies usage_entry_ok(
                    (#[trigger] self.usages@[kk])@,
                    self.all_files@,
                ) && self.module_graph.has_node(self.usages@[kk]@.name) by {
                    if kk < uv_pre.len() {
                        assert(self.usages@[kk]@ == uv_pre[kk]);
                        assert(g_prev.has_node(uv_pre[kk].name));
                    } else {
                        assert(self.usages@[kk]@.name == nm2@);
                    }
                }
                assert forall|kk: int|
                    0 <= kk < self.declarations@.len() implies self.module_graph.has_node(
                    (#[trigger] self.declarations@[kk])@.name,
                ) by {
                    assert(g_prev.has_node(self.declarations@[kk]@.name));
                }
            }
            let hit = self.lookup_decl(&nm2);
            match hit {
                Some(di) => {
                    let dkind = self.declarations[di].kind;
                    proof {
                        lemma_declared_kind_unique(tv, di as int);
                        assert(declared_kind(tv, nm2@) == Some(dkind));
                    }
                    if !(dkind == ukind) {
                        let ghost mv_pre = mismatches_view(self.mismatches@);
                        self.mismatches.push(
                            KindMismatch { name: nm2, declared: dkind, used: ukind },
                        );
                        proof {
                            assert(mismatches_view(self.mismatches@) =~= mv_pre.push(
                                MismatchModel {
                                    name: d.usages@[k as int].name@,
                                    declared: dkind,
                                    used: ukind,
                                },
                            ));
                            assert(forall|l: int|
                                0 <= l < mv_pre.len() ==> #[trigger] mismatches_view(
                                    self.mismatches@,
                                )[l] == mv_pre[l]);
                            assert(mm0.is_prefix_of(mismatches_view(self.mismatches@))) by {
                                assert(mismatches_view(self.mismatches@).take(mm0.len() as int)
                                    =~= mm0);
                            }
                            assert(mismatch_real(
                                mismatches_view(self.mismatches@)[mv_pre.len() as int],
                                f,
                                tv,
                            )) by {
                                assert(d.usages@[k as int].name@ == nm2@ && d.usages@[k as int].kind
                                    == ukind);
                                assert(0 <= j < f.decls@.len() && 0 <= k < f.decls@[j as int].usages@.len());
                                assert(used_with_kind_in(f, nm2@, ukind));
                            }
                            assert forall|k2: int|
                                0 <= k2 < k + 1 && declared_kind(
                                    tv,
                                    (#[trigger] d.usages@[k2]).name@,
                                ) is Some && declared_kind(tv, d.usages@[k2].name@).unwrap()
                                    != d.usages@[k2].kind implies exists|l: int|
                                mm0.len() <= l < self.mismatches@.len()
                                    && #[trigger] mismatches_view(self.mismatches@)[l] == (
                                MismatchModel {
                                    name: d.usages@[k2].name@,
                                    declared: declared_kind(tv, d.usages@[k2].name@).unwrap(),
                                    used: d.usages@[k2].kind,
                                }) by {
                                if k2 < k {
                                    assert(mv_pre == mm_head);
                                    let l = choose|l: int|
                                        mm0.len() <= l < mm_head.len() && #[trigger] mm_head[l]
                                            == (MismatchModel {
                                            name: d.usages@[k2].name@,
                                            declared: declared_kind(
                                                tv,
                                                d.usages@[k2].name@,
                                            ).unwrap(),
                                            used: d.usages@[k2].kind,
                                        });
                                    assert(mismatches_view(self.mismatches@)[l] == mm_head[l]);
                                } else {
                                    assert(mismatches_view(self.mismatches@)[mv_pre.len() as int]
                                        == (MismatchModel {
                                        name: d.usages@[k2].name@,
                                        declared: declared_kind(tv, d.usages@[k2].name@).unwrap(),
                                        used: d.usages@[k2].kind,
                                    }));
                                }
                            }
                        }
                    } else {
                        proof {
                            assert forall|k2: int|
                                0 <= k2 < k + 1 && declared_kind(
                                    tv,
                                    (#[trigger] d.usages@[k2]).name@,
                                ) is Some && declared_kind(tv, d.usages@[k2].name@).unwrap()
                                    != d.usages@[k2].kind implies exists|l: int|
                                mm0.len() <= l < self.mismatches@.len()
                                    && #[trigger] mismatches_view(self.mismatches@)[l] == (
                                MismatchModel {
                                    name: d.usages@[k2].name@,
                                    declared: declared_kind(tv, d.usages@[k2].name@).unwrap(),
                                    used: d.usages@[k2].kind,
                                }) by {
                                if k2 == k {
                                    assert(declared_kind(tv, d.usages@[k2].name@) == Some(ukind));
                                    assert(false);
                                } else {
                                    assert(mismatches_view(self.mismatches@) == mm_head);
                                    let l = choose|l: int|
                                        mm0.len() <= l < mm_head.len() && #[trigger] mm_head[l]
                                            == (MismatchModel {
                                            name: d.usages@[k2].name@,
                                            declared: declared_kind(
                                                tv,
                                                d.usages@[k2].name@,
                                            ).unwrap(),
                                            used: d.usages@[k2].kind,
                                        });
                                    assert(mismatches_view(self.mismatches@)[l] == mm_head[l]);
                                }
                            }
                        }
                    }
                },
                None => {
                    proof {
                        lemma_declared_kind_none(tv, nm2@);
                        assert forall|k2: int|
                            0 <= k2 < k + 1 && declared_kind(
                                tv,
                                (#[trigger] d.usages@[k2]).name@,
                            ) is Some && declared_kind(tv, d.usages@[k2].name@).unwrap()
                                != d.usages@[k2].kind implies exists|l: int|
                            mm0.len() <= l < self.mismatches@.len() && #[trigger] mismatches_view(
                                self.mismatches@,
                            )[l] == (MismatchModel {
                                name: d.usages@[k2].name@,
                                declared: declared_kind(tv, d.usages@[k2].name@).unwrap(),
                                used: d.usages@[k2].kind,
                            }) by {
                            if k2 == k {
                                assert(declared_kind(tv, d.usages@[k2].name@) is None);
                                assert(false);
                            } else {
                                assert(mismatches_view(self.mismatches@) == mm_head);
                                let l = choose|l: int|
                                    mm0.len() <= l < mm_head.len() && #[trigger] mm_head[l] == (
                                    MismatchModel {
                                        name: d.usages@[k2].name@,
                                        declared: declared_kind(tv, d.usages@[k2].name@).unwrap(),
                                        used: d.usages@[k2].kind,
                                    });
                                assert(mismatches_view(self.mismatches@)[l] == mm_head[l]);
                            }
                        }
                    }
                },
            }
            k += 1;
        }
        // an edge from this declaration to every file-global import
        let mut k2: usize = 0;
        while k2 < self.all_files[i].global_imports.len()
            invariant
                self.wf(),
                self.all_files == old(self).all_files,
                self.libs == old(self).libs,
                self.used_libs == old(self).used_libs,
                self.lib_attempted == old(self).lib_attempted,
                self.declarations == old(self).declarations,
                self.replace_table == old(self).replace_table,
                i < self.all_files@.len(),
                j < self.all_files@[i as int].decls@.len(),
                f == self.all_files@[i as int],
                d == f.decls@[j as int],
                pn@ == d.name@,
                tv == decls_view(self.declarations@),
                g0 == old(self).module_graph,
                g0.has_node(d.name@),
                forall|kk: int|
                    0 <= kk < f.global_imports@.len() ==> g0.has_node(
                        (#[trigger] f.global_imports@[kk]).name@,
                    ),
                um0 == usages_view(old(self).usages@),
                mm0 == mismatches_view(old(self).mismatches@),
                k2 <= f.global_imports@.len(),
                usages_view(self.usages@) == um0 + usage_models_of_decl(d, i as int),
                mm0.is_prefix_of(mismatches_view(self.mismatches@)),
                forall|l: int|
                    mm0.len() <= l < self.mismatches@.len() ==> mismatch_real(
                        #[trigger] mismatches_view(self.mismatches@)[l],
                        f,
                        tv,
                    ),
                forall|kk: int|
                    0 <= kk < d.usages@.len() && declared_kind(
                        tv,
                        (#[trigger] d.usages@[kk]).name@,
                    ) is Some && declared_kind(tv, d.usages@[kk].name@).unwrap()
                        != d.usages@[kk].kind ==> exists|l: int|
                        mm0.len() <= l < self.mismatches@.len() && #[trigger] mismatches_view(
                            self.mismatches@,
                        )[l] == (MismatchModel {
                            name: d.usages@[kk].name@,
                            declared: declared_kind(tv, d.usages@[kk].name@).unwrap(),
                            used: d.usages@[kk].kind,
                        }),
                forall|x: Seq<u8>| #![trigger self.module_graph.has_node(x)]
                    self.module_graph.has_node(x) <==> g0.has_node(x) || (exists|kk: int|
                        0 <= kk < d.usages@.len() && (#[trigger] d.usages@[kk]).name@ == x),
                forall|u: Seq<u8>, v: Seq<u8>|
                    #![trigger self.module_graph.name_edge(u, v)]
                    self.module_graph.name_edge(u, v) <==> g0.name_edge(u, v) || (d.name@ == u && (
                    exists|kk: int| 0 <= kk < d.usages@.len() && (#[trigger] d.usages@[kk]).name@
                        == v)) || (d.name@ == u && (exists|kk: int|
                        0 <= kk < k2 && (#[trigger] f.global_imports@[kk]).name@ == v)),
            decreases f.global_imports@.len() - k2,
        {
            let ghost g_prev = self.module_graph;
            let ghost mm_head = mismatches_view(self.mismatches@);
            proof {
                assert(forall|kk: int|
                    0 <= kk < d.usages@.len() && declared_kind(
                        tv,
                        (#[trigger] d.usages@[kk]).name@,
                    ) is Some && declared_kind(tv, d.usages@[kk].name@).unwrap()
                        != d.usages@[kk].kind ==> exists|l: int|
                        mm0.len() <= l < mm_head.len() && #[trigger] mm_head[l] == (MismatchModel {
                            name: d.usages@[kk].name@,
                            declared: declared_kind(tv, d.usages@[kk].name@).unwrap(),
                            used: d.usages@[kk].kind,
                        }));
                assert forall|u: Seq<u8>, v: Seq<u8>|
                    #![trigger g_prev.name_edge(u, v)]
                    g_prev.name_edge(u, v) <==> g0.name_edge(u, v) || (d.name@ == u && (exists|
                        kk: int,
                    | 0 <= kk < d.usages@.len() && (#[trigger] d.usages@[kk]).name@ == v)) || (
                    d.name@ == u && (exists|kk: int|
                        0 <= kk < k2 && (#[trigger] f.global_imports@[kk]).name@ == v)) by {
                    assert(self.module_graph.name_edge(u, v) <==> g0.name_edge(u, v) || (d.name@
                        == u && (exists|kk: int|
                        0 <= kk < d.usages@.len() && (#[trigger] d.usages@[kk]).name@ == v)) || (
                    d.name@ == u && (exists|kk: int|
                        0 <= kk < k2 && (#[trigger] f.global_imports@[kk]).name@ == v)));
                }
                assert forall|x: Seq<u8>| #![trigger g_prev.has_node(x)]
                    g_prev.has_node(x) <==> g0.has_node(x) || (exists|kk: int|
                        0 <= kk < d.usages@.len() && (#[trigger] d.usages@[kk]).name@ == x) by {
                    assert(self.module_graph.has_node(x) <==> g0.has_node(x) || (exists|kk: int|
                        0 <= kk < d.usages@.len() && (#[trigger] d.usages@[kk]).name@ == x));
                }
            }
            let mut gn: Vec<u8> = Vec::new();
            push_all(&mut gn, &self.all_files[i].global_imports[k2].name);
            proof {
                assert(gn@ == f.global_imports@[k2 as int].name@);
            }
            self.module_graph.add_name_edge(&pn, &gn);
            proof {
                assert forall|x: Seq<u8>| #![trigger self.module_graph.has_node(x)]
                    self.module_graph.has_node(x) <==> g0.has_node(x) || (exists|kk: int|
                        0 <= kk < d.usages@.len() && (#[trigger] d.usages@[kk]).name@ == x) by {
                    if self.module_graph.has_node(x) {
                        if g_prev.has_node(x) {
                        } else if x == pn@ {
                            assert(g0.has_node(x));
                        } else {
                            assert(x == gn@);
                            assert(g0.has_node(x));
                        }
                    }
                }
                assert forall|u: Seq<u8>, v: Seq<u8>|
                    #![trigger self.module_graph.name_edge(u, v)]
                    self.module_graph.name_edge(u, v) <==> g0.name_edge(u, v) || (d.name@ == u && (
                    exists|kk: int| 0 <= kk < d.usages@.len() && (#[trigger] d.usages@[kk]).name@
                        == v)) || (d.name@ == u && (exists|kk: int|
                        0 <= kk < k2 + 1 && (#[trigger] f.global_imports@[kk]).name@ == v)) by {
                    if self.module_graph.name_edge(u, v) {
                        if g_prev.name_edge(u, v) {
                        } else {
                            assert(u == pn@ && v == gn@);
                            assert(f.global_imports@[k2 as int].name@ == v);
                        }
                    }
                    if g0.name_edge(u, v) || (d.name@ == u && (exists|kk: int|
                        0 <= kk < d.usages@.len() && (#[trigger] d.usages@[kk]).name@ == v)) {
                        assert(g_prev.name_edge(u, v));
                        assert(self.module_graph.name_edge(u, v));
                    }
                    if d.name@ == u && (exists|kk: int|
                        0 <= kk < k2 + 1 && (#[trigger] f.global_imports@[kk]).name@ == v) {
                        let kk = choose|kk: int|
                            0 <= kk < k2 + 1 && (#[trigger] f.global_imports@[kk]).name@ == v;
                        if kk < k2 {
                            assert(g_prev.name_edge(u, v));
                            assert(self.module_graph.name_edge(u, v));
                        } else {
                            assert(u == pn@ && v == gn@);
                            assert(self.module_graph.name_edge(u, v));
                        }
                    }
                }
                assert forall|kk: int|
                    0 <= kk < self.usages@.len() implies usage_entry_ok(
                    (#[trigger] self.usages@[kk])@,
                    self.all_files@,
                ) && self.module_graph.has_node(self.usages@[kk]@.name) by {
                    assert(g_prev.has_node(self.usages@[kk]@.name));
                }
                assert forall|kk: int|
                    0 <= kk < self.declarations@.len() implies self.module_graph.has_node(
                    (#[trigger] self.declarations@[kk])@.name,
                ) by {
                    assert(g_prev.has_node(self.declarations@[kk]@.name));
                }
                assert(mismatches_view(self.mismatches@) == mm_head);
                assert forall|kk: int|
                    0 <= kk < d.usages@.len() && declared_kind(
                        tv,
                        (#[trigger] d.usages@[kk]).name@,
                    ) is Some && declared_kind(tv, d.usages@[kk].name@).unwrap()
                        != d.usages@[kk].kind implies exists|l: int|
                    mm0.len() <= l < self.mismatches@.len() && #[trigger] mismatches_view(
                        self.mismatches@,
                    )[l] == (MismatchModel {
                        name: d.usages@[kk].name@,
                        declared: declared_kind(tv, d.usages@[kk].name@).unwrap(),
                        used: d.usages@[kk].kind,
                    }) by {
                    let l = choose|l: int|
                        mm0.len() <= l < mm_head.len() && #[trigger] mm_head[l] == (MismatchModel {
                            name: d.usages@[kk].name@,
                            declared: declared_kind(tv, d.usages@[kk].name@).unwrap(),
                            used: d.usages@[kk].kind,
                        });
                    assert(mismatches_view(self.mismatches@)[l] == mm_head[l]);
                }
            }
            k2 += 1;
        }
        proof {
            assert(usage_models_of_decl(d, i as int).take(d.usages@.len() as int)
                =~= usage_models_of_decl(d, i as int));
            assert forall|u: Seq<u8>, v: Seq<u8>|
                #![trigger final(self).module_graph.name_edge(u, v)]
                final(self).module_graph.name_edge(u, v) <==> g0.name_edge(u, v) || edge_in_decl(
                    d,
                    u,
                    v,
                ) || (d.name@ == u && exists|kk: int|
                    0 <= kk < f.global_imports@.len() && (#[trigger] f.global_imports@[kk]).name@
                        == v) by {
                assert(self.module_graph.name_edge(u, v) <==> g0.name_edge(u, v) || (d.name@ == u
                    && (exists|kk: int|
                    0 <= kk < d.usages@.len() && (#[trigger] d.usages@[kk]).name@ == v)) || (
                d.name@ == u && (exists|kk: int|
                    0 <= kk < f.global_imports@.len() && (#[trigger] f.global_imports@[kk]).name@
                        == v)));
            }
        }
    }

    /// Register every usage of file `i`: the file-global imports, then each
    /// declaration's references, with nodes, edges and mismatch records.
    fn register_usages_file(&mut self, i: usize)
        requires
            old(self).wf(),
            i < old(self).all_files@.len(),
            forall|j: int|
                0 <= j < old(self).all_files@[i as int].decls@.len() ==> declared_in(
                    decls_view(old(self).declarations@),
                    (#[trigger] old(self).all_files@[i as int].decls@[j]).name@,
                ),
        ensures
            final(self).wf(),
            final(self).all_files == old(self).all_files,
            final(self).libs == old(self).libs,
            final(self).used_libs == old(self).used_libs,
            final(self).lib_attempted == old(self).lib_attempted,
            final(self).declarations == old(self).declarations,
            final(self).replace_table == old(self).replace_table,
            usages_view(final(self).usages@) == usages_view(old(self).usages@)
                + file_usage_models(old(self).all_files@[i as int], i as int),
            forall|x: Seq<u8>| #![trigger final(self).module_graph.has_node(x)]
                final(self).module_graph.has_node(x) <==> old(self).module_graph.has_node(x)
                    || used_in_file(old(self).all_files@[i as int], x),
            forall|u: Seq<u8>, v: Seq<u8>|
                #![trigger final(self).module_graph.name_edge(u, v)]
                final(self).module_graph.name_edge(u, v) <==> old(self).module_graph.name_edge(
                    u,
                    v,
                ) || edge_in_file(old(self).all_files@[i as int], u, v) || global_edge_in_file(
                    old(self).all_files@[i as int],
                    u,
                    v,
                ),
            mismatches_view(old(self).mismatches@).is_prefix_of(
                mismatches_view(final(self).mismatches@),
            ),
            forall|l: int|
                old(self).mismatches@.len() <= l < final(self).mismatches@.len() ==> mismatch_real(
                    #[trigger] mismatches_view(final(self).mismatches@)[l],
                    old(self).all_files@[i as int],
                    decls_view(old(self).declarations@),
                ),
    {
        let ghost f = old(self).all_files@[i as int];
        let ghost tv = decls_view(old(self).declarations@);
        let ghost g0 = old(self).module_graph;
        let ghost um0 = usages_view(old(self).usages@);
        let ghost mm0 = mismatches_view(old(self).mismatches@);
        self.register_globals_file(i);
        proof {
            assert forall|j: int|
                0 <= j < f.decls@.len() implies self.module_graph.has_node(
                (#[trigger] f.decls@[j]).name@,
            ) by {
                let w = choose|w: int| 0 <= w < tv.len() && (#[trigger] tv[w]).name == f.decls@[j].name@;
                assert(self.declarations@[w]@.name == f.decls@[j].name@);
                assert(self.module_graph.has_node(self.declarations@[w]@.name));
            }
        }
        let mut j: usize = 0;
        while j < self.all_files[i].decls.len()
            invariant
                self.wf(),
                self.all_files == old(self).all_files,
                self.libs == old(self).libs,
                self.used_libs == old(self).used_libs,
                self.lib_attempted == old(self).lib_attempted,
                self.declarations == old(self).declarations,
                self.replace_table == old(self).replace_table,
                i < self.all_files@.len(),
                f == self.all_files@[i as int],
                tv == decls_view(self.declarations@),
                g0 == old(self).module_graph,
                um0 == usages_view(old(self).usages@),
                mm0 == mismatches_view(old(self).mismatches@),
                j <= f.decls@.len(),
                forall|j2: int|
                    0 <= j2 < f.decls@.len() ==> self.module_graph.has_node(
                        (#[trigger] f.decls@[j2]).name@,
                    ),
                forall|k: int|
                    0 <= k < f.global_imports@.len() ==> self.module_graph.has_node(
                        (#[trigger] f.global_imports@[k]).name@,
                    ),
                usages_view(self.usages@) == um0 + gi_models(f, i as int)
                    + usage_models_of_decls(f.decls@.take(j as int), i as int),
                forall|x: Seq<u8>| #![trigger self.module_graph.has_node(x)]
                    self.module_graph.has_node(x) <==> g0.has_node(x) || (exists|k: int|
                        0 <= k < f.global_imports@.len() && (#[trigger] f.global_imports@[k]).name@
                            == x) || (exists|j2: int, k: int|
                        0 <= j2 < j && 0 <= k < (#[trigger] f.decls@[j2]).usages@.len() && (
                        #[trigger] f.decls@[j2].usages@[k]).name@ == x),
                forall|u: Seq<u8>, v: Seq<u8>|
                    #![trigger self.module_graph.name_edge(u, v)]
                    self.module_graph.name_edge(u, v) <==> g0.name_edge(u, v) || edge_in_decls(
                        f.decls@.take(j as int),
                        u,
                        v,
                    ) || gi_edge_decls(f.decls@.take(j as int), f, u, v),
                mm0.is_prefix_of(mismatches_view(self.mismatches@)),
                forall|l: int|
                    mm0.len() <= l < self.mismatches@.len() ==> mismatch_real(
                        #[trigger] mismatches_view(self.mismatches@)[l],
                        f,
                        tv,
                    ),
            decreases f.decls@.len() - j,
        {
            let ghost g_prev = self.module_graph;
            let ghost mm_head = mismatches_view(self.mismatches@);
            let ghost uv_head = usages_view(self.usages@);
            proof {
                assert forall|x: Seq<u8>| #![trigger g_prev.has_node(x)]
                    g_prev.has_node(x) <==> g0.has_node(x) || (exists|k: int|
                        0 <= k < f.global_imports@.len() && (#[trigger] f.global_imports@[k]).name@
                            == x) || (exists|j2: int, k: int|
                        0 <= j2 < j && 0 <= k < (#[trigger] f.decls@[j2]).usages@.len() && (
                        #[trigger] f.decls@[j2].usages@[k]).name@ == x) by {
                    assert(self.module_graph.has_node(x) <==> g0.has_node(x) || (exists|k: int|
                        0 <= k < f.global_imports@.len() && (#[trigger] f.global_imports@[k]).name@
                            == x) || (exists|j2: int, k: int|
                        0 <= j2 < j && 0 <= k < (#[trigger] f.decls@[j2]).usages@.len() && (
                        #[trigger] f.decls@[j2].usages@[k]).name@ == x));
                }
                assert forall|u: Seq<u8>, v: Seq<u8>|
                    #![trigger g_prev.name_edge(u, v)]
                    g_prev.name_edge(u, v) <==> g0.name_edge(u, v) || edge_in_decls(
                        f.decls@.take(j as int),
                        u,
                        v,
                    ) || gi_edge_decls(f.decls@.take(j as int), f, u, v) by {
                    assert(self.module_graph.name_edge(u, v) <==> g0.name_edge(u, v)
                        || edge_in_decls(f.decls@.take(j as int), u, v) || gi_edge_decls(
                        f.decls@.take(j as int),
                        f,
                        u,
                        v,
                    ));
                }
            }
            self.register_decl_usages(i, j);
            proof {
                let ghost d = f.decls@[j as int];
                assert(f.decls@.take(j + 1).drop_last() =~= f.decls@.take(j as int));
                assert(f.decls@.take(j + 1).last() == d);
                assert(usage_models_of_decls(f.decls@.take(j + 1), i as int)
                    =~= usage_models_of_decls(f.decls@.take(j as int), i as int)
                    + usage_models_of_decl(d, i as int));
                assert(usages_view(self.usages@) =~= um0 + gi_models(f, i as int)
                    + usage_models_of_decls(f.decls@.take(j + 1), i as int));
                // nodes after this declaration
                assert forall|x: Seq<u8>| #![trigger self.module_graph.has_node(x)]
                    self.module_graph.has_node(x) <==> g0.has_node(x) || (exists|k: int|
                        0 <= k < f.global_imports@.len() && (#[trigger] f.global_imports@[k]).name@
                            == x) || (exists|j2: int, k: int|
                        0 <= j2 < j + 1 && 0 <= k < (#[trigger] f.decls@[j2]).usages@.len() && (
                        #[trigger] f.decls@[j2].usages@[k]).name@ == x) by {
                    if self.module_graph.has_node(x) {
                        if g_prev.has_node(x) {
                        } else {
                            let k = choose|k: int|
                                0 <= k < d.usages@.len() && (#[trigger] d.usages@[k]).name@ == x;
                            assert(0 <= j < j + 1 && 0 <= k < f.decls@[j as int].usages@.len()
                                && f.decls@[j as int].usages@[k].name@ == x);
                        }
                    }
                    if exists|j2: int, k: int|
                        0 <= j2 < j + 1 && 0 <= k < (#[trigger] f.decls@[j2]).usages@.len() && (
                        #[trigger] f.decls@[j2].usages@[k]).name@ == x {
                        let (j2, k) = choose|j2: int, k: int|
                            0 <= j2 < j + 1 && 0 <= k < (#[trigger] f.decls@[j2]).usages@.len()
                                && (#[trigger] f.decls@[j2].usages@[k]).name@ == x;
                        if j2 < j {
                            assert(g_prev.has_node(x));
                        } else {
                            assert(exists|k3: int|
                                0 <= k3 < d.usages@.len() && (#[trigger] d.usages@[k3]).name@
                                    == x);
                        }
                    }
                }
                // edges after this declaration
                assert forall|u: Seq<u8>, v: Seq<u8>|
                    #![trigger self.module_graph.name_edge(u, v)]
                    self.module_graph.name_edge(u, v) <==> g0.name_edge(u, v) || edge_in_decls(
                        f.decls@.take(j + 1),
                        u,
                        v,
                    ) || gi_edge_decls(f.decls@.take(j + 1), f, u, v) by {
                    let tj = f.decls@.take(j as int);
                    let tj1 = f.decls@.take(j + 1);
                    if self.module_graph.name_edge(u, v) {
                        if g_prev.name_edge(u, v) {
                            if edge_in_decls(tj, u, v) {
                                let j2 = choose|j2: int|
                                    0 <= j2 < tj.len() && edge_in_decl(#[trigger] tj[j2], u, v);
                                assert(edge_in_decl(tj1[j2], u, v));
                            }
                            if gi_edge_decls(tj, f, u, v) {
                                let j2 = choose|j2: int|
                                    0 <= j2 < tj.len() && (#[trigger] tj[j2]).name@ == u;
                                assert(tj1[j2].name@ == u);
                            }
                        } else if edge_in_decl(d, u, v) {
                            assert(tj1[j as int] == d);
                            assert(edge_in_decls(tj1, u, v));
                        } else {
                            assert(d.name@ == u);
                            assert(tj1[j as int].name@ == u);
                            assert(gi_edge_decls(tj1, f, u, v));
                        }
                    }
                    if g0.name_edge(u, v) {
                        assert(g_prev.name_edge(u, v));
                        assert(self.module_graph.name_edge(u, v));
                    }
                    if edge_in_decls(tj1, u, v) {
                        let j2 = choose|j2: int|
                            0 <= j2 < tj1.len() && edge_in_decl(#[trigger] tj1[j2], u, v);
                        if j2 < j {
                            assert(edge_in_decl(tj[j2], u, v));
                            assert(g_prev.name_edge(u, v));
                            assert(self.module_graph.name_edge(u, v));
                        } else {
                            assert(edge_in_decl(d, u, v));
                            assert(self.module_graph.name_edge(u, v));
                        }
                    }
                    if gi_edge_decls(tj1, f, u, v) {
                        let j2 = choose|j2: int| 0 <= j2 < tj1.len() && (#[trigger] tj1[j2]).name@ == u;
                        if j2 < j {
                            assert(tj[j2].name@ == u);
                            assert(gi_edge_decls(tj, f, u, v));
                            assert(g_prev.name_edge(u, v));
                            assert(self.module_graph.name_edge(u, v));
                        } else {
                            assert(d.name@ == u);
                            assert(self.module_graph.name_edge(u, v));
                        }
                    }
                }
                // mismatches keep their prefix and stay sound
                assert(mm0.is_prefix_of(mismatches_view(self.mismatches@))) by {
                    assert(mm_head.is_prefix_of(mismatches_view(self.mismatches@)));
                    assert(mismatches_view(self.mismatches@).take(mm0.len() as int) =~= mm0) by {
                        assert(mm_head.take(mm0.len() as int) =~= mm0);
                        assert forall|l: int| 0 <= l < mm0.len() implies #[trigger] mismatches_view(
                            self.mismatches@,
                        )[l] == mm0[l] by {
                            assert(mismatches_view(self.mismatches@)[l] == mm_head[l]);
                        }
                    }
                }
                assert forall|l: int|
                    mm0.len() <= l < self.mismatches@.len() implies mismatch_real(
                    #[trigger] mismatches_view(self.mismatches@)[l],
                    f,
                    tv,
                ) by {
                    if l < mm_head.len() {
                        assert(mismatches_view(self.mismatches@)[l] == mm_head[l]);
                    }
                }
            }
            j += 1;
        }
        proof {
            assert(f.decls@.take(f.decls@.len() as int) =~= f.decls@);
            assert(usages_view(self.usages@) =~= um0 + file_usage_models(f, i as int));
            assert forall|x: Seq<u8>| #![trigger self.module_graph.has_node(x)]
                self.module_graph.has_node(x) <==> g0.has_node(x) || used_in_file(f, x) by {
                assert(self.module_graph.has_node(x) <==> g0.has_node(x) || (exists|k: int|
                    0 <= k < f.global_imports@.len() && (#[trigger] f.global_imports@[k]).name@
                        == x) || (exists|j2: int, k: int|
                    0 <= j2 < f.decls@.len() && 0 <= k < (#[trigger] f.decls@[j2]).usages@.len()
                        && (#[trigger] f.decls@[j2].usages@[k]).name@ == x));
            }
            assert forall|u: Seq<u8>, v: Seq<u8>|
                #![trigger self.module_graph.name_edge(u, v)]
                self.module_graph.name_edge(u, v) <==> g0.name_edge(u, v) || edge_in_file(f, u, v)
                    || global_edge_in_file(f, u, v) by {
                assert(self.module_graph.name_edge(u, v) <==> g0.name_edge(u, v) || edge_in_decls(
                    f.decls@,
                    u,
                    v,
                ) || gi_edge_decls(f.decls@, f, u, v));
                assert(edge_in_decls(f.decls@, u, v) == edge_in_file(f, u, v)) by {
                    if edge_in_decls(f.decls@, u, v) {
                        let j2 = choose|j2: int|
                            0 <= j2 < f.decls@.len() && edge_in_decl(#[trigger] f.decls@[j2], u, v);
                        assert(f.decls@[j2].name@ == u);
                        assert(edge_in_file(f, u, v));
                    }
                    if edge_in_file(f, u, v) {
                        let j2 = choose|j2: int|
                            0 <= j2 < f.decls@.len() && (#[trigger] f.decls@[j2]).name@ == u && (
                            exists|k: int|
                                0 <= k < f.decls@[j2].usages@.len() && (
                                #[trigger] f.decls@[j2].usages@[k]).name@ == v);
                        assert(edge_in_decl(f.decls@[j2], u, v));
                        assert(edge_in_decls(f.decls@, u, v));
                    }
                }
                assert(gi_edge_decls(f.decls@, f, u, v) == global_edge_in_file(f, u, v));
            }
        }
    }

    /// Build the dependency graph: register every declaration, then every
    /// usage, with a node per name and an edge from each declaration to
    /// every name it uses.  Fails if and only if one name is declared twice.
    pub fn build_graph(&mut self) -> (r: Result<(), PickleError>)
        requires
            old(self).wf(),
        ensures
            final(self).wf(),
            final(self).all_files == old(self).all_files,
            final(self).libs == old(self).libs,
            final(self).used_libs == old(self).used_libs,
            final(self).lib_attempted == old(self).lib_attempted,
            final(self).replace_table == old(self).replace_table,
            ({
                let files = old(self).all_files@;
                let cand = decls_of(files, 0);
                let combined = decls_view(old(self).declarations@) + cand;
                match r {
                    Ok(()) => {
                        &&& decl_names_unique(combined)
                        &&& decls_view(final(self).declarations@) == combined
                        &&& usages_view(final(self).usages@) == usages_view(old(self).usages@)
                            + usage_models(files, 0)
                        &&& forall|x: Seq<u8>| #![trigger final(self).module_graph.has_node(x)]
                            final(self).module_graph.has_node(x) <==> old(
                                self,
                            ).module_graph.has_node(x) || declared_in(cand, x) || used_in_files(
                                files,
                                x,
                            )
                        &&& forall|u: Seq<u8>, v: Seq<u8>|
                            #![trigger final(self).module_graph.name_edge(u, v)]
                            final(self).module_graph.name_edge(u, v) <==> old(
                                self,
                            ).module_graph.name_edge(u, v) || edge_in_files(files, u, v)
                        &&& mismatches_view(old(self).mismatches@).is_prefix_of(
                            mismatches_view(final(self).mismatches@),
                        )
                        &&& forall|l: int|
                            old(self).mismatches@.len() <= l < final(self).mismatches@.len()
                                ==> exists|i: int|
                                0 <= i < files.len() && mismatch_real(
                                    #[trigger] mismatches_view(final(self).mismatches@)[l],
                                    files[i],
                                    combined,
                                )
                    },
                    Err(e) => {
                        &&& !decl_names_unique(combined)
                        &&& (e matches PickleError::DuplicateDeclaration { name } && exists|
                            a: int,
                            b: int,
                        |
                            0 <= a < b < combined.len() && (#[trigger] combined[a]).name == (
                            #[trigger] combined[b]).name && combined[b].name == name@)
                        &&& *final(self) == *old(self)
                    },
                }
            }),
    {
        let ghost files = old(self).all_files@;
        let ghost cand = decls_of(files, 0);
        let ghost combined = decls_view(old(self).declarations@) + cand;
        let r = self.register_declarations();
        match r {
            Err(e) => {
                return Err(e);
            },
            Ok(()) => {},
        }
        let ghost g0 = self.module_graph;
        let ghost um0 = usages_view(self.usages@);
        let ghost mm0 = mismatches_view(self.mismatches@);
        proof {
            assert(r is Ok);
            assert(decls_view(self.declarations@) == combined);
            assert(decl_names_unique(combined));
            assert(um0 == usages_view(old(self).usages@));
            assert(mm0 == mismatches_view(old(self).mismatches@));
            assert forall|x: Seq<u8>| #![trigger g0.has_node(x)]
                g0.has_node(x) <==> old(self).module_graph.has_node(x) || declared_in(
                    cand,
                    x,
                ) by {
                assert(self.module_graph.has_node(x) <==> old(self).module_graph.has_node(x)
                    || declared_in(decls_of(old(self).all_files@, 0), x));
                assert(cand == decls_of(old(self).all_files@, 0));
            }
            assert forall|u: Seq<u8>, v: Seq<u8>| #![trigger g0.name_edge(u, v)]
                g0.name_edge(u, v) <==> old(self).module_graph.name_edge(u, v) by {
                assert(self.module_graph.name_edge(u, v) <==> old(self).module_graph.name_edge(
                    u,
                    v,
                ));
            }
        }
        let mut i: usize = 0;
        while i < self.all_files.len()
            invariant
                self.wf(),
                self.all_files == old(self).all_files,
                self.libs == old(self).libs,
                self.used_libs == old(self).used_libs,
                self.lib_attempted == old(self).lib_attempted,
                self.replace_table == old(self).replace_table,
                files == self.all_files@,
                i <= files.len(),
                cand == decls_of(files, 0),
                combined == decls_view(old(self).declarations@) + cand,
                decl_names_unique(combined),
                decls_view(self.declarations@) == combined,
                forall|x: Seq<u8>| #![trigger g0.has_node(x)]
                    g0.has_node(x) <==> old(self).module_graph.has_node(x) || declared_in(cand, x),
                forall|u: Seq<u8>, v: Seq<u8>| #![trigger g0.name_edge(u, v)]
                    g0.name_edge(u, v) <==> old(self).module_graph.name_edge(u, v),
                um0 == usages_view(old(self).usages@),
                mm0 == mismatches_view(old(self).mismatches@),
                usages_view(self.usages@) == um0 + usage_models(files.take(i as int), 0),
                forall|x: Seq<u8>| #![trigger self.module_graph.has_node(x)]
                    self.module_graph.has_node(x) <==> g0.has_node(x) || declared_in(cand, x) || (
                    exists|i2: int|
                        0 <= i2 < i && used_in_file(#[trigger] files[i2], x)),
                forall|u: Seq<u8>, v: Seq<u8>|
                    #![trigger self.module_graph.name_edge(u, v)]
                    self.module_graph.name_edge(u, v) <==> g0.name_edge(u, v) || (exists|i2: int|
                        0 <= i2 < i && (edge_in_file(#[trigger] files[i2], u, v)
                            || global_edge_in_file(files[i2], u, v))),
                mm0.is_prefix_of(mismatches_view(self.mismatches@)),
                forall|l: int|
                    mm0.len() <= l < self.mismatches@.len() ==> exists|i2: int|
                        0 <= i2 < files.len() && mismatch_real(
                            #[trigger] mismatches_view(self.mismatches@)[l],
                            files[i2],
                            combined,
                        ),
            decreases files.len() - i,
        {
            let ghost g_prev = self.module_graph;
            let ghost mm_head = mismatches_view(self.mismatches@);
            proof {
                assert forall|x: Seq<u8>| #![trigger g_prev.has_node(x)]
                    g_prev.has_node(x) <==> g0.has_node(x) || declared_in(cand, x) || (exists|
                        i2: int,
                    | 0 <= i2 < i && used_in_file(#[trigger] files[i2], x)) by {
                    assert(self.module_graph.has_node(x) <==> g0.has_node(x) || declared_in(
                        cand,
                        x,
                    ) || (exists|i2: int| 0 <= i2 < i && used_in_file(#[trigger] files[i2], x)));
                }
                assert forall|u: Seq<u8>, v: Seq<u8>|
                    #![trigger g_prev.name_edge(u, v)]
                    g_prev.name_edge(u, v) <==> g0.name_edge(u, v) || (exists|i2: int|
                        0 <= i2 < i && (edge_in_file(#[trigger] files[i2], u, v)
                            || global_edge_in_file(files[i2], u, v))) by {
                    assert(self.module_graph.name_edge(u, v) <==> g0.name_edge(u, v) || (exists|
                        i2: int,
                    |
                        0 <= i2 < i && (edge_in_file(#[trigger] files[i2], u, v)
                            || global_edge_in_file(files[i2], u, v))));
                }
                // every declaration of this file is in the table
                assert forall|j: int|
                    0 <= j < files[i as int].decls@.len() implies declared_in(
                    decls_view(self.declarations@),
                    (#[trigger] files[i as int].decls@[j]).name@,
                ) by {
                    lemma_decls_of_covers(files, i as int, j);
                    let w = choose|w: int|
                        0 <= w < cand.len() && (#[trigger] cand[w]).name
                            == files[i as int].decls@[j].name@;
                    let on = decls_view(old(self).declarations@).len() as int;
                    assert(decls_view(self.declarations@)[on + w].name
                        == files[i as int].decls@[j].name@);
                }
            }
            self.register_usages_file(i);
            proof {
                assert(files.take(i + 1).drop_last() =~= files.take(i as int));
                assert(files.take(i + 1).last() == files[i as int]);
                assert(usages_view(self.usages@) =~= um0 + usage_models(files.take(i + 1), 0));
                assert forall|x: Seq<u8>| #![trigger self.module_graph.has_node(x)]
                    self.module_graph.has_node(x) <==> g0.has_node(x) || declared_in(cand, x) || (
                    exists|i2: int|
                        0 <= i2 < i + 1 && used_in_file(#[trigger] files[i2], x)) by {
                    if self.module_graph.has_node(x) {
                        if g_prev.has_node(x) {
                        } else {
                            assert(used_in_file(files[i as int], x));
                        }
                    }
                    if exists|i2: int| 0 <= i2 < i + 1 && used_in_file(#[trigger] files[i2], x) {
                        let i2 = choose|i2: int|
                            0 <= i2 < i + 1 && used_in_file(#[trigger] files[i2], x);
                        if i2 < i {
                            assert(g_prev.has_node(x));
                        } else {
                            assert(self.module_graph.has_node(x));
                        }
                    }
                }
                assert forall|u: Seq<u8>, v: Seq<u8>|
                    #![trigger self.module_graph.name_edge(u, v)]
                    self.module_graph.name_edge(u, v) <==> g0.name_edge(u, v) || (exists|i2: int|
                        0 <= i2 < i + 1 && (edge_in_file(#[trigger] files[i2], u, v)
                            || global_edge_in_file(files[i2], u, v))) by {
                    if self.module_graph.name_edge(u, v) {
                        if g_prev.name_edge(u, v) {
                        } else {
                            assert(edge_in_file(files[i as int], u, v) || global_edge_in_file(
                                files[i as int],
                                u,
                                v,
                            ));
                        }
                    }
                    if exists|i2: int|
                        0 <= i2 < i + 1 && (edge_in_file(#[trigger] files[i2], u, v)
                            || global_edge_in_file(files[i2], u, v)) {
                        let i2 = choose|i2: int|
                            0 <= i2 < i + 1 && (edge_in_file(#[trigger] files[i2], u, v)
                                || global_edge_in_file(files[i2], u, v));
                        if i2 < i {
                            assert(g_prev.name_edge(u, v));
                        } else {
                            assert(self.module_graph.name_edge(u, v));
                        }
                    }
                }
                assert(mm0.is_prefix_of(mismatches_view(self.mismatches@))) by {
                    assert(mm_head.is_prefix_of(mismatches_view(self.mismatches@)));
                    assert(mismatches_view(self.mismatches@).take(mm0.len() as int) =~= mm0) by {
                        assert forall|l: int| 0 <= l < mm0.len() implies #[trigger] mismatches_view(
                            self.mismatches@,
                        )[l] == mm0[l] by {
                            assert(mismatches_view(self.mismatches@)[l] == mm_head[l]);
                        }
                    }
                }
                assert forall|l: int|
                    mm0.len() <= l < self.mismatches@.len() implies exists|i2: int|
                    0 <= i2 < files.len() && mismatch_real(
                        #[trigger] mismatches_view(self.mismatches@)[l],
                        files[i2],
                        combined,
                    ) by {
                    if l < mm_head.len() {
                        assert(mismatches_view(self.mismatches@)[l] == mm_head[l]);
                    } else {
                        assert(mismatch_real(
                            mismatches_view(self.mismatches@)[l],
                            files[i as int],
                            combined,
                        ));
                    }
                }
            }
            i += 1;
        }
        proof {
            assert(files.take(files.len() as int) =~= files);
            assert forall|x: Seq<u8>| #![trigger self.module_graph.has_node(x)]
                self.module_graph.has_node(x) <==> g0.has_node(x) || declared_in(cand, x)
                    || used_in_files(files, x) by {
                if used_in_files(files, x) {
                    let i2 = choose|i2: int|
                        0 <= i2 < files.len() && ((exists|j: int, k: int|
                            0 <= j < (#[trigger] files[i2]).decls@.len() && 0 <= k
                                < files[i2].decls@[j].usages@.len() && (
                            #[trigger] files[i2].decls@[j].usages@[k]).name@ == x) || (exists|
                            k: int,
                        |
                            0 <= k < files[i2].global_imports@.len() && (
                            #[trigger] files[i2].global_imports@[k]).name@ == x));
                    assert(used_in_file(files[i2], x));
                }
                if exists|i2: int| 0 <= i2 < files.len() && used_in_file(#[trigger] files[i2], x) {
                    let i2 = choose|i2: int|
                        0 <= i2 < files.len() && used_in_file(#[trigger] files[i2], x);
                    assert(used_in_files(files, x));
                }
            }
        }
        Ok(())
    }

    /// Append the candidate edits to the plan, or reject them all if one
    /// would overlap a planned edit or another candidate of the same file.
    fn try_add_edits(&mut self, cnd: Vec<Edit>) -> (r: Result<(), PickleError>)
        requires
            old(self).wf(),
            forall|k: int|
                0 <= k < cnd@.len() ==> edit_ok((#[trigger] cnd@[k])@, old(self).all_files@),
        ensures
            final(self).wf(),
            final(self).all_files == old(self).all_files,
            final(self).libs == old(self).libs,
            final(self).used_libs == old(self).used_libs,
            final(self).lib_attempted == old(self).lib_attempted,
            final(self).declarations == old(self).declarations,
            final(self).usages == old(self).usages,
            final(self).mismatches == old(self).mismatches,
            final(self).module_graph == old(self).module_graph,
            r is Ok <==> can_add(edits_view(old(self).replace_table@), edits_view(cnd@)),
            r is Ok ==> edits_view(final(self).replace_table@) == edits_view(
                old(self).replace_table@,
            ) + edits_view(cnd@),
            r is Err ==> *final(self) == *old(self) && r == Err::<
                (),
                PickleError,
            >(PickleError::EditOverlap { file_id: 0 }),
    {
        let ghost tv = edits_view(self.replace_table@);
        let ghost cv = edits_view(cnd@);
        // check the candidates against the plan and against each other
        let mut a: usize = 0;
        while a < cnd.len()
            invariant
                self == old(self),
                self.wf(),
                tv == edits_view(self.replace_table@),
                cv == edits_view(cnd@),
                a <= cnd@.len(),
                forall|k: int| 0 <= k < cv.len() ==> edit_ok(#[trigger] cv[k], self.all_files@),
                forall|a2: int, b: int|
                    0 <= a2 < a && 0 <= b < tv.len() && (#[trigger] cv[a2]).file_id == (
                    #[trigger] tv[b]).file_id ==> cv[a2].disjoint(tv[b]),
                forall|a2: int, b: int|
                    0 <= a2 < a && 0 <= b < cv.len() && a2 != b && (#[trigger] cv[a2]).file_id == (
                    #[trigger] cv[b]).file_id ==> cv[a2].disjoint(cv[b]),
            decreases cnd@.len() - a,
        {
            let mut b: usize = 0;
            while b < self.replace_table.len()
                invariant
                    self == old(self),
                    self.wf(),
                    tv == edits_view(self.replace_table@),
                    cv == edits_view(cnd@),
                    a < cnd@.len(),
                    forall|k: int| 0 <= k < cv.len() ==> edit_ok(#[trigger] cv[k], self.all_files@),
                    b <= tv.len(),
                    forall|b2: int|
                        0 <= b2 < b && cv[a as int].file_id == (#[trigger] tv[b2]).file_id
                            ==> cv[a as int].disjoint(tv[b2]),
                decreases tv.len() - b,
            {
                proof {
                    assert(tv[b as int] == self.replace_table@[b as int]@);
                    assert(cv[a as int] == cnd@[a as int]@);
                    assert(edit_ok(tv[b as int], self.all_files@));
                    assert(edit_ok(cv[a as int], self.all_files@));
                }
                let ea_off = cnd[a].span.offset;
                let ea_len = cnd[a].span.len;
                let eb_off = self.replace_table[b].span.offset;
                let eb_len = self.replace_table[b].span.len;
                if cnd[a].file_id == self.replace_table[b].file_id {
                    let sep = (ea_off <= eb_off && eb_off - ea_off >= ea_len) || (eb_off <= ea_off
                        && ea_off - eb_off >= eb_len);
                    proof {
                        assert(sep == cv[a as int].disjoint(tv[b as int]));
                    }
                    if !sep {
                        proof {
                            assert(!can_add(tv, cv));
                        }
                        return Err(PickleError::EditOverlap { file_id: 0 });
                    }
                }
                b += 1;
            }
            let mut b2: usize = 0;
            while b2 < cnd.len()
                invariant
                    self == old(self),
                    self.wf(),
                    tv == edits_view(self.replace_table@),
                    cv == edits_view(cnd@),
                    a < cnd@.len(),
                    forall|k: int| 0 <= k < cv.len() ==> edit_ok(#[trigger] cv[k], self.all_files@),
                    b2 <= cv.len(),
                    forall|b3: int|
                        0 <= b3 < b2 && b3 != a && cv[a as int].file_id == (
                        #[trigger] cv[b3]).file_id ==> cv[a as int].disjoint(cv[b3]),
                decreases cv.len() - b2,
            {
                if b2 != a {
                    proof {
                        assert(cv[b2 as int] == cnd@[b2 as int]@);
                        assert(cv[a as int] == cnd@[a as int]@);
                        assert(edit_ok(cv[b2 as int], self.all_files@));
                        assert(edit_ok(cv[a as int], self.all_files@));
                    }
                    let ea_off = cnd[a].span.offset;
                    let ea_len = cnd[a].span.len;
                    let eb_off = cnd[b2].span.offset;
                    let eb_len = cnd[b2].span.len;
                    if cnd[a].file_id == cnd[b2].file_id {
                        let sep = (ea_off <= eb_off && eb_off - ea_off >= ea_len) || (eb_off
                            <= ea_off && ea_off - eb_off >= eb_len);
                        proof {
                            assert(sep == cv[a as int].disjoint(cv[b2 as int]));
                        }
                        if !sep {
                            proof {
                                assert(!can_add(tv, cv));
                            }
                            return Err(PickleError::EditOverlap { file_id: 0 });
                        }
                    }
                }
                b2 += 1;
            }
            a += 1;
        }
        let ghost pre = edits_view(self.replace_table@);
        let mut cnd = cnd;
        self.replace_table.append(&mut cnd);
        proof {
            assert(edits_view(self.replace_table@) =~= pre + cv);
            assert forall|k: int|
                0 <= k < self.replace_table@.len() implies edit_ok(
                (#[trigger] self.replace_table@[k])@,
                self.all_files@,
            ) by {
                if k < pre.len() {
                    assert(self.replace_table@[k]@ == pre[k]);
                    assert(edit_ok(old(self).replace_table@[k]@, old(self).all_files@));
                } else {
                    assert(self.replace_table@[k]@ == cv[k - pre.len()]);
                }
            }
            assert(table_disjoint(edits_view(self.replace_table@))) by {
                assert forall|i: int, j: int|
                    0 <= i < edits_view(self.replace_table@).len() && 0 <= j < edits_view(
                        self.replace_table@,
                    ).len() && i != j && (#[trigger] edits_view(self.replace_table@)[i]).file_id
                        == (#[trigger] edits_view(self.replace_table@)[j]).file_id implies
                    edits_view(self.replace_table@)[i].disjoint(
                        edits_view(self.replace_table@)[j],
                    ) by {
                    let v = edits_view(self.replace_table@);
                    if i < pre.len() && j < pre.len() {
                        assert(v[i] == pre[i] && v[j] == pre[j]);
                    } else if i < pre.len() {
                        assert(v[i] == pre[i] && v[j] == cv[j - pre.len()]);
                    } else if j < pre.len() {
                        assert(v[i] == cv[i - pre.len()] && v[j] == pre[j]);
                    } else {
                        assert(v[i] == cv[i - pre.len()] && v[j] == cv[j - pre.len()]);
                    }
                }
            }
        }
        Ok(())
    }

    /// Plan the deletion of every text-macro definition.
    pub fn remove_macros(&mut self) -> (r: Result<(), PickleError>)
        requires
            old(self).wf(),
        ensures
            final(self).wf(),
            final(self).all_files == old(self).all_files,
            final(self).declarations == old(self).declarations,
            final(self).usages == old(self).usages,
            final(self).module_graph == old(self).module_graph,
            r is Ok <==> can_add(
                edits_view(old(self).replace_table@),
                macro_models(old(self).all_files@),
            ),
            r is Ok ==> edits_view(final(self).replace_table@) == edits_view(
                old(self).replace_table@,
            ) + macro_models(old(self).all_files@),
            r is Err ==> *final(self) == *old(self) && r matches Err(PickleError::EditOverlap { .. }),
    {
        let ghost files = self.all_files@;
        let mut cnd: Vec<Edit> = Vec::new();
        let mut i: usize = 0;
        while i < self.all_files.len()
            invariant
                self == old(self),
                self.wf(),
                files == self.all_files@,
                i <= files.len(),
                edits_view(cnd@) == macro_models(files.take(i as int)),
                forall|k: int|
                    0 <= k < cnd@.len() ==> edit_ok((#[trigger] cnd@[k])@, self.all_files@),
            decreases files.len() - i,
        {
            proof {
                assert(files.take(i + 1).drop_last() =~= files.take(i as int));
                assert(files.take(i + 1).last() == files[i as int]);
            }
            let mut k: usize = 0;
            while k < self.all_files[i].macro_defs.len()
                invariant
                    self == old(self),
                    self.wf(),
                    files == self.all_files@,
                    i < files.len(),
                    k <= files[i as int].macro_defs@.len(),
                    edits_view(cnd@) == macro_models(files.take(i as int)) + macro_models_of_file(
                        files[i as int],
                        i as int,
                    ).take(k as int),
                    forall|k2: int|
                        0 <= k2 < cnd@.len() ==> edit_ok((#[trigger] cnd@[k2])@, self.all_files@),
                decreases files[i as int].macro_defs@.len() - k,
            {
                let sp = self.all_files[i].macro_defs[k];
                let ghost cpre = edits_view(cnd@);
                cnd.push(Edit { file_id: i, span: sp, replacement: Vec::new() });
                proof {
                    assert(edits_view(cnd@) =~= cpre.push(
                        macro_models_of_file(files[i as int], i as int)[k as int],
                    ));
                    assert(edits_view(cnd@) =~= macro_models(files.take(i as int))
                        + macro_models_of_file(files[i as int], i as int).take(k + 1));
                    assert(files[i as int].wf());
                    assert(span_ok(files[i as int].macro_defs@[k as int], files[i as int].source@.len() as int));
                }
                k += 1;
            }
            proof {
                assert(macro_models_of_file(files[i as int], i as int).take(
                    files[i as int].macro_defs@.len() as int,
                ) =~= macro_models_of_file(files[i as int], i as int));
            }
            i += 1;
        }
        proof {
            assert(files.take(files.len() as int) =~= files);
        }
        self.try_add_edits(cnd)
    }

    /// Plan the deletion of every timeunits declaration.
    pub fn remove_timeunits(&mut self) -> (r: Result<(), PickleError>)
        requires
            old(self).wf(),
        ensures
            final(self).wf(),
            final(self).all_files == old(self).all_files,
            final(self).declarations == old(self).declarations,
            final(self).usages == old(self).usages,
            final(self).module_graph == old(self).module_graph,
            r is Ok <==> can_add(
                edits_view(old(self).replace_table@),
                timeunit_models(old(self).all_files@),
            ),
            r is Ok ==> edits_view(final(self).replace_table@) == edits_view(
                old(self).replace_table@,
            ) + timeunit_models(old(self).all_files@),
            r is Err ==> *final(self) == *old(self) && r matches Err(PickleError::EditOverlap { .. }),
    {
        let ghost files = self.all_files@;
        let mut cnd: Vec<Edit> = Vec::new();
        let mut i: usize = 0;
        while i < self.all_files.len()
            invariant
                self == old(self),
                self.wf(),
                files == self.all_files@,
                i <= files.len(),
                edits_view(cnd@) == timeunit_models(files.take(i as int)),
                forall|k: int|
                    0 <= k < cnd@.len() ==> edit_ok((#[trigger] cnd@[k])@, self.all_files@),
            decreases files.len() - i,
        {
            proof {
                assert(files.take(i + 1).drop_last() =~= files.take(i as int));
                assert(files.take(i + 1).last() == files[i as int]);
            }
            let mut k: usize = 0;
            while k < self.all_files[i].timeunits.len()
                invariant
                    self == old(self),
                    self.wf(),
                    files == self.all_files@,
                    i < files.len(),
                    k <= files[i as int].timeunits@.len(),
                    edits_view(cnd@) == timeunit_models(files.take(i as int))
                        + timeunit_models_of_file(files[i as int], i as int).take(k as int),
                    forall|k2: int|
                        0 <= k2 < cnd@.len() ==> edit_ok((#[trigger] cnd@[k2])@, self.all_files@),
                decreases files[i as int].timeunits@.len() - k,
            {
                let sp = self.all_files[i].timeunits[k];
                let ghost cpre = edits_view(cnd@);
                cnd.push(Edit { file_id: i, span: sp, replacement: Vec::new() });
                proof {
                    assert(edits_view(cnd@) =~= cpre.push(
                        timeunit_models_of_file(files[i as int], i as int)[k as int],
                    ));
                    assert(edits_view(cnd@) =~= timeunit_models(files.take(i as int))
                        + timeunit_models_of_file(files[i as int], i as int).take(k + 1));
                    assert(files[i as int].wf());
                    assert(span_ok(files[i as int].timeunits@[k as int], files[i as int].source@.len() as int));
                }
                k += 1;
            }
            proof {
                assert(timeunit_models_of_file(files[i as int], i as int).take(
                    files[i as int].timeunits@.len() as int,
                ) =~= timeunit_models_of_file(files[i as int], i as int));
            }
            i += 1;
        }
        proof {
            assert(files.take(files.len() as int) =~= files);
        }
        self.try_add_edits(cnd)
    }

    /// Plan the renames: for each declaration whose name is not excluded,
    /// replace its name token and every usage of its name by
    /// prefix + name + suffix.
    pub fn rename(
        &mut self,
        prefix: Option<&Vec<u8>>,
        suffix: Option<&Vec<u8>>,
        exclude_rename: &Vec<Vec<u8>>,
    ) -> (r: Result<(), PickleError>)
        requires
            old(self).wf(),
        ensures
            final(self).wf(),
            final(self).all_files == old(self).all_files,
            final(self).declarations == old(self).declarations,
            final(self).usages == old(self).usages,
            final(self).module_graph == old(self).module_graph,
            ({
                let pb = match prefix {
                    Some(p) => p@,
                    None => Seq::<u8>::empty(),
                };
                let sb = match suffix {
                    Some(s) => s@,
                    None => Seq::<u8>::empty(),
                };
                let cnd = rename_models(
                    decls_view(old(self).declarations@),
                    usages_view(old(self).usages@),
                    old(self).all_files@,
                    pb,
                    sb,
                    exclude_rename@,
                );
                &&& (r is Ok <==> can_add(edits_view(old(self).replace_table@), cnd))
                &&& (r is Ok ==> edits_view(final(self).replace_table@) == edits_view(
                    old(self).replace_table@,
                ) + cnd)
                &&& (r is Err ==> *final(self) == *old(self) && r matches Err(
                    PickleError::EditOverlap { .. },
                ))
            }),
    {
        let ghost files = self.all_files@;
        let ghost dv = decls_view(self.declarations@);
        let ghost uv = usages_view(self.usages@);
        let ghost pb = match prefix {
            Some(p) => p@,
            None => Seq::<u8>::empty(),
        };
        let ghost sb = match suffix {
            Some(s) => s@,
            None => Seq::<u8>::empty(),
        };
        let mut cnd: Vec<Edit> = Vec::new();
        let mut l: usize = 0;
        while l < self.declarations.len()
            invariant
                self == old(self),
                self.wf(),
                files == self.all_files@,
                dv == decls_view(self.declarations@),
                uv == usages_view(self.usages@),
                pb == (match prefix {
                    Some(p) => p@,
                    None => Seq::<u8>::empty(),
                }),
                sb == (match suffix {
                    Some(s) => s@,
                    None => Seq::<u8>::empty(),
                }),
                l <= dv.len(),
                edits_view(cnd@) == rename_models(
                    dv.take(l as int),
                    uv,
                    files,
                    pb,
                    sb,
                    exclude_rename@,
                ),
                forall|k: int|
                    0 <= k < cnd@.len() ==> edit_ok((#[trigger] cnd@[k])@, self.all_files@),
            decreases dv.len() - l,
        {
            let ghost dprefix = dv.take(l as int);
            let ghost dnext = dv.take(l + 1);
            proof {
                assert(dnext.drop_last() =~= dprefix);
                assert(dnext.last() == dv[l as int]);
                assert(dv[l as int] == self.declarations@[l as int]@);
            }
            let excluded = crate::bytes::contains_name(exclude_rename, &self.declarations[l].name);
            if !excluded {
                // the new name: prefix, name, suffix
                let mut txt: Vec<u8> = Vec::new();
                match prefix {
                    Some(p) => push_all(&mut txt, p),
                    None => {},
                }
                push_all(&mut txt, &self.declarations[l].name);
                match suffix {
                    Some(sfx) => push_all(&mut txt, sfx),
                    None => {},
                }
                proof {
                    assert(txt@ == wrapped_name(pb, dv[l as int].name, sb));
                }
                let fid = self.declarations[l].file_id;
                let didx = self.declarations[l].decl_idx;
                let isp = self.all_files[fid].decls[didx].ident;
                let mut t2: Vec<u8> = Vec::new();
                push_all(&mut t2, &txt);
                let ghost cpre = edits_view(cnd@);
                cnd.push(Edit { file_id: fid, span: isp, replacement: t2 });
                proof {
                    assert(edits_view(cnd@) =~= cpre.push(
                        ident_rename_model(dv[l as int], files, wrapped_name(pb, dv[l as int].name, sb)),
                    ));
                    assert(files[dv[l as int].file_id].wf());
                    assert(files[dv[l as int].file_id].decls@[dv[l as int].decl_idx].wf(
                        files[dv[l as int].file_id].source@.len() as int,
                    ));
                }
                // one edit per usage of this name
                let mut u: usize = 0;
                while u < self.usages.len()
                    invariant
                        self == old(self),
                        self.wf(),
                        files == self.all_files@,
                        dv == decls_view(self.declarations@),
                        uv == usages_view(self.usages@),
                        l < dv.len(),
                        u <= uv.len(),
                        txt@ == wrapped_name(pb, dv[l as int].name, sb),
                        edits_view(cnd@) == rename_models(
                            dv.take(l as int),
                            uv,
                            files,
                            pb,
                            sb,
                            exclude_rename@,
                        ) + seq![
                            ident_rename_model(
                                dv[l as int],
                                files,
                                wrapped_name(pb, dv[l as int].name, sb),
                            ),
                        ] + usage_rename_models(
                            uv.take(u as int),
                            dv[l as int].name,
                            wrapped_name(pb, dv[l as int].name, sb),
                        ),
                        forall|k: int|
                            0 <= k < cnd@.len() ==> edit_ok(
                                (#[trigger] cnd@[k])@,
                                self.all_files@,
                            ),
                    decreases uv.len() - u,
                {
                    proof {
                        assert(uv.take(u + 1).drop_last() =~= uv.take(u as int));
                        assert(uv.take(u + 1).last() == uv[u as int]);
                        assert(uv[u as int] == self.usages@[u as int]@);
                    }
                    if bytes_eq(&self.usages[u].name, &self.declarations[l].name) {
                        let ufid = self.usages[u].file_id;
                        let utok = self.usages[u].token;
                        let mut t3: Vec<u8> = Vec::new();
                        push_all(&mut t3, &txt);
                        let ghost cpre2 = edits_view(cnd@);
                        cnd.push(Edit { file_id: ufid, span: utok, replacement: t3 });
                        proof {
                            assert(edits_view(cnd@) =~= cpre2.push(
                                EditModel {
                                    file_id: uv[u as int].file_id,
                                    offset: uv[u as int].offset,
                                    len: uv[u as int].len,
                                    text: wrapped_name(pb, dv[l as int].name, sb),
                                },
                            ));
                            assert(usage_rename_models(
                                uv.take(u + 1),
                                dv[l as int].name,
                                wrapped_name(pb, dv[l as int].name, sb),
                            ) =~= usage_rename_models(
                                uv.take(u as int),
                                dv[l as int].name,
                                wrapped_name(pb, dv[l as int].name, sb),
                            ).push(
                                EditModel {
                                    file_id: uv[u as int].file_id,
                                    offset: uv[u as int].offset,
                                    len: uv[u as int].len,
                                    text: wrapped_name(pb, dv[l as int].name, sb),
                                },
                            ));
                            assert(edits_view(cnd@) =~= rename_models(
                                dv.take(l as int),
                                uv,
                                files,
                                pb,
                                sb,
                                exclude_rename@,
                            ) + seq![
                                ident_rename_model(
                                    dv[l as int],
                                    files,
                                    wrapped_name(pb, dv[l as int].name, sb),
                                ),
                            ] + usage_rename_models(
                                uv.take(u + 1),
                                dv[l as int].name,
                                wrapped_name(pb, dv[l as int].name, sb),
                            ));
                            assert(usage_entry_ok(uv[u as int], files));
                        }
                    } else {
                        proof {
                            assert(usage_rename_models(
                                uv.take(u + 1),
                                dv[l as int].name,
                                wrapped_name(pb, dv[l as int].name, sb),
                            ) =~= usage_rename_models(
                                uv.take(u as int),
                                dv[l as int].name,
                                wrapped_name(pb, dv[l as int].name, sb),
                            ));
                        }
                    }
                    u += 1;
                }
                proof {
                    assert(uv.take(uv.len() as int) =~= uv);
                    assert(edits_view(cnd@) =~= rename_models(
                        dnext,
                        uv,
                        files,
                        pb,
                        sb,
                        exclude_rename@,
                    ));
                }
            } else {
                proof {
                    assert(seq_name_in(exclude_rename@, dv[l as int].name));
                    assert(edits_view(cnd@) =~= rename_models(
                        dnext,
                        uv,
                        files,
                        pb,
                        sb,
                        exclude_rename@,
                    ));
                }
            }
            l += 1;
        }
        proof {
            assert(dv.take(dv.len() as int) =~= dv);
        }
        self.try_add_edits(cnd)
    }

    /// Prune everything the top does not reach: the graph keeps only the
    /// nodes reachable from `top_module`, and the declaration and usage
    /// tables keep only entries whose name survives.  Fails if and only if
    /// `top_module` is not a node.
    #[verifier::rlimit(100)]
    #[verifier::spinoff_prover]
    pub fn prune_graph(&mut self, top_module: &Vec<u8>) -> (r: Result<(), PickleError>)
        requires
            old(self).wf(),
        ensures
            final(self).wf(),
            final(self).all_files == old(self).all_files,
            final(self).libs == old(self).libs,
            final(self).used_libs == old(self).used_libs,
            final(self).lib_attempted == old(self).lib_attempted,
            final(self).replace_table == old(self).replace_table,
            final(self).mismatches == old(self).mismatches,
            r is Ok <==> old(self).module_graph.has_node(top_module@),
            r is Err ==> *final(self) == *old(self) && (r matches Err(
                PickleError::TopNotFound { name },
            ) && name@ == top_module@),
            r is Ok ==> ({
                &&& forall|x: Seq<u8>| #![trigger final(self).module_graph.has_node(x)]
                    final(self).module_graph.has_node(x) <==> old(self).module_graph.has_node(x)
                        && old(self).module_graph.name_reaches(top_module@, x)
                &&& forall|u: Seq<u8>, v: Seq<u8>|
                    #![trigger final(self).module_graph.name_edge(u, v)]
                    final(self).module_graph.name_edge(u, v) <==> old(self).module_graph.name_edge(
                        u,
                        v,
                    ) && old(self).module_graph.name_reaches(top_module@, u) && old(
                        self,
                    ).module_graph.name_reaches(top_module@, v)
                &&& forall|k: int|
                    #![trigger decls_view(final(self).declarations@)[k]]
                    0 <= k < final(self).declarations@.len() ==> old(
                        self,
                    ).module_graph.name_reaches(
                        top_module@,
                        decls_view(final(self).declarations@)[k].name,
                    )
                &&& forall|k: int|
                    #![trigger decls_view(old(self).declarations@)[k]]
                    0 <= k < old(self).declarations@.len() ==> (old(
                        self,
                    ).module_graph.name_reaches(
                        top_module@,
                        decls_view(old(self).declarations@)[k].name,
                    ) <==> declared_in(
                        decls_view(final(self).declarations@),
                        decls_view(old(self).declarations@)[k].name,
                    ))
                &&& forall|x: Seq<u8>|
                    declared_in(decls_view(final(self).declarations@), x) ==> declared_in(
                        decls_view(old(self).declarations@),
                        x,
                    )
                &&& usages_view(final(self).usages@) == kept_usage_entries(
                    usages_view(old(self).usages@),
                    final(self).module_graph,
                )
            }),
    {
        let ghost g_old = self.module_graph;
        let ti_opt = self.module_graph.find(top_module);
        let ti = match ti_opt {
            Some(t) => t,
            None => {
                return Err(PickleError::TopNotFound { name: top_module.clone() });
            },
        };
        proof {
            assert(g_old.has_node(top_module@));
        }
        let keep = self.module_graph.prune_from(ti);
        proof {
            DepGraph::lemma_prune_nodes(g_old, self.module_graph, keep@, ti as int, top_module@);
            DepGraph::lemma_prune_edges(g_old, self.module_graph, keep@, ti as int, top_module@);
        }
        self.retain_tables(Ghost(g_old), Ghost(top_module@));
        Ok(())
    }

    /// Keep only the declaration and usage entries whose name is still a
    /// graph node.
    #[verifier::rlimit(100)]
    #[verifier::spinoff_prover]
    fn retain_tables(&mut self, g_old: Ghost<DepGraph>, top: Ghost<Seq<u8>>)
        requires
            old(self).module_graph.wf(),
            forall|i: int| 0 <= i < old(self).all_files@.len() ==> (#[trigger] old(self).all_files@[i]).wf(),
            forall|k: int|
                0 <= k < old(self).declarations@.len() ==> decl_entry_ok(
                    (#[trigger] old(self).declarations@[k])@,
                    old(self).all_files@,
                ),
            decl_names_unique(decls_view(old(self).declarations@)),
            forall|k: int|
                0 <= k < old(self).usages@.len() ==> usage_entry_ok(
                    (#[trigger] old(self).usages@[k])@,
                    old(self).all_files@,
                ),
            forall|k: int|
                0 <= k < old(self).replace_table@.len() ==> edit_ok(
                    (#[trigger] old(self).replace_table@[k])@,
                    old(self).all_files@,
                ),
            table_disjoint(edits_view(old(self).replace_table@)),
            old(self).lib_attempted@.map_values(|v: Vec<u8>| v@).no_duplicates(),
            (old(self).libs is None ==> old(self).lib_attempted@.len() == 0),
            forall|k: int|
                0 <= k < old(self).lib_attempted@.len() ==> lib_has(
                    old(self).libs.unwrap().files@,
                    (#[trigger] old(self).lib_attempted@[k])@,
                ),
            forall|x: Seq<u8>| #![trigger old(self).module_graph.has_node(x)]
                old(self).module_graph.has_node(x) <==> g_old@.has_node(x) && g_old@.name_reaches(
                    top@,
                    x,
                ),
        ensures
            final(self).wf(),
            final(self).all_files == old(self).all_files,
            final(self).libs == old(self).libs,
            final(self).used_libs == old(self).used_libs,
            final(self).lib_attempted == old(self).lib_attempted,
            final(self).replace_table == old(self).replace_table,
            final(self).mismatches == old(self).mismatches,
            final(self).module_graph == old(self).module_graph,
            forall|k: int|
                #![trigger decls_view(final(self).declarations@)[k]]
                0 <= k < final(self).declarations@.len() ==> g_old@.name_reaches(
                    top@,
                    decls_view(final(self).declarations@)[k].name,
                ),
            forall|k: int|
                #![trigger decls_view(old(self).declarations@)[k]]
                0 <= k < old(self).declarations@.len() ==> (g_old@.name_reaches(
                    top@,
                    decls_view(old(self).declarations@)[k].name,
                ) <==> declared_in(
                    decls_view(final(self).declarations@),
                    decls_view(old(self).declarations@)[k].name,
                )),
            forall|x: Seq<u8>|
                declared_in(decls_view(final(self).declarations@), x) ==> declared_in(
                    decls_view(old(self).declarations@),
                    x,
                ),
            usages_view(final(self).usages@) == kept_usage_entries(
                usages_view(old(self).usages@),
                final(self).module_graph,
            ),
    {
        let ghost tv_old = decls_view(self.declarations@);
        let ghost g_new = self.module_graph;
        let mut kept_decls: Vec<Declaration> = Vec::new();
        let mut l: usize = 0;
        while l < self.declarations.len()
            invariant
                self == old(self),
                self.module_graph.wf(),
                tv_old == decls_view(self.declarations@),
                decl_names_unique(tv_old),
                g_new == self.module_graph,
                l <= tv_old.len(),
                forall|k: int|
                    0 <= k < kept_decls@.len() ==> exists|k2: int|
                        0 <= k2 < l && (#[trigger] kept_decls@[k])@ == tv_old[k2]
                            && g_new.has_node(tv_old[k2].name),
                forall|k2: int|
                    0 <= k2 < l && g_new.has_node((#[trigger] tv_old[k2]).name) ==> exists|k: int|
                        0 <= k < kept_decls@.len() && (#[trigger] kept_decls@[k])@ == tv_old[k2],
                forall|a: int, b: int|
                    0 <= a < b < kept_decls@.len() ==> (#[trigger] kept_decls@[a])@.name != (
                    #[trigger] kept_decls@[b])@.name,
            decreases tv_old.len() - l,
        {
            let hit = self.module_graph.find(&self.declarations[l].name);
            let ghost kd_pre = kept_decls@;
            match hit {
                Some(_) => {
                    let mut nm: Vec<u8> = Vec::new();
                    push_all(&mut nm, &self.declarations[l].name);
                    let d = Declaration {
                        name: nm,
                        kind: self.declarations[l].kind,
                        file_id: self.declarations[l].file_id,
                        decl_idx: self.declarations[l].decl_idx,
                    };
                    proof {
                        assert(d@ =~= tv_old[l as int]);
                        assert(g_new.has_node(tv_old[l as int].name));
                    }
                    kept_decls.push(d);
                    proof {
                        assert forall|k: int|
                            0 <= k < kept_decls@.len() implies exists|k2: int|
                            0 <= k2 < l + 1 && (#[trigger] kept_decls@[k])@ == tv_old[k2]
                                && g_new.has_node(tv_old[k2].name) by {
                            if k < kd_pre.len() {
                                assert(kept_decls@[k]@ == kd_pre[k]@);
                                let k2 = choose|k2: int|
                                    0 <= k2 < l && (#[trigger] kd_pre[k])@ == tv_old[k2]
                                        && g_new.has_node(tv_old[k2].name);
                            } else {
                                assert(kept_decls@[k]@ == tv_old[l as int]);
                            }
                        }
                        assert forall|a: int, b: int|
                            0 <= a < b < kept_decls@.len() implies (
                        #[trigger] kept_decls@[a])@.name != (#[trigger] kept_decls@[b])@.name by {
                            if b == kd_pre.len() as int {
                                let k2 = choose|k2: int|
                                    0 <= k2 < l && (#[trigger] kd_pre[a])@ == tv_old[k2]
                                        && g_new.has_node(tv_old[k2].name);
                                assert(kept_decls@[a]@ == tv_old[k2]);
                                assert(kept_decls@[b]@ == tv_old[l as int]);
                                assert(tv_old[k2].name != tv_old[l as int].name);
                            } else {
                                assert(kept_decls@[a]@ == kd_pre[a]@ && kept_decls@[b]@
                                    == kd_pre[b]@);
                            }
                        }
                        assert forall|k2: int|
                            0 <= k2 < l + 1 && g_new.has_node((#[trigger] tv_old[k2]).name)
                                implies exists|k: int|
                            0 <= k < kept_decls@.len() && (#[trigger] kept_decls@[k])@
                                == tv_old[k2] by {
                            if k2 < l {
                                let k = choose|k: int|
                                    0 <= k < kd_pre.len() && (#[trigger] kd_pre[k])@ == tv_old[k2];
                                assert(kept_decls@[k]@ == tv_old[k2]);
                            } else {
                                assert(kept_decls@[kd_pre.len() as int]@ == tv_old[k2]);
                            }
                        }
                    }
                },
                None => {
                    proof {
                        assert(!g_new.has_node(tv_old[l as int].name));
                        assert forall|k: int|
                            0 <= k < kept_decls@.len() implies exists|k2: int|
                            0 <= k2 < l + 1 && (#[trigger] kept_decls@[k])@ == tv_old[k2]
                                && g_new.has_node(tv_old[k2].name) by {
                            let k2 = choose|k2: int|
                                0 <= k2 < l && (#[trigger] kept_decls@[k])@ == tv_old[k2]
                                    && g_new.has_node(tv_old[k2].name);
                        }
                        assert forall|k2: int|
                            0 <= k2 < l + 1 && g_new.has_node((#[trigger] tv_old[k2]).name)
                                implies exists|k: int|
                            0 <= k < kept_decls@.len() && (#[trigger] kept_decls@[k])@
                                == tv_old[k2] by {
                            if k2 < l {
                                let k = choose|k: int|
                                    0 <= k < kept_decls@.len() && (#[trigger] kept_decls@[k])@
                                        == tv_old[k2];
                            } else {
                                assert(false);
                            }
                        }
                    }
                },
            }
            l += 1;
        }
        self.declarations = kept_decls;
        proof {
            assert forall|k: int|
                0 <= k < self.declarations@.len() implies decl_entry_ok(
                (#[trigger] self.declarations@[k])@,
                self.all_files@,
            ) && self.module_graph.has_node(self.declarations@[k]@.name) by {
                let k2 = choose|k2: int|
                    0 <= k2 < tv_old.len() && (#[trigger] self.declarations@[k]@) == tv_old[k2]
                        && g_new.has_node(tv_old[k2].name);
                assert(decl_entry_ok(tv_old[k2], self.all_files@));
            }
            assert(decl_names_unique(decls_view(self.declarations@))) by {
                assert forall|a: int, b: int|
                    0 <= a < b < decls_view(self.declarations@).len() implies (
                #[trigger] decls_view(self.declarations@)[a]).name != (#[trigger] decls_view(
                    self.declarations@,
                )[b]).name by {
                    assert(self.declarations@[a]@.name != self.declarations@[b]@.name);
                }
            }
            assert forall|k: int|
                #![trigger decls_view(self.declarations@)[k]]
                0 <= k < self.declarations@.len() implies g_old@.name_reaches(
                top@,
                decls_view(self.declarations@)[k].name,
            ) by {
                let k2 = choose|k2: int|
                    0 <= k2 < tv_old.len() && (#[trigger] self.declarations@[k]@) == tv_old[k2]
                        && g_new.has_node(tv_old[k2].name);
            }
            assert forall|k: int|
                #![trigger tv_old[k]]
                0 <= k < tv_old.len() implies (g_old@.name_reaches(top@, tv_old[k].name)
                    <==> declared_in(decls_view(self.declarations@), tv_old[k].name)) by {
                if g_old@.name_reaches(top@, tv_old[k].name) {
                    assert(g_old@.has_node(tv_old[k].name)) by {
                        let (a, b) = choose|a: int, b: int|
                            g_old@.node_alive(a) && g_old@.node_alive(b) && g_old@.names@[a]@
                                == top@ && g_old@.names@[b]@ == tv_old[k].name
                                && #[trigger] g_old@.reaches(a, b);
                        assert(g_old@.names@[b]@ == tv_old[k].name);
                    }
                    assert(g_new.has_node(tv_old[k].name));
                    let kk = choose|kk: int|
                        0 <= kk < kept_decls@.len() && (#[trigger] kept_decls@[kk])@ == tv_old[k];
                    assert(decls_view(self.declarations@)[kk].name == tv_old[k].name);
                }
                if declared_in(decls_view(self.declarations@), tv_old[k].name) {
                    let w = choose|w: int|
                        0 <= w < decls_view(self.declarations@).len() && (#[trigger] decls_view(
                            self.declarations@,
                        )[w]).name == tv_old[k].name;
                    let k2 = choose|k2: int|
                        0 <= k2 < tv_old.len() && (#[trigger] self.declarations@[w]@) == tv_old[k2]
                            && g_new.has_node(tv_old[k2].name);
                }
            }
            assert forall|x: Seq<u8>|
                declared_in(decls_view(self.declarations@), x) implies declared_in(
                tv_old,
                x,
            ) by {
                let w = choose|w: int|
                    0 <= w < decls_view(self.declarations@).len() && (#[trigger] decls_view(
                        self.declarations@,
                    )[w]).name == x;
                let k2 = choose|k2: int|
                    0 <= k2 < tv_old.len() && (#[trigger] self.declarations@[w]@) == tv_old[k2]
                        && g_new.has_node(tv_old[k2].name);
            }
        }
        let ghost mid = *self;
        self.retain_used_entries();
        proof {
            assert(mid.usages == old(self).usages);
            assert(mid.module_graph == self.module_graph);
            assert(usages_view(self.usages@) == kept_usage_entries(
                usages_view(old(self).usages@),
                self.module_graph,
            ));
        }
    }

    /// Keep only the usage entries whose name is still a graph node.
    #[verifier::rlimit(60)]
    #[verifier::spinoff_prover]
    fn retain_used_entries(&mut self)
        requires
            old(self).module_graph.wf(),
            forall|k: int|
                0 <= k < old(self).usages@.len() ==> usage_entry_ok(
                    (#[trigger] old(self).usages@[k])@,
                    old(self).all_files@,
                ),
        ensures
            final(self).all_files == old(self).all_files,
            final(self).libs == old(self).libs,
            final(self).used_libs == old(self).used_libs,
            final(self).lib_attempted == old(self).lib_attempted,
            final(self).declarations == old(self).declarations,
            final(self).replace_table == old(self).replace_table,
            final(self).mismatches == old(self).mismatches,
            final(self).module_graph == old(self).module_graph,
            usages_view(final(self).usages@) == kept_usage_entries(
                usages_view(old(self).usages@),
                old(self).module_graph,
            ),
            forall|k: int|
                0 <= k < final(self).usages@.len() ==> usage_entry_ok(
                    (#[trigger] final(self).usages@[k])@,
                    old(self).all_files@,
                ) && final(self).module_graph.has_node(final(self).usages@[k]@.name),
    {
        let ghost uv = usages_view(self.usages@);
        let mut kept: Vec<UsageEntry> = Vec::new();
        let mut u: usize = 0;
        while u < self.usages.len()
            invariant
                self == old(self),
                self.module_graph.wf(),
                uv == usages_view(self.usages@),
                forall|k: int|
                    0 <= k < self.usages@.len() ==> usage_entry_ok(
                        (#[trigger] self.usages@[k])@,
                        self.all_files@,
                    ),
                u <= uv.len(),
                usages_view(kept@) == kept_usage_entries(uv.take(u as int), self.module_graph),
                forall|k: int|
                    0 <= k < kept@.len() ==> usage_entry_ok(
                        (#[trigger] kept@[k])@,
                        self.all_files@,
                    ) && self.module_graph.has_node(kept@[k]@.name),
            decreases uv.len() - u,
        {
            proof {
                assert(uv.take(u + 1).drop_last() =~= uv.take(u as int));
                assert(uv.take(u + 1).last() == uv[u as int]);
                assert(uv[u as int] == self.usages@[u as int]@);
            }
            let hit = self.module_graph.find(&self.usages[u].name);
            match hit {
                Some(_) => {
                    let mut nm: Vec<u8> = Vec::new();
                    push_all(&mut nm, &self.usages[u].name);
                    let e = UsageEntry {
                        name: nm,
                        kind: self.usages[u].kind,
                        file_id: self.usages[u].file_id,
                        token: self.usages[u].token,
                    };
                    let ghost kv_pre = usages_view(kept@);
                    proof {
                        assert(e@ =~= uv[u as int]);
                        assert(self.module_graph.has_node(uv[u as int].name));
                    }
                    kept.push(e);
                    proof {
                        assert(usages_view(kept@) =~= kv_pre.push(uv[u as int]));
                        assert(usages_view(kept@) =~= kept_usage_entries(
                            uv.take(u + 1),
                            self.module_graph,
                        ));
                    }
                },
                None => {
                    proof {
                        assert(!self.module_graph.has_node(uv[u as int].name));
                        assert(usages_view(kept@) =~= kept_usage_entries(
                            uv.take(u + 1),
                            self.module_graph,
                        ));
                    }
                },
            }
            u += 1;
        }
        proof {
            assert(uv.take(uv.len() as int) =~= uv);
        }
        self.usages = kept;
    }

    /// Plan the expansion of `.*` port wildcards: for each instantiation
    /// that uses one, connect every declared port of the instantiated module
    /// that is not yet connected, in declaration order.  Fails with
    /// `DotStarTargetUndeclared` if and only if a wildcard instantiation
    /// names an undeclared module.
    pub fn infer_dot_star(&mut self) -> (r: Result<(), PickleError>)
        requires
            old(self).wf(),
        ensures
            final(self).wf(),
            final(self).all_files == old(self).all_files,
            final(self).declarations == old(self).declarations,
            final(self).usages == old(self).usages,
            final(self).module_graph == old(self).module_graph,
            r matches Err(PickleError::DotStarTargetUndeclared { .. }) <==> (exists|
                i: int,
                j: int,
                k: int,
            |
                0 <= i < old(self).all_files@.len() && 0 <= j < (
                #[trigger] old(self).all_files@[i]).decls@.len() && 0 <= k
                    < old(self).all_files@[i].decls@[j].insts@.len() && !declared_in(
                    decls_view(old(self).declarations@),
                    (#[trigger] old(self).all_files@[i].decls@[j].insts@[k]).target@,
                )),
            r matches Err(PickleError::DotStarTargetUndeclared { .. }) ==> *final(self) == *old(
                self,
            ),
            r is Ok ==> edits_view(final(self).replace_table@) == edits_view(
                old(self).replace_table@,
            ) + dot_star_models(old(self).all_files@, decls_view(old(self).declarations@)),
            r matches Err(PickleError::EditOverlap { .. }) ==> *final(self) == *old(self)
                && !can_add(
                edits_view(old(self).replace_table@),
                dot_star_models(old(self).all_files@, decls_view(old(self).declarations@)),
            ),
            r is Ok ==> can_add(
                edits_view(old(self).replace_table@),
                dot_star_models(old(self).all_files@, decls_view(old(self).declarations@)),
            ),
    {
        let ghost files = self.all_files@;
        let ghost tv = decls_view(self.declarations@);
        let mut cnd: Vec<Edit> = Vec::new();
        let mut i: usize = 0;
        while i < self.all_files.len()
            invariant
                self == old(self),
                self.wf(),
                files == self.all_files@,
                tv == decls_view(self.declarations@),
                i <= files.len(),
                edits_view(cnd@) == dot_star_models_upto(files, i as int, tv),
                forall|k: int|
                    0 <= k < cnd@.len() ==> edit_ok((#[trigger] cnd@[k])@, self.all_files@),
                forall|i2: int, j2: int, k2: int|
                    0 <= i2 < i && 0 <= j2 < (#[trigger] files[i2]).decls@.len() && 0 <= k2 < (
                    #[trigger] files[i2].decls@[j2]).insts@.len() ==> declared_in(
                        tv,
                        (#[trigger] files[i2].decls@[j2].insts@[k2]).target@,
                    ),
            decreases files.len() - i,
        {
            proof {
                assert(files.take(i + 1).drop_last() =~= files.take(i as int));
                assert(files.take(i + 1).last() == files[i as int]);
            }
            let mut j: usize = 0;
            while j < self.all_files[i].decls.len()
                invariant
                    self == old(self),
                    self.wf(),
                    files == self.all_files@,
                    tv == decls_view(self.declarations@),
                    i < files.len(),
                    j <= files[i as int].decls@.len(),
                    edits_view(cnd@) == dot_star_models_upto(files, i as int, tv)
                        + dot_star_models_of_decls(
                        files[i as int].decls@.take(j as int),
                        i as int,
                        files,
                        tv,
                    ),
                    forall|k: int|
                        0 <= k < cnd@.len() ==> edit_ok((#[trigger] cnd@[k])@, self.all_files@),
                    forall|i2: int, j2: int, k2: int|
                        0 <= i2 < i && 0 <= j2 < (#[trigger] files[i2]).decls@.len() && 0 <= k2 < (
                        #[trigger] files[i2].decls@[j2]).insts@.len() ==> declared_in(
                            tv,
                            (#[trigger] files[i2].decls@[j2].insts@[k2]).target@,
                        ),
                    forall|j2: int, k2: int|
                        0 <= j2 < j && 0 <= k2 < (
                        #[trigger] files[i as int].decls@[j2]).insts@.len() ==> declared_in(
                            tv,
                            (#[trigger] files[i as int].decls@[j2].insts@[k2]).target@,
                        ),
                decreases files[i as int].decls@.len() - j,
            {
                proof {
                    let ds = files[i as int].decls@;
                    assert(ds.take(j + 1).drop_last() =~= ds.take(j as int));
                    assert(ds.take(j + 1).last() == ds[j as int]);
                }
                let mut k: usize = 0;
                while k < self.all_files[i].decls[j].insts.len()
                    invariant
                        self == old(self),
                        self.wf(),
                        files == self.all_files@,
                        tv == decls_view(self.declarations@),
                        i < files.len(),
                        j < files[i as int].decls@.len(),
                        k <= files[i as int].decls@[j as int].insts@.len(),
                        edits_view(cnd@) == dot_star_models_upto(files, i as int, tv)
                            + dot_star_models_of_decls(
                            files[i as int].decls@.take(j as int),
                            i as int,
                            files,
                            tv,
                        ) + dot_star_models_of_insts(
                            files[i as int].decls@[j as int].insts@.take(k as int),
                            i as int,
                            files,
                            tv,
                        ),
                        forall|k2: int|
                            0 <= k2 < cnd@.len() ==> edit_ok(
                                (#[trigger] cnd@[k2])@,
                                self.all_files@,
                            ),
                        forall|k2: int|
                            0 <= k2 < k ==> declared_in(
                                tv,
                                (#[trigger] files[i as int].decls@[j as int].insts@[k2]).target@,
                            ),
                    decreases files[i as int].decls@[j as int].insts@.len() - k,
                {
                    let ghost insts = files[i as int].decls@[j as int].insts@;
                    proof {
                        assert(insts.take(k + 1).drop_last() =~= insts.take(k as int));
                        assert(insts.take(k + 1).last() == insts[k as int]);
                    }
                    let hit = self.lookup_decl(&self.all_files[i].decls[j].insts[k].target);
                    let di = match hit {
                        Some(d) => d,
                        None => {
                            let mut nm: Vec<u8> = Vec::new();
                            push_all(
                                &mut nm,
                                &self.all_files[i].decls[j].insts[k].target,
                            );
                            proof {
                                assert(!declared_in(tv, insts[k as int].target@));
                            }
                            return Err(PickleError::DotStarTargetUndeclared { name: nm });
                        },
                    };
                    proof {
                        assert(tv[di as int].name == insts[k as int].target@);
                        lemma_declared_lookup(tv, di as int, insts[k as int].target@);
                    }
                    let tfid = self.declarations[di].file_id;
                    let tidx = self.declarations[di].decl_idx;
                    // the declared ports not yet connected, in declaration order
                    let mut rem: Vec<Vec<u8>> = Vec::new();
                    let mut p: usize = 0;
                    while p < self.all_files[tfid].decls[tidx].ports.len()
                        invariant
                            self == old(self),
                            self.wf(),
                            files == self.all_files@,
                            i < files.len(),
                            j < files[i as int].decls@.len(),
                            k < files[i as int].decls@[j as int].insts@.len(),
                            tfid < files.len(),
                            tidx < files[tfid as int].decls@.len(),
                            p <= files[tfid as int].decls@[tidx as int].ports@.len(),
                            rem@.map_values(|v: Vec<u8>| v@) == remaining_ports(
                                files[tfid as int].decls@[tidx as int].ports@.take(p as int),
                                files[i as int].decls@[j as int].insts@[k as int].connected@,
                            ),
                        decreases files[tfid as int].decls@[tidx as int].ports@.len() - p,
                    {
                        let ghost ports = files[tfid as int].decls@[tidx as int].ports@;
                        proof {
                            assert(ports.take(p + 1).drop_last() =~= ports.take(p as int));
                            assert(ports.take(p + 1).last() == ports[p as int]);
                        }
                        let connected = crate::bytes::contains_name(
                            &self.all_files[i].decls[j].insts[k].connected,
                            &self.all_files[tfid].decls[tidx].ports[p],
                        );
                        if !connected {
                            let mut pn: Vec<u8> = Vec::new();
                            push_all(&mut pn, &self.all_files[tfid].decls[tidx].ports[p]);
                            let ghost rpre = rem@.map_values(|v: Vec<u8>| v@);
                            rem.push(pn);
                            proof {
                                assert(rem@.map_values(|v: Vec<u8>| v@) =~= rpre.push(
                                    ports[p as int]@,
                                ));
                                assert(rem@.map_values(|v: Vec<u8>| v@) =~= remaining_ports(
                                    ports.take(p + 1),
                                    files[i as int].decls@[j as int].insts@[k as int].connected@,
                                ));
                            }
                        } else {
                            proof {
                                assert(rem@.map_values(|v: Vec<u8>| v@) =~= remaining_ports(
                                    ports.take(p + 1),
                                    files[i as int].decls@[j as int].insts@[k as int].connected@,
                                ));
                            }
                        }
                        p += 1;
                    }
                    proof {
                        let ports = files[tfid as int].decls@[tidx as int].ports@;
                        assert(ports.take(ports.len() as int) =~= ports);
                    }
                    // the replacement text: `.p(p), .q(q)` for what remains
                    let mut txt: Vec<u8> = Vec::new();
                    let mut q: usize = 0;
                    while q < rem.len()
                        invariant
                            q <= rem@.len(),
                            txt@ == ports_text(rem@.map_values(|v: Vec<u8>| v@).take(q as int)),
                        decreases rem@.len() - q,
                    {
                        let ghost rv = rem@.map_values(|v: Vec<u8>| v@);
                        proof {
                            assert(rv.take(q + 1).drop_last() =~= rv.take(q as int));
                            assert(rv.take(q + 1).last() == rv[q as int]);
                        }
                        if q > 0 {
                            txt.push(44u8);
                            txt.push(32u8);
                        }
                        txt.push(46u8);
                        push_all(&mut txt, &rem[q]);
                        txt.push(40u8);
                        push_all(&mut txt, &rem[q]);
                        txt.push(41u8);
                        proof {
                            assert(txt@ =~= ports_text(rv.take(q + 1)));
                        }
                        q += 1;
                    }
                    proof {
                        let rv = rem@.map_values(|v: Vec<u8>| v@);
                        assert(rv.take(rv.len() as int) =~= rv);
                    }
                    let sp = self.all_files[i].decls[j].insts[k].dot_star;
                    let ghost cpre = edits_view(cnd@);
                    cnd.push(Edit { file_id: i, span: sp, replacement: txt });
                    proof {
                        assert(files[i as int].wf());
                        assert(files[i as int].decls@[j as int].wf(
                            files[i as int].source@.len() as int,
                        ));
                        assert(files[i as int].decls@[j as int].insts@[k as int].wf(
                            files[i as int].source@.len() as int,
                        ));
                        assert(edits_view(cnd@) =~= cpre.push(
                            dot_star_model_of_inst(insts[k as int], i as int, files, tv),
                        ));
                        assert(dot_star_models_of_insts(
                            insts.take(k + 1),
                            i as int,
                            files,
                            tv,
                        ) =~= dot_star_models_of_insts(
                            insts.take(k as int),
                            i as int,
                            files,
                            tv,
                        ).push(dot_star_model_of_inst(insts[k as int], i as int, files, tv)));
                        assert(edits_view(cnd@) =~= dot_star_models_upto(files, i as int, tv)
                            + dot_star_models_of_decls(
                            files[i as int].decls@.take(j as int),
                            i as int,
                            files,
                            tv,
                        ) + dot_star_models_of_insts(insts.take(k + 1), i as int, files, tv));
                    }
                    k += 1;
                }
                proof {
                    let insts = files[i as int].decls@[j as int].insts@;
                    assert(insts.take(insts.len() as int) =~= insts);
                    assert(dot_star_models_of_decls(
                        files[i as int].decls@.take(j + 1),
                        i as int,
                        files,
                        tv,
                    ) =~= dot_star_models_of_decls(
                        files[i as int].decls@.take(j as int),
                        i as int,
                        files,
                        tv,
                    ) + dot_star_models_of_insts(insts, i as int, files, tv));
                }
                j += 1;
            }
            proof {
                let ds = files[i as int].decls@;
                assert(ds.take(ds.len() as int) =~= ds);
                assert(dot_star_models_upto(files, i + 1, tv) =~= dot_star_models_upto(
                    files,
                    i as int,
                    tv,
                ) + dot_star_models_of_decls(ds, i as int, files, tv));
            }
            i += 1;
        }
        proof {
            assert(files.take(files.len() as int) =~= files);
        }
        self.try_add_edits(cnd)
    }

    /// The name the library resolver should try next: a referenced name
    /// with no declaration that the library map knows and that was not tried
    /// yet.  The name is marked as tried and the path recorded.  When it
    /// answers `None`, every name the library map could supply has either a
    /// declaration or has already been handed out.
    pub fn next_library_request(&mut self) -> (r: Option<(Vec<u8>, Vec<u8>)>)
        requires
            old(self).wf(),
        ensures
            final(self).wf(),
            final(self).all_files == old(self).all_files,
            final(self).libs == old(self).libs,
            final(self).declarations == old(self).declarations,
            final(self).usages == old(self).usages,
            final(self).module_graph == old(self).module_graph,
            final(self).replace_table == old(self).replace_table,
            final(self).mismatches == old(self).mismatches,
            match r {
                Some((n, p)) => {
                    &&& final(self).module_graph.has_node(n@)
                    &&& !declared_in(decls_view(final(self).declarations@), n@)
                    &&& old(self).libs is Some
                    &&& exists|w: int|
                        0 <= w < old(self).libs.unwrap().files@.len() && (#[trigger] old(
                            self,
                        ).libs.unwrap().files@[w]).0@ == n@ && old(self).libs.unwrap().files@[w].1@
                            == p@
                    &&& !name_in(old(self).lib_attempted@, n@)
                    &&& final(self).lib_attempted@.len() == old(self).lib_attempted@.len() + 1
                    &&& final(self).lib_attempted@[old(self).lib_attempted@.len() as int]@ == n@
                    &&& forall|k: int|
                        0 <= k < old(self).lib_attempted@.len() ==> final(self).lib_attempted@[k]
                            == old(self).lib_attempted@[k]
                    &&& final(self).used_libs@.len() == old(self).used_libs@.len() + 1
                    &&& final(self).used_libs@[old(self).used_libs@.len() as int]@ == p@
                    &&& forall|k: int|
                        0 <= k < old(self).used_libs@.len() ==> final(self).used_libs@[k] == old(
                            self,
                        ).used_libs@[k]
                },
                None => {
                    &&& *final(self) == *old(self)
                    &&& forall|x: Seq<u8>| #![trigger final(self).module_graph.has_node(x)]
                        final(self).module_graph.has_node(x) && !declared_in(
                            decls_view(final(self).declarations@),
                            x,
                        ) && (final(self).libs is Some && lib_has(
                            final(self).libs.unwrap().files@,
                            x,
                        )) ==> name_in(final(self).lib_attempted@, x)
                },
            },
    {
        let n = self.module_graph.names.len();
        let mut i: usize = 0;
        while i < n
            invariant
                self == old(self),
                self.wf(),
                n == self.module_graph.n(),
                i <= n,
                forall|i2: int|
                    0 <= i2 < i && self.module_graph.node_alive(i2) && !declared_in(
                        decls_view(self.declarations@),
                        (#[trigger] self.module_graph.names@[i2])@,
                    ) && (self.libs is Some && lib_has(
                        self.libs.unwrap().files@,
                        self.module_graph.names@[i2]@,
                    )) ==> name_in(self.lib_attempted@, self.module_graph.names@[i2]@),
            decreases n - i,
        {
            if self.module_graph.alive[i] {
                let declared = self.lookup_decl(&self.module_graph.names[i]);
                proof {
                    if declared is Some {
                        let k = declared.unwrap() as int;
                        assert(declared_in(
                            decls_view(self.declarations@),
                            self.module_graph.names@[i as int]@,
                        )) by {
                            assert(decls_view(self.declarations@)[declared.unwrap() as int].name
                                == self.module_graph.names@[i as int]@);
                        }
                    }
                }
                if declared.is_none() {
                    let tried = crate::bytes::contains_name(
                        &self.lib_attempted,
                        &self.module_graph.names[i],
                    );
                    if !tried {
                        // search the library map
                        let path = match &self.libs {
                            Some(lb) => {
                                let r = lib_lookup(lb, &self.module_graph.names[i]);
                                proof {
                                    if r is None {
                                        assert(!lib_has(
                                            self.libs.unwrap().files@,
                                            self.module_graph.names@[i as int]@,
                                        ));
                                    }
                                }
                                r
                            },
                            None => None,
                        };
                        match path {
                            Some(p) => {
                                let mut nm: Vec<u8> = Vec::new();
                                push_all(&mut nm, &self.module_graph.names[i]);
                                let mut nm2: Vec<u8> = Vec::new();
                                push_all(&mut nm2, &nm);
                                let mut p2: Vec<u8> = Vec::new();
                                push_all(&mut p2, &p);
                                let ghost at_pre = self.lib_attempted@;
                                self.lib_attempted.push(nm2);
                                self.used_libs.push(p2);
                                proof {
                                    assert(self.module_graph.has_node(nm@)) by {
                                        assert(self.module_graph.node_alive(i as int)
                                            && self.module_graph.names@[i as int]@ == nm@);
                                    }
                                    assert(self.lib_attempted@.map_values(|v: Vec<u8>| v@)
                                        =~= at_pre.map_values(|v: Vec<u8>| v@).push(nm@));
                                    assert(self.lib_attempted@.map_values(
                                        |v: Vec<u8>| v@,
                                    ).no_duplicates()) by {
                                        let mv = self.lib_attempted@.map_values(|v: Vec<u8>| v@);
                                        assert forall|a: int, b: int|
                                            0 <= a < b < mv.len() implies mv[a] != mv[b] by {
                                            if b == mv.len() - 1 {
                                                assert(mv[a] == at_pre[a]@);
                                                if mv[a] == nm@ {
                                                    assert(name_in(at_pre, nm@));
                                                }
                                            } else {
                                                assert(mv[a] == at_pre[a]@ && mv[b] == at_pre[b]@);
                                            }
                                        }
                                    }
                                    assert forall|k: int|
                                        0 <= k < self.lib_attempted@.len() implies lib_has(
                                        self.libs.unwrap().files@,
                                        (#[trigger] self.lib_attempted@[k])@,
                                    ) by {
                                        if k < at_pre.len() {
                                            assert(self.lib_attempted@[k] == at_pre[k]);
                                        } else {
                                            assert(self.lib_attempted@[k]@ == nm@);
                                        }
                                    }
                                }
                                return Some((nm, p));
                            },
                            None => {},
                        }
                    }
                }
            }
            proof {
                assert forall|i2: int|
                    0 <= i2 < i + 1 && self.module_graph.node_alive(i2) && !declared_in(
                        decls_view(self.declarations@),
                        (#[trigger] self.module_graph.names@[i2])@,
                    ) && (self.libs is Some && lib_has(
                        self.libs.unwrap().files@,
                        self.module_graph.names@[i2]@,
                    )) implies name_in(self.lib_attempted@, self.module_graph.names@[i2]@) by {
                    if i2 == i as int {
                    }
                }
            }
            i += 1;
        }
        proof {
            assert forall|x: Seq<u8>| #![trigger self.module_graph.has_node(x)]
                self.module_graph.has_node(x) && !declared_in(decls_view(self.declarations@), x)
                    && (self.libs is Some && lib_has(self.libs.unwrap().files@, x)) implies
                name_in(self.lib_attempted@, x) by {
                let w = choose|w: int|
                    self.module_graph.node_alive(w) && #[trigger] self.module_graph.names@[w]@
                        == x;
            }
        }
        None
    }

    /// Take over one resolved library file: its text and records join the
    /// store, its declarations are registered (a duplicate name fails), and
    /// its usages enter the tables and the graph.
    pub fn add_library_file(&mut self, f: ParsedFile) -> (r: Result<(), PickleError>)
        requires
            old(self).wf(),
            f.wf(),
        ensures
            final(self).wf(),
            r is Err ==> final(self).declarations == old(self).declarations,
            r is Ok ==> ({
                let fi = old(self).all_files@.len() as int;
                &&& final(self).all_files@ == old(self).all_files@.push(f)
                &&& decls_view(final(self).declarations@) == decls_view(old(self).declarations@)
                    + decls_of_file(f, fi)
                &&& usages_view(final(self).usages@) == usages_view(old(self).usages@)
                    + file_usage_models(f, fi)
                &&& forall|x: Seq<u8>| #![trigger final(self).module_graph.has_node(x)]
                    final(self).module_graph.has_node(x) <==> old(self).module_graph.has_node(x)
                        || declared_in(decls_of_file(f, fi), x) || used_in_file(f, x)
                &&& forall|u: Seq<u8>, v: Seq<u8>|
                    #![trigger final(self).module_graph.name_edge(u, v)]
                    final(self).module_graph.name_edge(u, v) <==> old(self).module_graph.name_edge(
                        u,
                        v,
                    ) || edge_in_file(f, u, v) || global_edge_in_file(f, u, v)
            }),
            r is Err ==> (r matches Err(PickleError::DuplicateDeclaration { name } ) && exists|
                j: int,
            |
                0 <= j < f.decls@.len() && (#[trigger] f.decls@[j]).name@ == name@ && (declared_in(
                    decls_view(old(self).declarations@),
                    name@,
                ) || exists|j2: int|
                    0 <= j2 < f.decls@.len() && j2 != j && (#[trigger] f.decls@[j2]).name@
                        == name@)),
    {
        let ghost fi = self.all_files@.len() as int;
        // reject a declaration that clashes with the live set or with itself
        let mut j: usize = 0;
        while j < f.decls.len()
            invariant
                self == old(self),
                self.wf(),
                f.wf(),
                j <= f.decls@.len(),
                forall|j2: int, j3: int|
                    0 <= j2 < j3 < j ==> (#[trigger] f.decls@[j2]).name@ != (
                    #[trigger] f.decls@[j3]).name@,
                forall|j2: int|
                    0 <= j2 < j ==> !declared_in(
                        decls_view(self.declarations@),
                        (#[trigger] f.decls@[j2]).name@,
                    ),
            decreases f.decls@.len() - j,
        {
            let hit = self.lookup_decl(&f.decls[j].name);
            match hit {
                Some(k) => {
                    let mut nm: Vec<u8> = Vec::new();
                    push_all(&mut nm, &f.decls[j].name);
                    proof {
                        assert(nm@ == f.decls@[j as int].name@);
                        assert(decls_view(self.declarations@)[k as int].name == nm@);
                        assert(declared_in(decls_view(old(self).declarations@), nm@));
                    }
                    return Err(PickleError::DuplicateDeclaration { name: nm });
                },
                None => {},
            }
            let mut j2: usize = 0;
            while j2 < j
                invariant
                    self == old(self),
                    self.wf(),
                    f.wf(),
                    j < f.decls@.len(),
                    j2 <= j,
                    forall|j3: int|
                        0 <= j3 < j2 ==> (#[trigger] f.decls@[j3]).name@ != f.decls@[j as int].name@,
                decreases j - j2,
            {
                if bytes_eq(&f.decls[j2].name, &f.decls[j].name) {
                    let mut nm: Vec<u8> = Vec::new();
                    push_all(&mut nm, &f.decls[j].name);
                    proof {
                        assert(nm@ == f.decls@[j as int].name@);
                        assert(f.decls@[j2 as int].name@ == nm@ && j2 as int != j as int);
                    }
                    return Err(PickleError::DuplicateDeclaration { name: nm });
                }
                j2 += 1;
            }
            j += 1;
        }
        // store the file
        let ghost files_pre = self.all_files@;
        let mut one: Vec<ParsedFile> = Vec::new();
        one.push(f);
        self.add_files(one);
        proof {
            assert(self.all_files@ =~= files_pre.push(f));
            assert(self.all_files@[fi] == f);
        }
        // register its declarations
        let ghost tv0 = decls_view(self.declarations@);
        let ghost g0 = self.module_graph;
        let mut j: usize = 0;
        while j < self.all_files[self.all_files.len() - 1].decls.len()
            invariant
                self.wf(),
                self.libs == old(self).libs,
                self.used_libs == old(self).used_libs,
                self.lib_attempted == old(self).lib_attempted,
                self.usages == old(self).usages,
                self.replace_table == old(self).replace_table,
                self.mismatches == old(self).mismatches,
                fi == self.all_files@.len() - 1,
                self.all_files@ == old(self).all_files@.push(f),
                self.all_files@[fi] == f,
                self.all_files@[fi].wf(),
                tv0 == decls_view(old(self).declarations@),
                g0 == old(self).module_graph,
                j <= self.all_files@[fi].decls@.len(),
                decls_view(self.declarations@) == tv0 + decls_of_file(
                    self.all_files@[fi],
                    fi,
                ).take(j as int),
                forall|j2: int, j3: int|
                    0 <= j2 < j3 < self.all_files@[fi].decls@.len() ==> (
                    #[trigger] self.all_files@[fi].decls@[j2]).name@ != (
                    #[trigger] self.all_files@[fi].decls@[j3]).name@,
                forall|j2: int|
                    0 <= j2 < self.all_files@[fi].decls@.len() ==> !declared_in(
                        tv0,
                        (#[trigger] self.all_files@[fi].decls@[j2]).name@,
                    ),
                forall|x: Seq<u8>| #![trigger self.module_graph.has_node(x)]
                    self.module_graph.has_node(x) <==> g0.has_node(x) || (exists|j2: int|
                        0 <= j2 < j && (#[trigger] self.all_files@[fi].decls@[j2]).name@ == x),
                forall|u: Seq<u8>, v: Seq<u8>|
                    #![trigger self.module_graph.name_edge(u, v)]
                    self.module_graph.name_edge(u, v) <==> g0.name_edge(u, v),
            decreases self.all_files@[fi].decls@.len() - j,
        {
            let ghost g_prev = self.module_graph;
            proof {
                assert forall|x: Seq<u8>| #![trigger g_prev.has_node(x)]
                    g_prev.has_node(x) <==> g0.has_node(x) || (exists|j2: int|
                        0 <= j2 < j && (#[trigger] self.all_files@[fi].decls@[j2]).name@ == x) by {
                    assert(self.module_graph.has_node(x) <==> g0.has_node(x) || (exists|j2: int|
                        0 <= j2 < j && (#[trigger] self.all_files@[fi].decls@[j2]).name@ == x));
                }
            }
            let last = self.all_files.len() - 1;
            let mut nm: Vec<u8> = Vec::new();
            push_all(&mut nm, &self.all_files[last].decls[j].name);
            let d = Declaration {
                name: nm,
                kind: self.all_files[last].decls[j].kind,
                file_id: last,
                decl_idx: j,
            };
            proof {
                assert(d@ =~= decls_of_file(self.all_files@[fi], fi)[j as int]);
            }
            let ghost dv_pre = decls_view(self.declarations@);
            self.module_graph.ensure(&d.name);
            self.declarations.push(d);
            proof {
                assert(decls_view(self.declarations@) =~= dv_pre.push(
                    decls_of_file(self.all_files@[fi], fi)[j as int],
                ));
                assert(decls_view(self.declarations@) =~= tv0 + decls_of_file(
                    self.all_files@[fi],
                    fi,
                ).take(j + 1));
                assert(decl_names_unique(decls_view(self.declarations@))) by {
                    let dvn = decls_view(self.declarations@);
                    assert forall|a: int, b: int|
                        0 <= a < b < dvn.len() implies (#[trigger] dvn[a]).name != (
                    #[trigger] dvn[b]).name by {
                        if b == dvn.len() - 1 {
                            assert(dvn[b].name == self.all_files@[fi].decls@[j as int].name@);
                            if a < tv0.len() {
                                assert(dvn[a] == tv0[a]);
                                if dvn[a].name == dvn[b].name {
                                    assert(declared_in(
                                        tv0,
                                        self.all_files@[fi].decls@[j as int].name@,
                                    ));
                                }
                            } else {
                                assert(dvn[a] == decls_of_file(self.all_files@[fi], fi)[a
                                    - tv0.len()]);
                            }
                        } else {
                            assert(dvn[a] == dv_pre[a] && dvn[b] == dv_pre[b]);
                        }
                    }
                }
                assert forall|x: Seq<u8>| #![trigger self.module_graph.has_node(x)]
                    self.module_graph.has_node(x) <==> g0.has_node(x) || (exists|j2: int|
                        0 <= j2 < j + 1 && (#[trigger] self.all_files@[fi].decls@[j2]).name@
                            == x) by {
                    if self.module_graph.has_node(x) {
                        if g_prev.has_node(x) {
                        } else {
                            assert(self.all_files@[fi].decls@[j as int].name@ == x);
                        }
                    }
                    if exists|j2: int|
                        0 <= j2 < j + 1 && (#[trigger] self.all_files@[fi].decls@[j2]).name@
                            == x {
                        let j2 = choose|j2: int|
                            0 <= j2 < j + 1 && (#[trigger] self.all_files@[fi].decls@[j2]).name@
                                == x;
                        if j2 < j {
                            assert(g_prev.has_node(x));
                        }
                    }
                }
                assert forall|k: int|
                    0 <= k < self.declarations@.len() implies decl_entry_ok(
                    (#[trigger] self.declarations@[k])@,
                    self.all_files@,
                ) && self.module_graph.has_node(self.declarations@[k]@.name) by {
                    if k < dv_pre.len() {
                        assert(self.declarations@[k]@ == dv_pre[k]);
                        assert(g_prev.has_node(dv_pre[k].name));
                    } else {
                        assert(self.declarations@[k]@ == decls_of_file(
                            self.all_files@[fi],
                            fi,
                        )[j as int]);
                    }
                }
                assert forall|k: int|
                    0 <= k < self.usages@.len() implies usage_entry_ok(
                    (#[trigger] self.usages@[k])@,
                    self.all_files@,
                ) && self.module_graph.has_node(self.usages@[k]@.name) by {
                    assert(g_prev.has_node(self.usages@[k]@.name));
                }
            }
            j += 1;
        }
        proof {
            assert(decls_of_file(self.all_files@[fi], fi).take(
                self.all_files@[fi].decls@.len() as int,
            ) =~= decls_of_file(self.all_files@[fi], fi));
            assert forall|j2: int|
                0 <= j2 < self.all_files@[fi].decls@.len() implies declared_in(
                decls_view(self.declarations@),
                (#[trigger] self.all_files@[fi].decls@[j2]).name@,
            ) by {
                assert(decls_view(self.declarations@)[tv0.len() + j2].name
                    == self.all_files@[fi].decls@[j2].name@);
            }
        }
        // register its usages
        let ghost g1 = self.module_graph;
        let last = self.all_files.len() - 1;
        self.register_usages_file(last);
        proof {
            assert(decls_of_file(self.all_files@[fi], fi) =~= decls_of_file(
                old(self).all_files@.push(self.all_files@[fi])[fi],
                fi,
            ));
        }
        Ok(())
    }

    /// The tool banner: the version and the timestamp, then a blank line.
    fn banner(version: &Vec<u8>, ts: &Vec<u8>) -> (r: Vec<u8>)
        ensures
            r@ == banner_model(version@, ts@),
    {
        let mut out: Vec<u8> = vec![
            47u8, 47u8, 32u8, 67u8, 111u8, 109u8, 112u8, 105u8, 108u8, 101u8, 100u8, 32u8, 98u8,
            121u8, 32u8, 109u8, 111u8, 114u8, 116u8, 121u8, 45u8,
        ];
        push_all(&mut out, version);
        let sep: Vec<u8> = vec![32u8, 47u8, 32u8];
        push_all(&mut out, &sep);
        push_all(&mut out, ts);
        out.push(10u8);
        out.push(10u8);
        proof {
            assert(out@ =~= banner_model(version@, ts@));
        }
        out
    }

    /// The tool version written into the banner.
    pub fn tool_version() -> (r: Vec<u8>)
        ensures
            r@ == version_model(),
    {
        let v: Vec<u8> = vec![48u8, 46u8, 49u8, 46u8, 48u8];
        proof {
            assert(v@ =~= version_model());
        }
        v
    }

    /// The local time, rendered for the banner.
    ///
    /// Relies on chrono::Local::now; the time depends on the clock, so
    /// nothing is promised of the result.
    #[verifier::external_body]
    fn timestamp_now() -> (r: Vec<u8>) {
        chrono::Local::now().to_string().into_bytes()
    }

    /// The banner followed by each file's preprocessed text, in input
    /// order, each terminated by a line end.
    pub fn just_preprocess(&self) -> (r: Vec<u8>)
        requires
            self.wf(),
        ensures
            exists|ts: Seq<u8>|
                r@ == banner_model(version_model(), ts) + preprocess_concat(self.all_files@),
    {
        let ts = Self::timestamp_now();
        let version = Self::tool_version();
        let mut out = Self::banner(&version, &ts);
        let ghost tsv = ts@;
        let mut i: usize = 0;
        while i < self.all_files.len()
            invariant
                self.wf(),
                i <= self.all_files@.len(),
                out@ == banner_model(version_model(), tsv) + preprocess_concat(
                    self.all_files@.take(i as int),
                ),
            decreases self.all_files@.len() - i,
        {
            proof {
                assert(self.all_files@.take(i + 1).drop_last() =~= self.all_files@.take(i as int));
                assert(self.all_files@.take(i + 1).last() == self.all_files@[i as int]);
            }
            let n = self.all_files[i].source.len();
            let needs_nl = n == 0 || self.all_files[i].source[n - 1] != 10u8;
            push_all(&mut out, &self.all_files[i].source);
            if needs_nl {
                out.push(10u8);
            }
            proof {
                assert(out@ =~= banner_model(version_model(), tsv) + preprocess_concat(
                    self.all_files@.take(i + 1),
                ));
            }
            i += 1;
        }
        proof {
            assert(self.all_files@.take(self.all_files@.len() as int) =~= self.all_files@);
        }
        out
    }

    /// The banner followed by every file in input order, each with its
    /// planned edits applied and a line end ensured.
    pub fn get_classic_pickle(&self) -> (r: Result<Vec<u8>, PickleError>)
        requires
            self.wf(),
        ensures
            r is Ok,
            r matches Ok(v) ==> exists|ts: Seq<u8>, chunks: Seq<Seq<u8>>|
                {
                    &&& chunks.len() == self.all_files@.len()
                    &&& forall|i: int|
                        0 <= i < chunks.len() ==> #[trigger] classic_chunk_ok(*self, i, chunks[i])
                    &&& v@ == banner_model(version_model(), ts) + concat_chunks(chunks)
                },
    {
        let ts = Self::timestamp_now();
        let version = Self::tool_version();
        let mut out = Self::banner(&version, &ts);
        let ghost tsv = ts@;
        let mut chunks_now: Ghost<Seq<Seq<u8>>> = Ghost(Seq::empty());
        let mut i: usize = 0;
        while i < self.all_files.len()
            invariant
                self.wf(),
                i <= self.all_files@.len(),
                chunks_now@.len() == i,
                forall|i2: int|
                    0 <= i2 < i ==> #[trigger] classic_chunk_ok(*self, i2, chunks_now@[i2]),
                out@ == banner_model(version_model(), tsv) + concat_chunks(chunks_now@),
            decreases self.all_files@.len() - i,
        {
            let src_len = self.all_files[i].source.len();
            let rr = crate::edit::replaced_range(
                &self.all_files[i].source,
                i,
                0,
                src_len,
                &self.replace_table,
            );
            let body = match rr {
                Ok(b) => b,
                Err(_) => {
                    proof {
                        // an edit of this file ends within the file
                        let sel = crate::edit::window_edits(
                            edits_view(self.replace_table@),
                            i as int,
                            0,
                            src_len as int,
                        );
                        let w = choose|w: int|
                            0 <= w < sel.len() && (#[trigger] sel[w]).end() > src_len;
                        crate::edit::lemma_window_props(
                            edits_view(self.replace_table@),
                            i as int,
                            0,
                            src_len as int,
                        );
                        vstd::seq_lib::to_multiset_contains::<EditModel>(sel, sel[w]);
                        assert(sel.to_multiset().count(sel[w]) > 0);
                        assert(edits_view(self.replace_table@).to_multiset().count(sel[w]) > 0);
                        vstd::seq_lib::to_multiset_contains::<EditModel>(
                            edits_view(self.replace_table@),
                            sel[w],
                        );
                        assert(edits_view(self.replace_table@).contains(sel[w]));
                        let t = choose|t: int|
                            0 <= t < edits_view(self.replace_table@).len() && edits_view(
                                self.replace_table@,
                            )[t] == sel[w];
                        assert(edit_ok(edits_view(self.replace_table@)[t], self.all_files@));
                        assert(false);
                    }
                    return Err(PickleError::Cycle);
                },
            };
            let ghost body_v = body@;
            let mut body = body;
            let needs_nl = body.len() == 0 || body[body.len() - 1] != 10u8;
            if needs_nl {
                body.push(10u8);
            }
            push_all(&mut out, &body);
            proof {
                let chunks_pre = chunks_now@;
                assert(body@ =~= with_newline(body_v));
                chunks_now@ = chunks_now@.push(with_newline(body_v));
                assert(chunks_now@.drop_last() =~= chunks_pre);
                assert(concat_chunks(chunks_now@) =~= concat_chunks(chunks_pre) + chunks_now@.last());
                assert(out@ =~= banner_model(version_model(), tsv) + concat_chunks(chunks_now@));
                assert forall|i2: int|
                    0 <= i2 < i + 1 implies #[trigger] classic_chunk_ok(
                    *self,
                    i2,
                    chunks_now@[i2],
                ) by {
                    if i2 == i as int {
                        assert(is_applied_window(
                            edits_view(self.replace_table@),
                            self.all_files@[i2].source@,
                            i2,
                            0,
                            self.all_files@[i2].source@.len() as int,
                            body_v,
                        ));
                        assert(chunks_now@[i2] == with_newline(body_v));
                    } else {
                        assert(chunks_now@[i2] == chunks_pre[i2]);
                        assert(classic_chunk_ok(*self, i2, chunks_pre[i2]));
                    }
                }
            }
            i += 1;
        }
        proof {
            assert(chunks_now@.len() == self.all_files@.len());
            assert(out@ == banner_model(version_model(), tsv) + concat_chunks(chunks_now@));
            assert(forall|i2: int|
                0 <= i2 < chunks_now@.len() ==> #[trigger] classic_chunk_ok(
                    *self,
                    i2,
                    chunks_now@[i2],
                ));
        }
        Ok(out)
    }

    /// The banner followed by every surviving declaration not excluded, in
    /// a topological order: every declaration a module uses comes before it.
    /// Fails with `Cycle` only when cyclic instantiations block the order,
    /// and with `EditOverlap` only when an edit crosses a declaration's end.
    #[verifier::rlimit(60)]
    #[verifier::spinoff_prover]
    pub fn get_pickle(&self, exclude: &Vec<Vec<u8>>) -> (r: Result<Vec<u8>, PickleError>)
        requires
            self.wf(),
        ensures
            r matches Ok(v) ==> exists|ts: Seq<u8>, ord: Seq<usize>, chunks: Seq<Seq<u8>>|
                {
                    &&& emission_order_ok(*self, ord)
                    &&& chunks.len() == ord.len()
                    &&& forall|k: int|
                        0 <= k < ord.len() ==> if name_in(
                            exclude@,
                            self.module_graph.names@[ord[k] as int]@,
                        ) {
                            (#[trigger] chunks[k]) == Seq::<u8>::empty()
                        } else {
                            pickle_chunk_ok(*self, ord[k] as int, chunks[k])
                        }
                    &&& v@ == banner_model(version_model(), ts) + concat_chunks(chunks)
                },
            r matches Err(PickleError::Cycle) ==> exists|blocked: Seq<bool>|
                {
                    &&& blocked.len() == self.module_graph.n()
                    &&& exists|i: int| 0 <= i < blocked.len() && blocked[i]
                    &&& forall|i: int|
                        0 <= i < blocked.len() && #[trigger] blocked[i]
                            ==> self.module_graph.node_alive(i) && declared_in(
                            decls_view(self.declarations@),
                            self.module_graph.names@[i]@,
                        )
                    &&& forall|i: int|
                        0 <= i < blocked.len() && #[trigger] blocked[i] ==> exists|j: int|
                            0 <= j < blocked.len() && blocked[j] && self.module_graph.has_edge(
                                i,
                                j,
                            )
                },
            r matches Err(PickleError::EditOverlap { .. }) ==> exists|di: int|
                0 <= di < decls_view(self.declarations@).len() && straddling_decl(*self, di),
            r is Err ==> (r matches Err(PickleError::Cycle) || r matches Err(
                PickleError::EditOverlap { .. },
            )),
    {
        let ts = Self::timestamp_now();
        let version = Self::tool_version();
        let ghost tsv = ts@;
        let ghost tv = decls_view(self.declarations@);
        // which slots hold a declared, live node
        let n = self.module_graph.names.len();
        let mut present: Vec<bool> = Vec::new();
        let mut i: usize = 0;
        while i < n
            invariant
                self.wf(),
                tv == decls_view(self.declarations@),
                n == self.module_graph.n(),
                i <= n,
                present@.len() == i,
                forall|i2: int|
                    0 <= i2 < i ==> ((#[trigger] present@[i2]) <==> (self.module_graph.node_alive(
                        i2,
                    ) && declared_in(tv, self.module_graph.names@[i2]@))),
            decreases n - i,
        {
            let mut p = false;
            if self.module_graph.alive[i] {
                let hit = self.lookup_decl(&self.module_graph.names[i]);
                match hit {
                    Some(k) => {
                        proof {
                            assert(decls_view(self.declarations@)[k as int].name
                                == self.module_graph.names@[i as int]@);
                        }
                        p = true;
                    },
                    None => {},
                }
            }
            present.push(p);
            i += 1;
        }
        let ord = match self.module_graph.topo(&present) {
            Ok(o) => o,
            Err(e) => {
                proof {
                    let blocked = choose|blocked: Seq<bool>|
                        {
                            &&& blocked.len() == self.module_graph.n()
                            &&& exists|i2: int| 0 <= i2 < self.module_graph.n() && blocked[i2]
                            &&& forall|i2: int|
                                0 <= i2 < self.module_graph.n() && #[trigger] blocked[i2]
                                    ==> present@[i2]
                            &&& forall|i2: int|
                                0 <= i2 < self.module_graph.n() && #[trigger] blocked[i2]
                                    ==> exists|j: int|
                                    0 <= j < self.module_graph.n() && blocked[j]
                                        && self.module_graph.has_edge(i2, j)
                        };
                    assert forall|i2: int|
                        0 <= i2 < blocked.len() && #[trigger] blocked[i2] implies
                        self.module_graph.node_alive(i2) && declared_in(
                        tv,
                        self.module_graph.names@[i2]@,
                    ) by {
                        assert(present@[i2]);
                    }
                }
                return Err(PickleError::Cycle);
            },
        };
        let mut out = Self::banner(&version, &ts);
        let mut chunks_now: Ghost<Seq<Seq<u8>>> = Ghost(Seq::empty());
        let mut k: usize = 0;
        while k < ord.len()
            invariant
                self.wf(),
                tv == decls_view(self.declarations@),
                n == self.module_graph.n(),
                present@.len() == n,
                forall|i2: int|
                    0 <= i2 < n ==> ((#[trigger] present@[i2]) <==> (self.module_graph.node_alive(
                        i2,
                    ) && declared_in(tv, self.module_graph.names@[i2]@))),
                forall|k2: int| 0 <= k2 < ord@.len() ==> (#[trigger] ord@[k2]) < n
                    && present@[ord@[k2] as int],
                k <= ord@.len(),
                chunks_now@.len() == k,
                forall|k2: int|
                    0 <= k2 < k ==> if name_in(
                        exclude@,
                        self.module_graph.names@[ord@[k2] as int]@,
                    ) {
                        (#[trigger] chunks_now@[k2]) == Seq::<u8>::empty()
                    } else {
                        pickle_chunk_ok(*self, ord@[k2] as int, chunks_now@[k2])
                    },
                out@ == banner_model(version_model(), tsv) + concat_chunks(chunks_now@),
            decreases ord@.len() - k,
        {
            let slot = ord[k];
            let excluded = crate::bytes::contains_name(exclude, &self.module_graph.names[slot]);
            let ghost chunks_pre = chunks_now@;
            if excluded {
                proof {
                    chunks_now@ = chunks_now@.push(Seq::<u8>::empty());
                    assert(chunks_now@.drop_last() =~= chunks_pre);
                    assert(concat_chunks(chunks_now@) =~= concat_chunks(chunks_pre));
                    assert(out@ =~= banner_model(version_model(), tsv) + concat_chunks(
                        chunks_now@,
                    ));
                }
            } else {
                let hit = self.lookup_decl(&self.module_graph.names[slot]);
                let di = match hit {
                    Some(d) => d,
                    None => {
                        proof {
                            assert(present@[slot as int]);
                            assert(false);
                        }
                        return Err(PickleError::Cycle);
                    },
                };
                let fid = self.declarations[di].file_id;
                let didx = self.declarations[di].decl_idx;
                let hd = self.all_files[fid].decls[didx].header;
                let rr = crate::edit::replaced_range(
                    &self.all_files[fid].source,
                    fid,
                    hd.offset,
                    hd.len,
                    &self.replace_table,
                );
                let body = match rr {
                    Ok(b) => b,
                    Err(e) => {
                        proof {
                            assert(decls_view(self.declarations@)[di as int].file_id
                                == fid as int);
                            assert(decls_view(self.declarations@)[di as int].decl_idx
                                == didx as int);
                            assert(straddling_decl(*self, di as int));
                        }
                        return Err(PickleError::EditOverlap { file_id: fid });
                    },
                };
                let ghost body_v = body@;
                let mut body = body;
                let needs_nl = body.len() == 0 || body[body.len() - 1] != 10u8;
                if needs_nl {
                    body.push(10u8);
                }
                push_all(&mut out, &body);
                proof {
                    assert(body@ =~= with_newline(body_v));
                    chunks_now@ = chunks_now@.push(with_newline(body_v));
                    assert(chunks_now@.drop_last() =~= chunks_pre);
                    assert(concat_chunks(chunks_now@) =~= concat_chunks(chunks_pre)
                        + chunks_now@.last());
                    assert(out@ =~= banner_model(version_model(), tsv) + concat_chunks(
                        chunks_now@,
                    ));
                    assert(pickle_chunk_ok(*self, ord@[k as int] as int, chunks_now@[k as int]))
                        by {
                        assert(decls_view(self.declarations@)[di as int].name
                            == self.module_graph.names@[slot as int]@);
                        assert(is_applied_window(
                            edits_view(self.replace_table@),
                            self.all_files@[fid as int].source@,
                            fid as int,
                            hd.offset as int,
                            hd.len as int,
                            body_v,
                        ));
                        assert(chunks_now@[k as int] == with_newline(body_v));
                    }
                }
            }
            proof {
                assert forall|k2: int|
                    0 <= k2 < k + 1 implies (if name_in(
                    exclude@,
                    self.module_graph.names@[ord@[k2] as int]@,
                ) {
                    (#[trigger] chunks_now@[k2]) == Seq::<u8>::empty()
                } else {
                    pickle_chunk_ok(*self, ord@[k2] as int, chunks_now@[k2])
                }) by {
                    if k2 < k {
                        assert(chunks_now@[k2] == chunks_pre[k2]);
                    }
                }
            }
            k += 1;
        }
        proof {
            assert(chunks_now@.len() == ord@.len());
            assert(out@ == banner_model(version_model(), tsv) + concat_chunks(chunks_now@));
            assert(emission_order_ok(*self, ord@)) by {
                assert forall|k2: int|
                    0 <= k2 < ord@.len() implies self.module_graph.node_alive(
                    (#[trigger] ord@[k2]) as int,
                ) && declared_in(tv, self.module_graph.names@[ord@[k2] as int]@) by {
                    assert(present@[ord@[k2] as int]);
                }
                assert forall|i2: int|
                    self.module_graph.node_alive(i2) && declared_in(
                        tv,
                        (#[trigger] self.module_graph.names@[i2])@,
                    ) implies exists|k2: int|
                    0 <= k2 < ord@.len() && (#[trigger] ord@[k2]) as int == i2 by {
                    assert(present@[i2]);
                    let k2 = choose|k2: int| 0 <= k2 < ord@.len() && #[trigger] ord@[k2] == i2;
                }
                assert forall|k1: int, k2: int|
                    0 <= k1 < ord@.len() && 0 <= k2 < ord@.len()
                        && #[trigger] self.module_graph.has_edge(
                        ord@[k1] as int,
                        ord@[k2] as int,
                    ) implies k2 < k1 by {
                    assert(present@[ord@[k2] as int]);
                }
            }
        }
        Ok(out)
    }

    /// The graph in DOT form: one labelled line per live node in slot
    /// order, one unlabelled line per edge in insertion order.
    pub fn get_dot(&self) -> (r: Vec<u8>)
        requires
            self.wf(),
        ensures
            r@ == dot_model(self.module_graph),
    {
        let mut out: Vec<u8> = vec![
            100u8, 105u8, 103u8, 114u8, 97u8, 112u8, 104u8, 32u8, 123u8, 10u8,
        ];
        proof {
            assert(out@ =~= lit_digraph_open());
        }
        let n = self.module_graph.names.len();
        let mut i: usize = 0;
        while i < n
            invariant
                self.wf(),
                n == self.module_graph.n(),
                i <= n,
                out@ == lit_digraph_open() + dot_node_lines(self.module_graph, i as int),
            decreases n - i,
        {
            if self.module_graph.alive[i] {
                let indent: Vec<u8> = vec![32u8, 32u8, 32u8, 32u8];
                push_all(&mut out, &indent);
                let num = crate::bytes::dec_of(i);
                push_all(&mut out, &num);
                let open: Vec<u8> = vec![
                    32u8, 91u8, 32u8, 108u8, 97u8, 98u8, 101u8, 108u8, 32u8, 61u8, 32u8, 34u8,
                ];
                push_all(&mut out, &open);
                push_all(&mut out, &self.module_graph.names[i]);
                let close: Vec<u8> = vec![34u8, 32u8, 93u8, 10u8];
                push_all(&mut out, &close);
            }
            proof {
                assert(out@ =~= lit_digraph_open() + dot_node_lines(self.module_graph, i + 1));
            }
            i += 1;
        }
        let m = self.module_graph.edges.len();
        let mut k: usize = 0;
        while k < m
            invariant
                self.wf(),
                n == self.module_graph.n(),
                m == self.module_graph.edges@.len(),
                k <= m,
                out@ == lit_digraph_open() + dot_node_lines(self.module_graph, n as int)
                    + dot_edge_lines(self.module_graph, k as int),
            decreases m - k,
        {
            let indent: Vec<u8> = vec![32u8, 32u8, 32u8, 32u8];
            push_all(&mut out, &indent);
            let a = crate::bytes::dec_of(self.module_graph.edges[k].0);
            push_all(&mut out, &a);
            let arrow: Vec<u8> = vec![32u8, 45u8, 62u8, 32u8];
            push_all(&mut out, &arrow);
            let b = crate::bytes::dec_of(self.module_graph.edges[k].1);
            push_all(&mut out, &b);
            let close: Vec<u8> = vec![32u8, 91u8, 32u8, 93u8, 10u8];
            push_all(&mut out, &close);
            proof {
                assert(out@ =~= lit_digraph_open() + dot_node_lines(self.module_graph, n as int)
                    + dot_edge_lines(self.module_graph, k + 1));
            }
            k += 1;
        }
        out.push(125u8);
        out.push(10u8);
        proof {
            assert(out@ =~= dot_model(self.module_graph));
        }
        out
    }

    /// The output manifest: the surviving bundles (the one matching the
    /// given include paths and defines is merged with the resolved library
    /// files), the names no edge enters, and the referenced names that no
    /// declaration defines.  When a top was given, each bundle keeps only
    /// the files that still hold a declaration.
    #[verifier::rlimit(100)]
    #[verifier::spinoff_prover]
    pub fn get_manifest(
        &self,
        file_list: Vec<FileBundle>,
        include_dirs: Vec<Vec<u8>>,
        defines: Vec<(Vec<u8>, Option<Vec<u8>>)>,
        top_given: bool,
    ) -> (m: Manifest)
        requires
            self.wf(),
        ensures
            forall|j: int|
                0 <= j < m.tops@.len() ==> self.module_graph.is_top_name((#[trigger] m.tops@[j])@),
            forall|i: int|
                self.module_graph.node_alive(i) && self.module_graph.indegree_zero(i) ==> name_in(
                    m.tops@,
                    (#[trigger] self.module_graph.names@[i])@,
                ),
            forall|a: int, b: int|
                0 <= a < b < m.tops@.len() ==> (#[trigger] m.tops@[a])@ != (#[trigger] m.tops@[b])@,
            forall|j: int|
                0 <= j < m.undefined@.len() ==> self.module_graph.has_node(
                    (#[trigger] m.undefined@[j])@,
                ) && !declared_in(decls_view(self.declarations@), m.undefined@[j]@),
            forall|i: int|
                self.module_graph.node_alive(i) && !declared_in(
                    decls_view(self.declarations@),
                    (#[trigger] self.module_graph.names@[i])@,
                ) ==> name_in(m.undefined@, self.module_graph.names@[i]@),
            forall|a: int, b: int|
                0 <= a < b < m.undefined@.len() ==> (#[trigger] m.undefined@[a])@ != (
                #[trigger] m.undefined@[b])@,
            bundles_view(m.sources@) == manifest_sources_model(
                *self,
                file_list@,
                names_model(include_dirs@),
                defines_model(defines@),
                top_given,
            ),
    {
        let ghost tv = decls_view(self.declarations@);
        let ghost incdirs_m = names_model(include_dirs@);
        let ghost defs_m = defines_model(defines@);
        let ghost fl0 = file_list@;
        let tops = self.module_graph.tops();
        // names with no declaration
        let mut undefined: Vec<Vec<u8>> = Vec::new();
        let mut uslots: Ghost<Seq<int>> = Ghost(Seq::empty());
        let n = self.module_graph.names.len();
        let mut i: usize = 0;
        while i < n
            invariant
                self.wf(),
                tv == decls_view(self.declarations@),
                n == self.module_graph.n(),
                i <= n,
                uslots@.len() == undefined@.len(),
                forall|j: int|
                    0 <= j < undefined@.len() ==> 0 <= #[trigger] uslots@[j] < i && undefined@[j]@
                        == self.module_graph.names@[uslots@[j]]@,
                forall|a: int, b: int|
                    0 <= a < b < uslots@.len() ==> #[trigger] uslots@[a] < #[trigger] uslots@[b],
                forall|j: int|
                    0 <= j < undefined@.len() ==> self.module_graph.has_node(
                        (#[trigger] undefined@[j])@,
                    ) && !declared_in(tv, undefined@[j]@),
                forall|i2: int|
                    0 <= i2 < i && self.module_graph.node_alive(i2) && !declared_in(
                        tv,
                        (#[trigger] self.module_graph.names@[i2])@,
                    ) ==> name_in(undefined@, self.module_graph.names@[i2]@),
            decreases n - i,
        {
            if self.module_graph.alive[i] {
                let hit = self.lookup_decl(&self.module_graph.names[i]);
                match hit {
                    Some(k) => {
                        proof {
                            assert(decls_view(self.declarations@)[k as int].name
                                == self.module_graph.names@[i as int]@);
                        }
                    },
                    None => {
                        let mut nm: Vec<u8> = Vec::new();
                        push_all(&mut nm, &self.module_graph.names[i]);
                        let ghost upre = undefined@;
                        undefined.push(nm);
                        proof {
                            uslots@ = uslots@.push(i as int);
                            assert(undefined@[upre.len() as int]@
                                == self.module_graph.names@[i as int]@);
                            assert(self.module_graph.has_node(
                                self.module_graph.names@[i as int]@,
                            )) by {
                                assert(self.module_graph.node_alive(i as int));
                            }
                            assert forall|i2: int|
                                0 <= i2 < i + 1 && self.module_graph.node_alive(i2)
                                    && !declared_in(
                                    tv,
                                    (#[trigger] self.module_graph.names@[i2])@,
                                ) implies name_in(
                                undefined@,
                                self.module_graph.names@[i2]@,
                            ) by {
                                if i2 < i {
                                    let j = choose|j: int|
                                        0 <= j < upre.len() && (#[trigger] upre[j])@
                                            == self.module_graph.names@[i2]@;
                                    assert(undefined@[j]@ == self.module_graph.names@[i2]@);
                                }
                            }
                        }
                    },
                }
            }
            i += 1;
        }
        proof {
            assert forall|a: int, b: int|
                0 <= a < b < undefined@.len() implies (#[trigger] undefined@[a])@ != (
            #[trigger] undefined@[b])@ by {
                assert(uslots@[a] < uslots@[b]);
                assert(self.module_graph.names@[uslots@[a]]@
                    != self.module_graph.names@[uslots@[b]]@);
            }
        }
        // the paths of the files that still hold a declaration
        let mut needed: Vec<Vec<u8>> = Vec::new();
        let mut d: usize = 0;
        while d < self.declarations.len()
            invariant
                self.wf(),
                tv == decls_view(self.declarations@),
                d <= self.declarations@.len(),
                needed@.len() == d,
                forall|k: int|
                    0 <= k < d ==> (#[trigger] needed@[k])@ == self.all_files@[(
                    #[trigger] self.declarations@[k])@.file_id].path@,
            decreases self.declarations@.len() - d,
        {
            let fid = self.declarations[d].file_id;
            let mut p: Vec<u8> = Vec::new();
            push_all(&mut p, &self.all_files[fid].path);
            needed.push(p);
            d += 1;
        }
        proof {
            // a path is in the list exactly when a declaration survives in it
            assert forall|x: Seq<u8>|
                name_in(needed@, x) <==> needed_path(*self, x) by {
                if name_in(needed@, x) {
                    let k = choose|k: int| 0 <= k < needed@.len() && (#[trigger] needed@[k])@ == x;
                    assert(self.all_files@[self.declarations@[k]@.file_id].path@ == x);
                }
                if needed_path(*self, x) {
                    let k = choose|k: int|
                        0 <= k < self.declarations@.len() && self.all_files@[(
                        #[trigger] self.declarations@[k])@.file_id].path@ == x;
                    assert(needed@[k]@ == x);
                }
            }
        }
        // distribute the bundles; the matching one absorbs the library files
        let mut base_files: Vec<Vec<u8>> = Vec::new();
        let mut bundles: Vec<FileBundle> = Vec::new();
        let mut file_list = file_list;
        while file_list.len() > 0
            invariant
                self.wf(),
                tv == decls_view(self.declarations@),
                incdirs_m == names_model(include_dirs@),
                defs_m == defines_model(defines@),
                forall|x: Seq<u8>| #![trigger name_in(needed@, x)]
                    name_in(needed@, x) <==> needed_path(*self, x),
                rest_bundles_model(*self, fl0, incdirs_m, defs_m, top_given) == bundles_view(
                    bundles@,
                ) + rest_bundles_model(*self, file_list@, incdirs_m, defs_m, top_given),
                base_files_model(*self, fl0, incdirs_m, defs_m, top_given) == names_model(
                    base_files@,
                ) + base_files_model(*self, file_list@, incdirs_m, defs_m, top_given),
            decreases file_list@.len(),
        {
            let ghost remaining_pre = file_list@;
            let mut bundle = file_list.remove(0);
            proof {
                assert(file_list@ =~= remaining_pre.drop_first());
                assert(bundle == remaining_pre[0]);
            }
            let same = names_list_eq(&bundle.include_dirs, &include_dirs) && defines_eq(
                &bundle.defines,
                &defines,
            );
            proof {
                assert(same == bundle_matches(remaining_pre[0], incdirs_m, defs_m));
            }
            let mut kept: Vec<Vec<u8>> = Vec::new();
            let mut w: usize = 0;
            while w < bundle.files.len()
                invariant
                    self.wf(),
                    forall|x: Seq<u8>| #![trigger name_in(needed@, x)]
                        name_in(needed@, x) <==> needed_path(*self, x),
                    w <= bundle.files@.len(),
                    names_model(kept@) == kept_files_model(
                        *self,
                        top_given,
                        bundle.files@.take(w as int),
                    ),
                decreases bundle.files@.len() - w,
            {
                let ghost fpre = bundle.files@.take(w as int);
                proof {
                    assert(bundle.files@.take(w + 1).drop_last() =~= fpre);
                    assert(bundle.files@.take(w + 1).last() == bundle.files@[w as int]);
                }
                let keep_it = if top_given {
                    crate::bytes::contains_name(&needed, &bundle.files[w])
                } else {
                    true
                };
                proof {
                    assert(keep_it == file_kept(*self, top_given, bundle.files@[w as int]@));
                }
                if keep_it {
                    let mut p: Vec<u8> = Vec::new();
                    push_all(&mut p, &bundle.files[w]);
                    let ghost kpre = names_model(kept@);
                    kept.push(p);
                    proof {
                        assert(names_model(kept@) =~= kpre.push(bundle.files@[w as int]@));
                        assert(names_model(kept@) =~= kept_files_model(
                            *self,
                            top_given,
                            bundle.files@.take(w + 1),
                        ));
                    }
                } else {
                    proof {
                        assert(names_model(kept@) =~= kept_files_model(
                            *self,
                            top_given,
                            bundle.files@.take(w + 1),
                        ));
                    }
                }
                w += 1;
            }
            proof {
                assert(bundle.files@.take(bundle.files@.len() as int) =~= bundle.files@);
                assert(names_model(kept@) == kept_files_model(
                    *self,
                    top_given,
                    remaining_pre[0].files@,
                ));
            }
            if same {
                let ghost base_pre = names_model(base_files@);
                let mut kept = kept;
                base_files.append(&mut kept);
                proof {
                    assert(names_model(base_files@) =~= base_pre + kept_files_model(
                        *self,
                        top_given,
                        remaining_pre[0].files@,
                    ));
                    assert(base_files_model(*self, remaining_pre, incdirs_m, defs_m, top_given)
                        =~= kept_files_model(*self, top_given, remaining_pre[0].files@)
                        + base_files_model(*self, file_list@, incdirs_m, defs_m, top_given));
                    assert(rest_bundles_model(*self, remaining_pre, incdirs_m, defs_m, top_given)
                        =~= rest_bundles_model(*self, file_list@, incdirs_m, defs_m, top_given));
                }
            } else {
                proof {
                    assert(base_files_model(*self, remaining_pre, incdirs_m, defs_m, top_given)
                        =~= base_files_model(*self, file_list@, incdirs_m, defs_m, top_given));
                }
                bundle.files = kept;
                proof {
                    assert(bundle@ =~= (BundleModel {
                        include_dirs: names_model(remaining_pre[0].include_dirs@),
                        export_incdirs: exports_model(remaining_pre[0].export_incdirs@),
                        defines: defines_model(remaining_pre[0].defines@),
                        files: kept_files_model(*self, top_given, remaining_pre[0].files@),
                    }));
                }
                if bundle.files.len() > 0 {
                    let ghost bpre = bundles_view(bundles@);
                    let ghost bv = bundle@;
                    bundles.push(bundle);
                    proof {
                        assert(bundles_view(bundles@) =~= bpre.push(bv));
                        assert(rest_bundles_model(
                            *self,
                            remaining_pre,
                            incdirs_m,
                            defs_m,
                            top_given,
                        ) =~= seq![bv] + rest_bundles_model(
                            *self,
                            file_list@,
                            incdirs_m,
                            defs_m,
                            top_given,
                        ));
                        assert(bundles_view(bundles@) + rest_bundles_model(
                            *self,
                            file_list@,
                            incdirs_m,
                            defs_m,
                            top_given,
                        ) =~= rest_bundles_model(*self, fl0, incdirs_m, defs_m, top_given));
                    }
                } else {
                    proof {
                        assert(kept_files_model(
                            *self,
                            top_given,
                            remaining_pre[0].files@,
                        ).len() == 0);
                        assert(rest_bundles_model(
                            *self,
                            remaining_pre,
                            incdirs_m,
                            defs_m,
                            top_given,
                        ) =~= rest_bundles_model(
                            *self,
                            file_list@,
                            incdirs_m,
                            defs_m,
                            top_given,
                        ));
                    }
                }
            }
        }
        proof {
            assert(rest_bundles_model(*self, file_list@, incdirs_m, defs_m, top_given)
                =~= Seq::<BundleModel>::empty());
            assert(base_files_model(*self, file_list@, incdirs_m, defs_m, top_given)
                =~= Seq::<Seq<u8>>::empty());
            assert(bundles_view(bundles@) =~= rest_bundles_model(
                *self,
                fl0,
                incdirs_m,
                defs_m,
                top_given,
            ));
            assert(names_model(base_files@) =~= base_files_model(
                *self,
                fl0,
                incdirs_m,
                defs_m,
                top_given,
            ));
        }
        // the resolved library files join the matching bundle
        let ghost base_after_bundles = names_model(base_files@);
        let mut ul: usize = 0;
        while ul < self.used_libs.len()
            invariant
                self.wf(),
                ul <= self.used_libs@.len(),
                names_model(base_files@) == base_after_bundles + names_model(
                    self.used_libs@.take(ul as int),
                ),
            decreases self.used_libs@.len() - ul,
        {
            proof {
                assert(names_model(self.used_libs@.take(ul + 1)) =~= names_model(
                    self.used_libs@.take(ul as int),
                ).push(self.used_libs@[ul as int]@));
            }
            let mut p: Vec<u8> = Vec::new();
            push_all(&mut p, &self.used_libs[ul]);
            let ghost base_pre = names_model(base_files@);
            base_files.push(p);
            proof {
                assert(names_model(base_files@) =~= base_pre.push(self.used_libs@[ul as int]@));
                assert(names_model(base_files@) =~= base_after_bundles + names_model(
                    self.used_libs@.take(ul + 1),
                ));
            }
            ul += 1;
        }
        proof {
            assert(self.used_libs@.take(self.used_libs@.len() as int) =~= self.used_libs@);
            assert(names_model(base_files@) =~= base_files_model(
                *self,
                fl0,
                incdirs_m,
                defs_m,
                top_given,
            ) + names_model(self.used_libs@));
        }
        let ghost rest_done = bundles_view(bundles@);
        if base_files.len() > 0 {
            let ghost base_done = names_model(base_files@);
            let tail_bundle = FileBundle {
                include_dirs,
                export_incdirs: Vec::new(),
                defines,
                files: base_files,
            };
            proof {
                assert(tail_bundle@ =~= (BundleModel {
                    include_dirs: incdirs_m,
                    export_incdirs: Seq::empty(),
                    defines: defs_m,
                    files: base_done,
                }));
            }
            let ghost tb = tail_bundle@;
            bundles.push(tail_bundle);
            proof {
                assert(bundles_view(bundles@) =~= rest_done.push(tb));
                assert(bundles_view(bundles@) =~= manifest_sources_model(
                    *self,
                    fl0,
                    incdirs_m,
                    defs_m,
                    top_given,
                ));
            }
        } else {
            proof {
                assert(bundles_view(bundles@) =~= manifest_sources_model(
                    *self,
                    fl0,
                    incdirs_m,
                    defs_m,
                    top_given,
                ));
            }
        }
        Manifest { sources: bundles, tops, undefined }
    }

    /// Attach the library map.
    pub fn add_libs(&mut self, libs: LibraryBundle) -> (r: Result<(), PickleError>)
        requires
            old(self).wf(),
            old(self).lib_attempted@.len() == 0,
        ensures
            final(self).wf(),
            r is Ok,
            *final(self) == (Pickle { libs: Some(libs), ..*old(self) }),
    {
        self.libs = Some(libs);
        Ok(())
    }
}

} // verus!
