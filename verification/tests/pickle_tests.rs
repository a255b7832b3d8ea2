// End-to-end scenarios and unit tests for the pickler, on hand-indexed
// SystemVerilog sources.

use morty::pickle::{FileBundle, LibraryBundle, Pickle};
use morty::source::{check_file, DeclRecord, InstRecord, ParsedFile, SVConstructType, UsageRecord};
use morty::{PickleError, Span};

fn b(s: &str) -> Vec<u8> {
    s.as_bytes().to_vec()
}

fn sp(offset: usize, len: usize) -> Span {
    Span { offset, len }
}

fn find(hay: &str, needle: &str) -> usize {
    hay.find(needle).unwrap()
}

fn find_from(hay: &str, needle: &str, from: usize) -> usize {
    from + hay[from..].find(needle).unwrap()
}

/// The output after the banner line and the blank line that follows it.
fn tail_after_banner(v: &[u8]) -> Vec<u8> {
    let pos = v.windows(2).position(|w| w == b"\n\n").unwrap();
    v[pos + 2..].to_vec()
}

fn contains(hay: &[u8], needle: &[u8]) -> bool {
    hay.windows(needle.len()).any(|w| w == needle)
}

/// A module declaration record for `name` inside `src`, with optional
/// usages and wildcard instantiations.
fn module_decl(
    src: &str,
    header_start: usize,
    header_text: &str,
    name: &str,
    usages: Vec<UsageRecord>,
    insts: Vec<InstRecord>,
    ports: Vec<Vec<u8>>,
) -> DeclRecord {
    let ident_off = find_from(src, name, header_start);
    DeclRecord {
        kind: SVConstructType::Module,
        name: b(name),
        header: sp(header_start, header_text.len()),
        ident: sp(ident_off, name.len()),
        ports,
        usages,
        insts,
    }
}

fn plain_file(path: &str, src: &str, decls: Vec<DeclRecord>) -> ParsedFile {
    let f = ParsedFile {
        path: b(path),
        source: b(src),
        decls,
        global_imports: Vec::new(),
        macro_defs: Vec::new(),
        timeunits: Vec::new(),
    };
    assert!(check_file(&f));
    f
}

fn two_module_file() -> (ParsedFile, &'static str) {
    let src = "module foo; endmodule\nmodule bar; foo u(); endmodule\n";
    let h1 = "module foo; endmodule";
    let h2 = "module bar; foo u(); endmodule";
    let h2_start = find(src, h2);
    let use_off = find_from(src, "foo", h2_start);
    let d1 = module_decl(src, 0, h1, "foo", Vec::new(), Vec::new(), Vec::new());
    let d2 = module_decl(
        src,
        h2_start,
        h2,
        "bar",
        vec![UsageRecord { kind: SVConstructType::Module, name: b("foo"), token: sp(use_off, 3) }],
        Vec::new(),
        Vec::new(),
    );
    (plain_file("test/two.sv", src, vec![d1, d2]), src)
}

#[test]
fn rename_with_prefix() {
    let (f, _) = two_module_file();
    let mut p = Pickle::new();
    p.add_files(vec![f]);
    p.build_graph().unwrap();
    p.rename(Some(&b("x_")), None, &Vec::new()).unwrap();
    let out = p.get_classic_pickle().unwrap();
    let tail = tail_after_banner(&out);
    assert_eq!(
        tail,
        b("module x_foo; endmodule\nmodule x_bar; x_foo u(); endmodule\n"),
    );
}

#[test]
fn rename_with_suffix() {
    let (f, _) = two_module_file();
    let mut p = Pickle::new();
    p.add_files(vec![f]);
    p.build_graph().unwrap();
    p.rename(None, Some(&b("_s")), &Vec::new()).unwrap();
    let out = p.get_classic_pickle().unwrap();
    let tail = tail_after_banner(&out);
    assert_eq!(
        tail,
        b("module foo_s; endmodule\nmodule bar_s; foo_s u(); endmodule\n"),
    );
}

#[test]
fn exclude_from_rename() {
    let (f, _) = two_module_file();
    let mut p = Pickle::new();
    p.add_files(vec![f]);
    p.build_graph().unwrap();
    p.rename(Some(&b("x_")), None, &vec![b("foo")]).unwrap();
    let out = p.get_classic_pickle().unwrap();
    let tail = tail_after_banner(&out);
    assert_eq!(
        tail,
        b("module foo; endmodule\nmodule x_bar; foo u(); endmodule\n"),
    );
}

#[test]
fn identity_without_options() {
    let (f, src) = two_module_file();
    let mut p = Pickle::new();
    p.add_files(vec![f]);
    p.build_graph().unwrap();
    let out = p.get_classic_pickle().unwrap();
    let tail = tail_after_banner(&out);
    assert_eq!(tail, b(src));
}

#[test]
fn identity_adds_missing_newline() {
    let src = "module m; endmodule";
    let d = module_decl(src, 0, src, "m", Vec::new(), Vec::new(), Vec::new());
    let f = plain_file("test/nl.sv", src, vec![d]);
    let mut p = Pickle::new();
    p.add_files(vec![f]);
    let out = p.get_classic_pickle().unwrap();
    let tail = tail_after_banner(&out);
    assert_eq!(tail, b("module m; endmodule\n"));
}

fn three_module_files() -> Vec<ParsedFile> {
    let src_a = "module a; b u(); endmodule\n";
    let src_b = "module b; endmodule\n";
    let src_c = "module c; endmodule\n";
    let use_off = find(src_a, "b u");
    let da = module_decl(
        src_a,
        0,
        "module a; b u(); endmodule",
        "a",
        vec![UsageRecord { kind: SVConstructType::Module, name: b("b"), token: sp(use_off, 1) }],
        Vec::new(),
        Vec::new(),
    );
    let db = module_decl(src_b, 0, "module b; endmodule", "b", Vec::new(), Vec::new(), Vec::new());
    let dc = module_decl(src_c, 0, "module c; endmodule", "c", Vec::new(), Vec::new(), Vec::new());
    vec![
        plain_file("test/a.sv", src_a, vec![da]),
        plain_file("test/b.sv", src_b, vec![db]),
        plain_file("test/c.sv", src_c, vec![dc]),
    ]
}

#[test]
fn top_pruning() {
    let mut p = Pickle::new();
    p.add_files(three_module_files());
    p.build_graph().unwrap();
    p.prune_graph(&b("a")).unwrap();
    let out = p.get_pickle(&Vec::new()).unwrap();
    let tail = tail_after_banner(&out);
    // `b` has no uses left, so it comes first; `c` is gone
    assert_eq!(tail, b("module b; endmodule\nmodule a; b u(); endmodule\n"));
    let m = p.get_manifest(Vec::new(), Vec::new(), Vec::new(), true);
    assert_eq!(m.tops, vec![b("a")]);
    assert_eq!(m.undefined.len(), 0);
}

#[test]
fn prune_unknown_top_fails() {
    let mut p = Pickle::new();
    p.add_files(three_module_files());
    p.build_graph().unwrap();
    match p.prune_graph(&b("zzz")) {
        Err(PickleError::TopNotFound { name }) => assert_eq!(name, b("zzz")),
        _ => panic!("expected TopNotFound"),
    }
}

#[test]
fn library_fill_in() {
    let src_top = "module top; lib_mod u(); endmodule\n";
    let use_off = find(src_top, "lib_mod u");
    let dtop = module_decl(
        src_top,
        0,
        "module top; lib_mod u(); endmodule",
        "top",
        vec![UsageRecord {
            kind: SVConstructType::Module,
            name: b("lib_mod"),
            token: sp(use_off, 7),
        }],
        Vec::new(),
        Vec::new(),
    );
    let mut p = Pickle::new();
    p.add_files(vec![plain_file("test/top.sv", src_top, vec![dtop])]);
    p.add_libs(LibraryBundle {
        include_dirs: Vec::new(),
        defines: Vec::new(),
        files: vec![(b("lib_mod"), b("test/lib_mod.sv"))],
    })
    .unwrap();
    p.build_graph().unwrap();
    let mut served = 0;
    while let Some((name, path)) = p.next_library_request() {
        assert_eq!(name, b("lib_mod"));
        assert_eq!(path, b("test/lib_mod.sv"));
        let src_lib = "module lib_mod; endmodule\n";
        let dlib = module_decl(
            src_lib,
            0,
            "module lib_mod; endmodule",
            "lib_mod",
            Vec::new(),
            Vec::new(),
            Vec::new(),
        );
        p.add_library_file(plain_file("test/lib_mod.sv", src_lib, vec![dlib])).unwrap();
        served += 1;
    }
    assert_eq!(served, 1);
    let out = p.get_pickle(&Vec::new()).unwrap();
    let tail = tail_after_banner(&out);
    assert_eq!(tail, b("module lib_mod; endmodule\nmodule top; lib_mod u(); endmodule\n"));
    let m = p.get_manifest(Vec::new(), Vec::new(), Vec::new(), false);
    assert_eq!(m.undefined.len(), 0);
    assert_eq!(m.sources.len(), 1);
    assert_eq!(m.sources[0].files, vec![b("test/lib_mod.sv")]);
}

#[test]
fn macro_stripping() {
    let src = "`define W 8\nmodule m; endmodule\n";
    let h_start = find(src, "module m");
    let mut f = plain_file(
        "test/mac.sv",
        src,
        vec![module_decl(src, h_start, "module m; endmodule", "m", Vec::new(), Vec::new(), Vec::new())],
    );
    f.macro_defs = vec![sp(0, find(src, "module m"))];
    assert!(check_file(&f));
    let mut p = Pickle::new();
    p.add_files(vec![f]);
    p.build_graph().unwrap();
    p.remove_macros().unwrap();
    let out = p.get_classic_pickle().unwrap();
    let tail = tail_after_banner(&out);
    assert_eq!(tail, b("module m; endmodule\n"));
}

#[test]
fn timeunit_stripping() {
    let src = "timeunit 1ns;\nmodule m; endmodule\n";
    let h_start = find(src, "module m");
    let mut f = plain_file(
        "test/tu.sv",
        src,
        vec![module_decl(src, h_start, "module m; endmodule", "m", Vec::new(), Vec::new(), Vec::new())],
    );
    f.timeunits = vec![sp(0, h_start)];
    assert!(check_file(&f));
    let mut p = Pickle::new();
    p.add_files(vec![f]);
    p.build_graph().unwrap();
    p.remove_timeunits().unwrap();
    let out = p.get_classic_pickle().unwrap();
    let tail = tail_after_banner(&out);
    assert_eq!(tail, b("module m; endmodule\n"));
}

#[test]
fn dot_star_expansion() {
    let src_sub = "module sub(input a, input b, input c); endmodule\n";
    let dsub = module_decl(
        src_sub,
        0,
        "module sub(input a, input b, input c); endmodule",
        "sub",
        Vec::new(),
        Vec::new(),
        vec![b("a"), b("b"), b("c")],
    );
    let src_top = "module top; sub u(.a(x), .*); endmodule\n";
    let use_off = find(src_top, "sub u");
    let star_off = find(src_top, ".*");
    let dtop = module_decl(
        src_top,
        0,
        "module top; sub u(.a(x), .*); endmodule",
        "top",
        vec![UsageRecord { kind: SVConstructType::Module, name: b("sub"), token: sp(use_off, 3) }],
        vec![InstRecord { target: b("sub"), dot_star: sp(star_off, 2), connected: vec![b("a")] }],
        Vec::new(),
    );
    let mut p = Pickle::new();
    p.add_files(vec![
        plain_file("test/sub.sv", src_sub, vec![dsub]),
        plain_file("test/topd.sv", src_top, vec![dtop]),
    ]);
    p.build_graph().unwrap();
    p.infer_dot_star().unwrap();
    let out = p.get_classic_pickle().unwrap();
    let tail = tail_after_banner(&out);
    assert!(contains(&tail, &b("module top; sub u(.a(x), .b(b), .c(c)); endmodule")));
}

#[test]
fn dot_star_unknown_target_fails() {
    let src_top = "module top; sub u(.*); endmodule\n";
    let use_off = find(src_top, "sub u");
    let star_off = find(src_top, ".*");
    let dtop = module_decl(
        src_top,
        0,
        "module top; sub u(.*); endmodule",
        "top",
        vec![UsageRecord { kind: SVConstructType::Module, name: b("sub"), token: sp(use_off, 3) }],
        vec![InstRecord { target: b("sub"), dot_star: sp(star_off, 2), connected: Vec::new() }],
        Vec::new(),
    );
    let mut p = Pickle::new();
    p.add_files(vec![plain_file("test/tops.sv", src_top, vec![dtop])]);
    p.build_graph().unwrap();
    match p.infer_dot_star() {
        Err(PickleError::DotStarTargetUndeclared { name }) => assert_eq!(name, b("sub")),
        _ => panic!("expected DotStarTargetUndeclared"),
    }
}

#[test]
fn duplicate_declaration_fails() {
    let src = "module m; endmodule\n";
    let mk = || {
        plain_file(
            "test/m.sv",
            src,
            vec![module_decl(src, 0, "module m; endmodule", "m", Vec::new(), Vec::new(), Vec::new())],
        )
    };
    let mut p = Pickle::new();
    p.add_files(vec![mk(), mk()]);
    match p.build_graph() {
        Err(PickleError::DuplicateDeclaration { name }) => assert_eq!(name, b("m")),
        _ => panic!("expected DuplicateDeclaration"),
    }
}

#[test]
fn cyclic_instantiation_fails() {
    let src_a = "module a; b u(); endmodule\n";
    let src_b = "module b; a u(); endmodule\n";
    let da = module_decl(
        src_a,
        0,
        "module a; b u(); endmodule",
        "a",
        vec![UsageRecord {
            kind: SVConstructType::Module,
            name: b("b"),
            token: sp(find(src_a, "b u"), 1),
        }],
        Vec::new(),
        Vec::new(),
    );
    let db = module_decl(
        src_b,
        0,
        "module b; a u(); endmodule",
        "b",
        vec![UsageRecord {
            kind: SVConstructType::Module,
            name: b("a"),
            token: sp(find(src_b, "a u"), 1),
        }],
        Vec::new(),
        Vec::new(),
    );
    let mut p = Pickle::new();
    p.add_files(vec![
        plain_file("test/ca.sv", src_a, vec![da]),
        plain_file("test/cb.sv", src_b, vec![db]),
    ]);
    p.build_graph().unwrap();
    match p.get_pickle(&Vec::new()) {
        Err(PickleError::Cycle) => {},
        _ => panic!("expected Cycle"),
    }
}

#[test]
fn planning_renames_twice_reports_overlap() {
    let (f, _) = two_module_file();
    let mut p = Pickle::new();
    p.add_files(vec![f]);
    p.build_graph().unwrap();
    p.rename(Some(&b("x_")), None, &Vec::new()).unwrap();
    match p.rename(Some(&b("y_")), None, &Vec::new()) {
        Err(PickleError::EditOverlap { .. }) => {},
        _ => panic!("expected EditOverlap"),
    }
}

#[test]
fn exclusion_skips_declaration() {
    let mut p = Pickle::new();
    p.add_files(three_module_files());
    p.build_graph().unwrap();
    let out = p.get_pickle(&vec![b("c")]).unwrap();
    let tail = tail_after_banner(&out);
    assert!(!contains(&tail, &b("module c")));
    assert!(contains(&tail, &b("module a")));
    assert!(contains(&tail, &b("module b")));
}

#[test]
fn kind_mismatch_reported() {
    let src_m = "module m; endmodule\n";
    let src_u = "module w; m u(); endmodule\n";
    let dm = module_decl(src_m, 0, "module m; endmodule", "m", Vec::new(), Vec::new(), Vec::new());
    let du = module_decl(
        src_u,
        0,
        "module w; m u(); endmodule",
        "w",
        vec![UsageRecord {
            kind: SVConstructType::Package,
            name: b("m"),
            token: sp(find(src_u, "m u"), 1),
        }],
        Vec::new(),
        Vec::new(),
    );
    let mut p = Pickle::new();
    p.add_files(vec![
        plain_file("test/km.sv", src_m, vec![dm]),
        plain_file("test/kw.sv", src_u, vec![du]),
    ]);
    p.build_graph().unwrap();
    assert_eq!(p.mismatches.len(), 1);
    assert_eq!(p.mismatches[0].name, b("m"));
    assert_eq!(p.mismatches[0].declared, SVConstructType::Module);
    assert_eq!(p.mismatches[0].used, SVConstructType::Package);
}

#[test]
fn global_import_links_every_declaration() {
    let src = "import pkg::*;\nmodule g; endmodule\n";
    let h_start = find(src, "module g");
    let mut f = plain_file(
        "test/gi.sv",
        src,
        vec![module_decl(src, h_start, "module g; endmodule", "g", Vec::new(), Vec::new(), Vec::new())],
    );
    f.global_imports = vec![UsageRecord {
        kind: SVConstructType::Package,
        name: b("pkg"),
        token: sp(find(src, "pkg"), 3),
    }];
    assert!(check_file(&f));
    let mut p = Pickle::new();
    p.add_files(vec![f]);
    p.build_graph().unwrap();
    let m = p.get_manifest(Vec::new(), Vec::new(), Vec::new(), false);
    // the import has no declaration, so it is undefined and `g` points at it
    assert_eq!(m.undefined, vec![b("pkg")]);
    assert_eq!(m.tops, vec![b("g")]);
}

#[test]
fn manifest_keeps_bundles_without_top() {
    let mut p = Pickle::new();
    p.add_files(three_module_files());
    p.build_graph().unwrap();
    let bundle = FileBundle {
        include_dirs: vec![b("inc")],
        export_incdirs: Vec::new(),
        defines: Vec::new(),
        files: vec![b("test/a.sv"), b("test/zzz.sv")],
    };
    let m = p.get_manifest(vec![bundle], Vec::new(), Vec::new(), false);
    // no top given: the bundle's files stay as they are
    assert_eq!(m.sources.len(), 1);
    assert_eq!(m.sources[0].files, vec![b("test/a.sv"), b("test/zzz.sv")]);
}

#[test]
fn dot_output_lists_nodes_and_edges() {
    let mut p = Pickle::new();
    p.add_files(three_module_files());
    p.build_graph().unwrap();
    let dot = p.get_dot();
    assert!(contains(&dot, &b("digraph {")));
    assert!(contains(&dot, &b("0 [ label = \"a\" ]")));
    assert!(contains(&dot, &b("1 [ label = \"b\" ]")));
    assert!(contains(&dot, &b("2 [ label = \"c\" ]")));
    assert!(contains(&dot, &b("0 -> 1 [ ]")));
}

#[test]
fn preprocess_echoes_sources() {
    let (f, src) = two_module_file();
    let mut p = Pickle::new();
    p.add_files(vec![f]);
    let out = p.just_preprocess();
    let tail = tail_after_banner(&out);
    assert_eq!(tail, b(src));
}

#[test]
fn banner_names_tool_and_version() {
    let p = Pickle::new();
    let out = p.just_preprocess();
    assert!(out.starts_with(&b("// Compiled by morty-0.1.0 / ")));
}

#[test]
fn owner_of_token_finds_the_containing_declaration() {
    let (f, src) = two_module_file();
    let h2_start = find(src, "module bar");
    let inside_bar = sp(h2_start + 4, 1);
    assert_eq!(morty::source::owner_of_token(&f.decls, inside_bar), Some(1));
    let before_all = sp(src.len(), 1);
    assert_eq!(morty::source::owner_of_token(&f.decls, before_all), None);
}

#[test]
fn check_file_rejects_bad_span() {
    let src = "module m; endmodule";
    let mut d = module_decl(src, 0, src, "m", Vec::new(), Vec::new(), Vec::new());
    d.header = sp(0, src.len() + 5);
    let f = ParsedFile {
        path: b("test/bad.sv"),
        source: b(src),
        decls: vec![d],
        global_imports: Vec::new(),
        macro_defs: Vec::new(),
        timeunits: Vec::new(),
    };
    assert!(!check_file(&f));
}
