//! The library's laws: what holds of every input, stated once and proved
//! from the public contracts.

use vstd::prelude::*;

use crate::bytes::name_in;
use crate::edit::{
    edits_view, sorted_edits, spec_apply, window_edits, EditModel,
};
use crate::pickle::{
    banner_model, classic_chunk_ok, concat_chunks, declared_in, decls_view, edit_ok, lib_has,
    rename_models, remaining_ports, seq_name_in, usage_rename_models, version_model,
    with_newline, wrapped_name, DeclModel, Pickle, UsageModel,
};
use crate::source::ParsedFile;

verus! {

/// A name occurs in a list of byte strings.
pub open spec fn seq_has(s: Seq<Seq<u8>>, x: Seq<u8>) -> bool {
    exists|i: int| 0 <= i < s.len() && #[trigger] s[i] == x
}

/// Identity: with an empty rewrite plan, each emitted chunk is the file's
/// preprocessed text itself, terminated by a line end; the whole output is
/// the banner and the files in input order.
pub proof fn lemma_identity_emission(p: Pickle, ts: Seq<u8>, v: Seq<u8>, chunks: Seq<Seq<u8>>)
    requires
        p.wf(),
        p.replace_table@.len() == 0,
        chunks.len() == p.all_files@.len(),
        forall|i: int| 0 <= i < chunks.len() ==> #[trigger] classic_chunk_ok(p, i, chunks[i]),
        v == banner_model(version_model(), ts) + concat_chunks(chunks),
    ensures
        forall|i: int|
            0 <= i < chunks.len() ==> #[trigger] chunks[i] == with_newline(
                p.all_files@[i].source@,
            ),
        v == banner_model(version_model(), ts) + concat_chunks(
            Seq::new(p.all_files@.len(), |i: int| with_newline(p.all_files@[i].source@)),
        ),
{
    broadcast use vstd::seq_lib::group_to_multiset_ensures;

    assert forall|i: int|
        0 <= i < chunks.len() implies #[trigger] chunks[i] == with_newline(
        p.all_files@[i].source@,
    ) by {
        assert(classic_chunk_ok(p, i, chunks[i]));
        let body = choose|body: Seq<u8>|
            crate::pickle::is_applied_window(
                edits_view(p.replace_table@),
                p.all_files@[i].source@,
                i,
                0,
                p.all_files@[i].source@.len() as int,
                body,
            ) && chunks[i] == with_newline(body);
        let s = choose|s: Seq<EditModel>|
            {
                &&& s.to_multiset() == window_edits(
                    edits_view(p.replace_table@),
                    i,
                    0,
                    0 + p.all_files@[i].source@.len() as int,
                ).to_multiset()
                &&& sorted_edits(s)
                &&& body == spec_apply(
                    p.all_files@[i].source@,
                    0,
                    0 + p.all_files@[i].source@.len() as int,
                    s,
                )
            };
        assert(edits_view(p.replace_table@) =~= Seq::<EditModel>::empty());
        assert(window_edits(
            edits_view(p.replace_table@),
            i,
            0,
            0 + p.all_files@[i].source@.len() as int,
        ) =~= Seq::<EditModel>::empty()) by {
            reveal(Seq::filter);
        }
        assert(s.len() == 0) by {
            assert(s.to_multiset().len() == Seq::<EditModel>::empty().to_multiset().len());
        }
        assert(body =~= p.all_files@[i].source@);
    }
    assert(chunks =~= Seq::new(
        p.all_files@.len(),
        |i: int| with_newline(p.all_files@[i].source@),
    ));
}

/// Edit non-overlap: the planner's edits of one file, filtered to a window
/// and sorted by offset, are chained—each ends at or before the next
/// begins.
pub proof fn lemma_edits_non_overlap(
    p: Pickle,
    fid: int,
    base: int,
    win_end: int,
    s: Seq<EditModel>,
)
    requires
        p.wf(),
        sorted_edits(s),
        s.to_multiset() == window_edits(
            edits_view(p.replace_table@),
            fid,
            base,
            win_end,
        ).to_multiset(),
    ensures
        crate::edit::chained_edits(s),
{
    assert forall|k: int|
        0 <= k < edits_view(p.replace_table@).len() implies (#[trigger] edits_view(
        p.replace_table@,
    )[k]).len >= 1 by {
        assert(edit_ok(p.replace_table@[k]@, p.all_files@));
    }
    crate::edit::lemma_sorted_selection_chained(
        edits_view(p.replace_table@),
        fid,
        base,
        win_end,
        s,
    );
}

/// Rename bijection, the replaced side: for every declaration not excluded
/// from renaming, the plan holds the edit that replaces its name token by
/// prefix + name + suffix, and one such edit for every usage of its name.
pub proof fn lemma_rename_bijection(
    ds: Seq<DeclModel>,
    us: Seq<UsageModel>,
    files: Seq<ParsedFile>,
    pb: Seq<u8>,
    sb: Seq<u8>,
    excl: Seq<Vec<u8>>,
    l: int,
)
    requires
        0 <= l < ds.len(),
        !seq_name_in(excl, ds[l].name),
    ensures
        rename_models(ds, us, files, pb, sb, excl).contains(
            crate::pickle::ident_rename_model(ds[l], files, wrapped_name(pb, ds[l].name, sb)),
        ),
        forall|k: int|
            0 <= k < us.len() && (#[trigger] us[k]).name == ds[l].name ==> rename_models(
                ds,
                us,
                files,
                pb,
                sb,
                excl,
            ).contains(
                EditModel {
                    file_id: us[k].file_id,
                    offset: us[k].offset,
                    len: us[k].len,
                    text: wrapped_name(pb, ds[l].name, sb),
                },
            ),
    decreases ds.len(),
{
    let whole = rename_models(ds, us, files, pb, sb, excl);
    let pre = rename_models(ds.drop_last(), us, files, pb, sb, excl);
    if l == ds.len() - 1 {
        let mine = seq![
            crate::pickle::ident_rename_model(ds[l], files, wrapped_name(pb, ds[l].name, sb)),
        ] + usage_rename_models(us, ds[l].name, wrapped_name(pb, ds[l].name, sb));
        assert(whole == pre + mine);
        assert(whole[pre.len() as int] == mine[0]);
        assert(whole.contains(mine[0]));
        assert forall|k: int|
            0 <= k < us.len() && (#[trigger] us[k]).name == ds[l].name implies whole.contains(
            EditModel {
                file_id: us[k].file_id,
                offset: us[k].offset,
                len: us[k].len,
                text: wrapped_name(pb, ds[l].name, sb),
            },
        ) by {
            lemma_usage_rename_contains(us, ds[l].name, wrapped_name(pb, ds[l].name, sb), k);
            let um = usage_rename_models(us, ds[l].name, wrapped_name(pb, ds[l].name, sb));
            let w = choose|w: int|
                0 <= w < um.len() && #[trigger] um[w] == (EditModel {
                    file_id: us[k].file_id,
                    offset: us[k].offset,
                    len: us[k].len,
                    text: wrapped_name(pb, ds[l].name, sb),
                });
            assert(whole[pre.len() + 1 + w] == um[w]);
        }
    } else {
        assert(ds.drop_last()[l] == ds[l]);
        lemma_rename_bijection(ds.drop_last(), us, files, pb, sb, excl, l);
        let im = crate::pickle::ident_rename_model(ds[l], files, wrapped_name(pb, ds[l].name, sb));
        assert(pre.contains(im));
        let w = choose|w: int| 0 <= w < pre.len() && #[trigger] pre[w] == im;
        assert(whole[w] == im);
        assert forall|k: int|
            0 <= k < us.len() && (#[trigger] us[k]).name == ds[l].name implies whole.contains(
            EditModel {
                file_id: us[k].file_id,
                offset: us[k].offset,
                len: us[k].len,
                text: wrapped_name(pb, ds[l].name, sb),
            },
        ) by {
            let e = EditModel {
                file_id: us[k].file_id,
                offset: us[k].offset,
                len: us[k].len,
                text: wrapped_name(pb, ds[l].name, sb),
            };
            assert(pre.contains(e));
            let w2 = choose|w2: int| 0 <= w2 < pre.len() && #[trigger] pre[w2] == e;
            assert(whole[w2] == e);
        }
    }
}

/// Every usage of `nm` contributes its rename edit.
proof fn lemma_usage_rename_contains(us: Seq<UsageModel>, nm: Seq<u8>, txt: Seq<u8>, k: int)
    requires
        0 <= k < us.len(),
        us[k].name == nm,
    ensures
        usage_rename_models(us, nm, txt).contains(
            EditModel { file_id: us[k].file_id, offset: us[k].offset, len: us[k].len, text: txt },
        ),
    decreases us.len(),
{
    let whole = usage_rename_models(us, nm, txt);
    let pre = usage_rename_models(us.drop_last(), nm, txt);
    if k == us.len() - 1 {
        assert(whole[pre.len() as int] == (EditModel {
            file_id: us[k].file_id,
            offset: us[k].offset,
            len: us[k].len,
            text: txt,
        }));
    } else {
        assert(us.drop_last()[k] == us[k]);
        lemma_usage_rename_contains(us.drop_last(), nm, txt, k);
        let e = EditModel {
            file_id: us[k].file_id,
            offset: us[k].offset,
            len: us[k].len,
            text: txt,
        };
        let w = choose|w: int| 0 <= w < pre.len() && #[trigger] pre[w] == e;
        assert(whole[w] == e);
    }
}

/// The `.*` expansion preserves the port set: a declared port is either
/// already connected or among the expanded remainder, and the remainder
/// repeats no connected port.
pub proof fn lemma_dot_star_ports(ports: Seq<Vec<u8>>, connected: Seq<Vec<u8>>)
    requires
        forall|i: int| 0 <= i < connected.len() ==> name_in(ports, (#[trigger] connected[i])@),
    ensures
        forall|x: Seq<u8>|
            #![trigger name_in(ports, x)]
            name_in(ports, x) <==> (seq_has(remaining_ports(ports, connected), x) || name_in(
                connected,
                x,
            )),
        forall|x: Seq<u8>|
            seq_has(remaining_ports(ports, connected), x) ==> !name_in(connected, x),
    decreases ports.len(),
{
    let rem = remaining_ports(ports, connected);
    if ports.len() == 0 {
        assert forall|x: Seq<u8>|
            #![trigger name_in(ports, x)]
            name_in(ports, x) <==> (seq_has(rem, x) || name_in(connected, x)) by {
            if name_in(connected, x) {
                let i = choose|i: int| 0 <= i < connected.len() && (#[trigger] connected[i])@ == x;
                assert(name_in(ports, connected[i]@));
            }
            if seq_has(rem, x) {
                let i = choose|i: int| 0 <= i < rem.len() && #[trigger] rem[i] == x;
            }
        }
    } else {
        let d = ports.drop_last();
        let rd = remaining_ports(d, connected);
        assert forall|i: int|
            0 <= i < connected.len() implies name_in(d, (#[trigger] connected[i])@) || connected[i]@
            == ports.last()@ by {
            let j = choose|j: int| 0 <= j < ports.len() && (#[trigger] ports[j])@ == connected[i]@;
            if j < ports.len() - 1 {
                assert(d[j]@ == connected[i]@);
            }
        }
        assert forall|x: Seq<u8>|
            #![trigger name_in(ports, x)]
            name_in(ports, x) <==> (seq_has(rem, x) || name_in(connected, x)) by {
            lemma_remaining_subset(d, connected);
            if name_in(ports, x) {
                let j = choose|j: int| 0 <= j < ports.len() && (#[trigger] ports[j])@ == x;
                if j < ports.len() - 1 {
                    assert(name_in(d, x)) by {
                        assert(d[j]@ == x);
                    }
                    lemma_dot_star_partial(d, connected, x);
                    if seq_has(rd, x) {
                        let w = choose|w: int| 0 <= w < rd.len() && #[trigger] rd[w] == x;
                        assert(rem[w] == x);
                        assert(seq_has(rem, x));
                    }
                } else {
                    if !name_in(connected, ports.last()@) {
                        assert(rem[rd.len() as int] == ports.last()@);
                        assert(seq_has(rem, x));
                    }
                }
            }
            if seq_has(rem, x) {
                let w = choose|w: int| 0 <= w < rem.len() && #[trigger] rem[w] == x;
                if w < rd.len() {
                    assert(rd[w] == x);
                    lemma_dot_star_partial(d, connected, x);
                    let j = choose|j: int| 0 <= j < d.len() && (#[trigger] d[j])@ == x;
                    assert(ports[j]@ == x);
                } else {
                    assert(x == ports.last()@);
                    assert(ports[ports.len() - 1]@ == x);
                }
            }
            if name_in(connected, x) {
                let i = choose|i: int| 0 <= i < connected.len() && (#[trigger] connected[i])@ == x;
                let j = choose|j: int| 0 <= j < ports.len() && (#[trigger] ports[j])@ == x;
            }
        }
        assert forall|x: Seq<u8>|
            seq_has(rem, x) implies !name_in(connected, x) by {
            let w = choose|w: int| 0 <= w < rem.len() && #[trigger] rem[w] == x;
            if w < rd.len() {
                assert(rd[w] == x);
                lemma_remaining_not_connected(d, connected, x);
            } else {
                assert(x == ports.last()@);
            }
        }
    }
}

/// A remaining port of a prefix is a port of the prefix.
proof fn lemma_dot_star_partial(ports: Seq<Vec<u8>>, connected: Seq<Vec<u8>>, x: Seq<u8>)
    ensures
        name_in(ports, x) && !name_in(connected, x) ==> seq_has(
            remaining_ports(ports, connected),
            x,
        ),
        seq_has(remaining_ports(ports, connected), x) ==> name_in(ports, x),
    decreases ports.len(),
{
    let rem = remaining_ports(ports, connected);
    if ports.len() > 0 {
        let d = ports.drop_last();
        let rd = remaining_ports(d, connected);
        lemma_dot_star_partial(d, connected, x);
        if name_in(ports, x) && !name_in(connected, x) {
            let j = choose|j: int| 0 <= j < ports.len() && (#[trigger] ports[j])@ == x;
            if j < ports.len() - 1 {
                assert(name_in(d, x)) by {
                    assert(d[j]@ == x);
                }
                let w = choose|w: int| 0 <= w < rd.len() && #[trigger] rd[w] == x;
                assert(rem[w] == x);
            } else {
                assert(rem[rd.len() as int] == x);
            }
        }
        if seq_has(rem, x) {
            let w = choose|w: int| 0 <= w < rem.len() && #[trigger] rem[w] == x;
            if w < rd.len() {
                assert(rd[w] == x);
                let j = choose|j: int| 0 <= j < d.len() && (#[trigger] d[j])@ == x;
                assert(ports[j]@ == x);
            } else {
                assert(x == ports.last()@);
                assert(ports[ports.len() - 1]@ == x);
            }
        }
    } else {
        if seq_has(rem, x) {
            let w = choose|w: int| 0 <= w < rem.len() && #[trigger] rem[w] == x;
        }
    }
}

/// A remaining port was not connected.
proof fn lemma_remaining_not_connected(ports: Seq<Vec<u8>>, connected: Seq<Vec<u8>>, x: Seq<u8>)
    ensures
        seq_has(remaining_ports(ports, connected), x) ==> !name_in(connected, x),
    decreases ports.len(),
{
    let rem = remaining_ports(ports, connected);
    if ports.len() > 0 {
        let rd = remaining_ports(ports.drop_last(), connected);
        lemma_remaining_not_connected(ports.drop_last(), connected, x);
        if seq_has(rem, x) {
            let w = choose|w: int| 0 <= w < rem.len() && #[trigger] rem[w] == x;
            if w < rd.len() {
                assert(rd[w] == x);
                assert(seq_has(rd, x));
            }
        }
    } else {
        if seq_has(rem, x) {
            let w = choose|w: int| 0 <= w < rem.len() && #[trigger] rem[w] == x;
        }
    }
}

/// A remaining port is one of the declared ports.
proof fn lemma_remaining_subset(ports: Seq<Vec<u8>>, connected: Seq<Vec<u8>>)
    ensures
        forall|w: int|
            0 <= w < remaining_ports(ports, connected).len() ==> name_in(
                ports,
                #[trigger] remaining_ports(ports, connected)[w],
            ),
    decreases ports.len(),
{
    let rem = remaining_ports(ports, connected);
    if ports.len() > 0 {
        let d = ports.drop_last();
        let rd = remaining_ports(d, connected);
        lemma_remaining_subset(d, connected);
        assert forall|w: int|
            0 <= w < rem.len() implies name_in(ports, #[trigger] rem[w]) by {
            if w < rd.len() {
                assert(rem[w] == rd[w]);
                let j = choose|j: int| 0 <= j < d.len() && (#[trigger] d[j])@ == rd[w];
                assert(ports[j]@ == rem[w]);
            } else {
                assert(rem[w] == ports.last()@);
                assert(ports[ports.len() - 1]@ == rem[w]);
            }
        }
    }
}

/// Every emitted slot is a top or reachable from one: follow incoming
/// edges; their sources stand later in a topological order, so the walk
/// ends at a slot no edge enters.
proof fn lemma_order_reaches_top(p: Pickle, ord: Seq<usize>, k: int)
    requires
        p.wf(),
        crate::pickle::emission_order_ok(p, ord),
        forall|i: int|
            p.module_graph.node_alive(i) ==> declared_in(
                decls_view(p.declarations@),
                (#[trigger] p.module_graph.names@[i])@,
            ),
        0 <= k < ord.len(),
    ensures
        exists|t: int|
            p.module_graph.node_alive(t) && p.module_graph.indegree_zero(t)
                && #[trigger] p.module_graph.reaches(t, ord[k] as int),
    decreases ord.len() - k,
{
    let g = p.module_graph;
    let s = ord[k] as int;
    if g.indegree_zero(s) {
        assert(g.reaches(s, s)) by {
            let q = seq![s];
            assert(q[0] == s && q[q.len() - 1] == s);
            assert(g.is_path(q, s, s));
        }
        assert(g.node_alive(s) && g.indegree_zero(s) && g.reaches(s, s));
    } else {
        let a = choose|a: int| #[trigger] g.has_edge(a, s);
        assert(g.node_alive(a)) by {
            let w = choose|w: int|
                0 <= w < g.edges@.len() && (#[trigger] g.edges@[w]).0 == a && g.edges@[w].1 == s;
        }
        assert(declared_in(decls_view(p.declarations@), g.names@[a]@));
        let k2 = choose|k2: int| 0 <= k2 < ord.len() && (#[trigger] ord[k2]) as int == a;
        assert(k < k2) by {
            assert(g.has_edge(ord[k2] as int, ord[k] as int));
        }
        lemma_order_reaches_top(p, ord, k2);
        let t = choose|t: int|
            g.node_alive(t) && g.indegree_zero(t) && #[trigger] g.reaches(t, ord[k2] as int);
        g.lemma_reach_step(t, a, s);
        assert(g.node_alive(t) && g.indegree_zero(t) && g.reaches(t, ord[k] as int));
    }
}

/// Manifest closure: when every node is declared and a topological
/// emission order exists, the nodes — the declared names of the output —
/// are exactly the tops together with everything a top reaches.
pub proof fn lemma_manifest_closure(p: Pickle, ord: Seq<usize>)
    requires
        p.wf(),
        crate::pickle::emission_order_ok(p, ord),
        forall|i: int|
            p.module_graph.node_alive(i) ==> declared_in(
                decls_view(p.declarations@),
                (#[trigger] p.module_graph.names@[i])@,
            ),
    ensures
        forall|x: Seq<u8>| #![trigger p.module_graph.has_node(x)]
            p.module_graph.has_node(x) <==> (p.module_graph.is_top_name(x) || exists|t: Seq<u8>|
                #[trigger] p.module_graph.is_top_name(t) && p.module_graph.name_reaches(t, x)),
        forall|x: Seq<u8>| #![trigger p.module_graph.has_node(x)]
            p.module_graph.has_node(x) <==> exists|k: int|
                0 <= k < ord.len() && p.module_graph.names@[(#[trigger] ord[k]) as int]@ == x,
{
    let g = p.module_graph;
    assert forall|x: Seq<u8>| #![trigger g.has_node(x)]
        g.has_node(x) <==> (g.is_top_name(x) || exists|t: Seq<u8>|
            #[trigger] g.is_top_name(t) && g.name_reaches(t, x)) by {
        if g.has_node(x) {
            let i = choose|i: int| g.node_alive(i) && #[trigger] g.names@[i]@ == x;
            assert(declared_in(decls_view(p.declarations@), g.names@[i]@));
            let k = choose|k: int| 0 <= k < ord.len() && (#[trigger] ord[k]) as int == i;
            lemma_order_reaches_top(p, ord, k);
            let t = choose|t: int|
                g.node_alive(t) && g.indegree_zero(t) && #[trigger] g.reaches(t, ord[k] as int);
            assert(g.is_top_name(g.names@[t]@)) by {
                assert(g.node_alive(t) && g.names@[t]@ == g.names@[t]@ && g.indegree_zero(t));
            }
            assert(g.name_reaches(g.names@[t]@, x)) by {
                assert(g.node_alive(t) && g.node_alive(i) && g.names@[t]@ == g.names@[t]@
                    && g.names@[i]@ == x && g.reaches(t, i));
            }
        }
        if g.is_top_name(x) {
            let i = choose|i: int|
                g.node_alive(i) && (#[trigger] g.names@[i])@ == x && g.indegree_zero(i);
            assert(g.has_node(x));
        }
        if exists|t: Seq<u8>| #[trigger] g.is_top_name(t) && g.name_reaches(t, x) {
            let t = choose|t: Seq<u8>| #[trigger] g.is_top_name(t) && g.name_reaches(t, x);
            let (a, b) = choose|a: int, b: int|
                g.node_alive(a) && g.node_alive(b) && g.names@[a]@ == t && g.names@[b]@ == x
                    && #[trigger] g.reaches(a, b);
            assert(g.has_node(x));
        }
    }
    assert forall|x: Seq<u8>| #![trigger g.has_node(x)]
        g.has_node(x) <==> exists|k: int|
            0 <= k < ord.len() && g.names@[(#[trigger] ord[k]) as int]@ == x by {
        if g.has_node(x) {
            let i = choose|i: int| g.node_alive(i) && #[trigger] g.names@[i]@ == x;
            assert(declared_in(decls_view(p.declarations@), g.names@[i]@));
            let k = choose|k: int| 0 <= k < ord.len() && (#[trigger] ord[k]) as int == i;
            assert(g.names@[ord[k] as int]@ == x);
        }
        if exists|k: int| 0 <= k < ord.len() && g.names@[(#[trigger] ord[k]) as int]@ == x {
            let k = choose|k: int|
                0 <= k < ord.len() && g.names@[(#[trigger] ord[k]) as int]@ == x;
            assert(g.node_alive(ord[k] as int));
        }
    }
}

/// Library closure: once the resolver reports nothing left to request and
/// every requested file's module was registered, every referenced name the
/// library map knows has a declaration record.
pub proof fn lemma_library_closure(p: Pickle)
    requires
        p.wf(),
        p.libs is Some,
        // the resolver found nothing left to request
        forall|x: Seq<u8>| #![trigger p.module_graph.has_node(x)]
            p.module_graph.has_node(x) && !declared_in(decls_view(p.declarations@), x) && lib_has(
                p.libs.unwrap().files@,
                x,
            ) ==> name_in(p.lib_attempted@, x),
        // every requested module was parsed and declared
        forall|k: int|
            0 <= k < p.lib_attempted@.len() ==> declared_in(
                decls_view(p.declarations@),
                (#[trigger] p.lib_attempted@[k])@,
            ),
    ensures
        forall|k: int|
            0 <= k < p.usages@.len() && lib_has(
                p.libs.unwrap().files@,
                (#[trigger] p.usages@[k])@.name,
            ) ==> declared_in(decls_view(p.declarations@), p.usages@[k]@.name),
{
    assert forall|k: int|
        0 <= k < p.usages@.len() && lib_has(
            p.libs.unwrap().files@,
            (#[trigger] p.usages@[k])@.name,
        ) implies declared_in(decls_view(p.declarations@), p.usages@[k]@.name) by {
        assert(p.module_graph.has_node(p.usages@[k]@.name));
        if !declared_in(decls_view(p.declarations@), p.usages@[k]@.name) {
            assert(name_in(p.lib_attempted@, p.usages@[k]@.name));
            let w = choose|w: int|
                0 <= w < p.lib_attempted@.len() && (#[trigger] p.lib_attempted@[w])@
                    == p.usages@[k]@.name;
            assert(declared_in(decls_view(p.declarations@), p.lib_attempted@[w]@));
        }
    }
}

} // verus!
