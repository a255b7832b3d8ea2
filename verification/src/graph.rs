//! The dependency graph over declaration names.
//!
//! Nodes are names; an edge `parent -> child` records that the declaration
//! `parent` uses the name `child`.  Nodes keep their index for their whole
//! life; pruning marks nodes dead and drops their edges.  A name is a node
//! if and only if it is the name of a live slot, and live names are unique.

use vstd::prelude::*;

use crate::bytes::bytes_eq;
use crate::PickleError;

verus! {

/// Directed graph over names, with reachability pruning and a topological
/// emission order.
pub struct DepGraph {
    pub names: Vec<Vec<u8>>,
    pub alive: Vec<bool>,
    pub edges: Vec<(usize, usize)>,
}

/// How many entries of `s` are true.
pub open spec fn count_true(s: Seq<bool>) -> int
    decreases s.len(),
{
    if s.len() == 0 {
        0
    } else {
        count_true(s.drop_last()) + if s.last() {
            1int
        } else {
            0int
        }
    }
}

proof fn lemma_count_true_update(s: Seq<bool>, i: int, v: bool)
    requires
        0 <= i < s.len(),
    ensures
        count_true(s.update(i, v)) == count_true(s) - (if s[i] {
            1int
        } else {
            0int
        }) + (if v {
            1int
        } else {
            0int
        }),
    decreases s.len(),
{
    let t = s.update(i, v);
    if i == s.len() - 1 {
        assert(t.drop_last() =~= s.drop_last());
    } else {
        assert(t.drop_last() =~= s.drop_last().update(i, v));
        assert(t.last() == s.last());
        lemma_count_true_update(s.drop_last(), i, v);
    }
}

proof fn lemma_count_true_bounds(s: Seq<bool>)
    ensures
        0 <= count_true(s) <= s.len(),
    decreases s.len(),
{
    if s.len() > 0 {
        lemma_count_true_bounds(s.drop_last());
    }
}

/// `a` occurs in the stack.
pub open spec fn in_stack(st: Seq<usize>, a: int) -> bool {
    exists|k: int| 0 <= k < st.len() && st[k] == a
}

/// Both endpoints of the edge are kept.
pub open spec fn edge_kept(e: (usize, usize), keep: Seq<bool>) -> bool {
    &&& 0 <= e.0 < keep.len()
    &&& 0 <= e.1 < keep.len()
    &&& keep[e.0 as int]
    &&& keep[e.1 as int]
}

/// The edges whose endpoints are both kept, in edge order.
pub open spec fn kept_of(es: Seq<(usize, usize)>, keep: Seq<bool>) -> Seq<(usize, usize)>
    decreases es.len(),
{
    if es.len() == 0 {
        Seq::empty()
    } else {
        kept_of(es.drop_last(), keep) + if edge_kept(es.last(), keep) {
            seq![es.last()]
        } else {
            Seq::<(usize, usize)>::empty()
        }
    }
}

/// What the kept edges are: each is a kept edge of the original list, every
/// kept edge of the original list occurs, and no edge is duplicated when the
/// original list holds none twice.
proof fn lemma_kept_of_props(es: Seq<(usize, usize)>, keep: Seq<bool>)
    requires
        forall|k: int, l: int| 0 <= k < l < es.len() ==> (#[trigger] es[k]) != (#[trigger] es[l]),
    ensures
        forall|l: int|
            0 <= l < kept_of(es, keep).len() ==> edge_kept(#[trigger] kept_of(es, keep)[l], keep)
                && es.contains(kept_of(es, keep)[l]),
        forall|m: int|
            0 <= m < es.len() && edge_kept(#[trigger] es[m], keep) ==> kept_of(es, keep).contains(
                es[m],
            ),
        forall|k: int, l: int|
            0 <= k < l < kept_of(es, keep).len() ==> (#[trigger] kept_of(es, keep)[k]) != (
            #[trigger] kept_of(es, keep)[l]),
    decreases es.len(),
{
    if es.len() > 0 {
        let d = es.drop_last();
        lemma_kept_of_props(d, keep);
        let w = kept_of(es, keep);
        let wd = kept_of(d, keep);
        assert forall|m: int|
            0 <= m < es.len() && edge_kept(#[trigger] es[m], keep) implies w.contains(es[m]) by {
            if m < es.len() - 1 {
                assert(d[m] == es[m]);
                assert(wd.contains(es[m]));
                let l = choose|l: int| 0 <= l < wd.len() && wd[l] == es[m];
                assert(w[l] == es[m]);
            } else {
                assert(w[w.len() - 1] == es[m]);
            }
        }
        assert forall|l: int|
            0 <= l < w.len() implies edge_kept(#[trigger] w[l], keep) && es.contains(w[l]) by {
            if l < wd.len() {
                assert(w[l] == wd[l]);
                assert(d.contains(wd[l]));
                let m = choose|m: int| 0 <= m < d.len() && d[m] == wd[l];
                assert(es[m] == w[l]);
            } else {
                assert(w[l] == es.last());
                assert(es[es.len() - 1] == w[l]);
            }
        }
        assert forall|k: int, l: int|
            0 <= k < l < w.len() implies (#[trigger] w[k]) != (#[trigger] w[l]) by {
            if l < wd.len() {
                assert(w[k] == wd[k] && w[l] == wd[l]);
            } else if edge_kept(es.last(), keep) && l == wd.len() {
                assert(w[k] == wd[k]);
                assert(d.contains(wd[k]));
                let m = choose|m: int| 0 <= m < d.len() && d[m] == wd[k];
                assert(es[m] == w[k]);
                assert(es[m] != es[es.len() - 1]);
            }
        }
    }
}

impl DepGraph {
    /// Number of node slots, live or dead.
    pub open spec fn n(self) -> int {
        self.names@.len() as int
    }

    /// Slot `i` holds a live node.
    pub open spec fn node_alive(self, i: int) -> bool {
        0 <= i < self.n() && self.alive@[i]
    }

    /// The name `x` is a node of the graph.
    pub open spec fn has_node(self, x: Seq<u8>) -> bool {
        exists|i: int| self.node_alive(i) && #[trigger] self.names@[i]@ == x
    }

    /// There is an edge from slot `a` to slot `b`.
    pub open spec fn has_edge(self, a: int, b: int) -> bool {
        exists|k: int|
            0 <= k < self.edges@.len() && (#[trigger] self.edges@[k]).0 == a && self.edges@[k].1
                == b
    }

    /// There is an edge from the node named `x` to the node named `y`.
    pub open spec fn name_edge(self, x: Seq<u8>, y: Seq<u8>) -> bool {
        exists|a: int, b: int|
            self.node_alive(a) && self.node_alive(b) && self.names@[a]@ == x && self.names@[b]@
                == y && #[trigger] self.has_edge(a, b)
    }

    /// `p` is a walk from slot `a` to slot `b` along edges.
    pub open spec fn is_path(self, p: Seq<int>, a: int, b: int) -> bool {
        &&& p.len() >= 1
        &&& p[0] == a
        &&& p[p.len() - 1] == b
        &&& forall|i: int| 0 <= i < p.len() - 1 ==> self.has_edge(#[trigger] p[i], p[i + 1])
    }

    /// Slot `b` can be reached from slot `a`; every slot reaches itself.
    pub open spec fn reaches(self, a: int, b: int) -> bool {
        exists|p: Seq<int>| self.is_path(p, a, b)
    }

    /// The node named `y` can be reached from the node named `x`.
    pub open spec fn name_reaches(self, x: Seq<u8>, y: Seq<u8>) -> bool {
        exists|a: int, b: int|
            self.node_alive(a) && self.node_alive(b) && self.names@[a]@ == x && self.names@[b]@
                == y && #[trigger] self.reaches(a, b)
    }

    /// No edge enters slot `i`.
    pub open spec fn indegree_zero(self, i: int) -> bool {
        forall|a: int| !#[trigger] self.has_edge(a, i)
    }

    /// Well-formed: one liveness flag per slot, slot names unique, and every
    /// edge joins two live slots, no edge twice.
    pub open spec fn wf(self) -> bool {
        &&& self.alive@.len() == self.n()
        &&& forall|i: int, j: int|
            0 <= i < j < self.n() ==> (#[trigger] self.names@[i])@ != (#[trigger] self.names@[j])@
        &&& forall|k: int|
            0 <= k < self.edges@.len() ==> self.node_alive((#[trigger] self.edges@[k]).0 as int)
                && self.node_alive(self.edges@[k].1 as int)
        &&& forall|k: int, l: int|
            0 <= k < l < self.edges@.len() ==> (#[trigger] self.edges@[k]) != (
            #[trigger] self.edges@[l])
    }

    pub fn new() -> (g: DepGraph)
        ensures
            g.wf(),
            g.n() == 0,
            g.edges@.len() == 0,
    {
        DepGraph { names: Vec::new(), alive: Vec::new(), edges: Vec::new() }
    }

    /// The slot of the node named `name`, if the name is a node.
    pub fn find(&self, name: &Vec<u8>) -> (r: Option<usize>)
        requires
            self.wf(),
        ensures
            match r {
                Some(i) => self.node_alive(i as int) && self.names@[i as int]@ == name@,
                None => !self.has_node(name@),
            },
    {
        let mut i: usize = 0;
        while i < self.names.len()
            invariant
                i <= self.n(),
                self.alive@.len() == self.n(),
                forall|j: int|
                    0 <= j < i ==> !(self.node_alive(j) && #[trigger] self.names@[j]@ == name@),
            decreases self.n() - i,
        {
            if self.alive[i] && bytes_eq(&self.names[i], name) {
                return Some(i);
            }
            i += 1;
        }
        None
    }


    /// Two graphs with the same edges whose names and liveness agree on the
    /// smaller one's slots have the same name-level edges.
    proof fn lemma_name_edge_same(g1: DepGraph, g2: DepGraph)
        requires
            g1.wf(),
            g2.edges@ == g1.edges@,
            g1.n() <= g2.n(),
            forall|j: int| 0 <= j < g1.n() ==> g2.names@[j] == g1.names@[j],
            forall|j: int| g1.node_alive(j) ==> g2.node_alive(j),
        ensures
            forall|u: Seq<u8>, v: Seq<u8>| g2.name_edge(u, v) <==> g1.name_edge(u, v),
    {
        assert forall|u: Seq<u8>, v: Seq<u8>|
            g2.name_edge(u, v) <==> g1.name_edge(u, v) by {
            if g2.name_edge(u, v) {
                let (a, b) = choose|a: int, b: int|
                    g2.node_alive(a) && g2.node_alive(b) && g2.names@[a]@ == u && g2.names@[b]@
                        == v && #[trigger] g2.has_edge(a, b);
                let w = choose|w: int|
                    0 <= w < g2.edges@.len() && (#[trigger] g2.edges@[w]).0 == a && g2.edges@[w].1
                        == b;
                assert(g1.node_alive(a) && g1.node_alive(b));
                assert(g1.names@[a]@ == u && g1.names@[b]@ == v);
                assert(g1.has_edge(a, b));
                assert(g1.name_edge(u, v));
            }
            if g1.name_edge(u, v) {
                let (a, b) = choose|a: int, b: int|
                    g1.node_alive(a) && g1.node_alive(b) && g1.names@[a]@ == u && g1.names@[b]@
                        == v && #[trigger] g1.has_edge(a, b);
                assert(g2.node_alive(a) && g2.node_alive(b));
                assert(g2.names@[a]@ == u && g2.names@[b]@ == v);
                assert(g2.has_edge(a, b));
                assert(g2.name_edge(u, v));
            }
        }
    }

    /// Make the name `name` a node, if it is not one yet; return its slot.
    pub fn ensure(&mut self, name: &Vec<u8>) -> (i: usize)
        requires
            old(self).wf(),
        ensures
            final(self).wf(),
            final(self).node_alive(i as int),
            final(self).names@[i as int]@ == name@,
            final(self).edges@ == old(self).edges@,
            old(self).n() <= final(self).n() <= old(self).n() + 1,
            forall|j: int|
                0 <= j < old(self).n() ==> final(self).names@[j] == old(self).names@[j],
            forall|j: int| old(self).node_alive(j) ==> final(self).node_alive(j),
            forall|j: int|
                final(self).node_alive(j) ==> old(self).node_alive(j) || (#[trigger] final(self).names@[j])@ == name@,
            forall|x: Seq<u8>| final(self).has_node(x) <==> old(self).has_node(x) || x == name@,
            forall|u: Seq<u8>, v: Seq<u8>|
                final(self).name_edge(u, v) <==> old(self).name_edge(u, v),
    {
        // a live slot with this name is reused; a dead one is revived
        let mut j: usize = 0;
        while j < self.names.len()
            invariant
                j <= self.n(),
                self.wf(),
                self == old(self),
                forall|k: int| 0 <= k < j ==> (#[trigger] self.names@[k])@ != name@,
            decreases self.n() - j,
        {
            if bytes_eq(&self.names[j], name) {
                if !self.alive[j] {
                    self.alive.set(j, true);
                    proof {
                        assert forall|x: Seq<u8>|
                            self.has_node(x) <==> old(self).has_node(x) || x == name@ by {
                            if self.has_node(x) {
                                let w = choose|w: int|
                                    self.node_alive(w) && #[trigger] self.names@[w]@ == x;
                                if w != j {
                                    assert(old(self).node_alive(w));
                                }
                            }
                            if old(self).has_node(x) {
                                let w = choose|w: int|
                                    old(self).node_alive(w) && #[trigger] old(self).names@[w]@
                                        == x;
                                assert(self.node_alive(w));
                            }
                            if x == name@ {
                                assert(self.node_alive(j as int));
                            }
                        }
                    }
                }
                proof {
                    assert forall|x: Seq<u8>|
                        self.has_node(x) <==> old(self).has_node(x) || x == name@ by {
                        if x == name@ {
                            assert(self.node_alive(j as int) && self.names@[j as int]@ == x);
                        }
                    }
                    Self::lemma_name_edge_same(*old(self), *self);
                }
                return j;
            }
            j += 1;
        }
        let i = self.names.len();
        let mut copy: Vec<u8> = Vec::new();
        crate::bytes::push_all(&mut copy, name);
        self.names.push(copy);
        self.alive.push(true);
        proof {
            assert(self.node_alive(i as int) && self.names@[i as int]@ == name@);
            assert forall|x: Seq<u8>| self.has_node(x) <==> old(self).has_node(x) || x == name@ by {
                if self.has_node(x) {
                    let w = choose|w: int| self.node_alive(w) && #[trigger] self.names@[w]@ == x;
                    if w < i {
                        assert(old(self).node_alive(w));
                        assert(old(self).names@[w]@ == x);
                    }
                }
                if old(self).has_node(x) {
                    let w = choose|w: int|
                        old(self).node_alive(w) && #[trigger] old(self).names@[w]@ == x;
                    assert(self.node_alive(w) && self.names@[w]@ == x);
                }
            }
            Self::lemma_name_edge_same(*old(self), *self);
        }
        i
    }

    /// Add the edge from slot `a` to slot `b`; adding it twice changes
    /// nothing.
    pub fn add_edge(&mut self, a: usize, b: usize)
        requires
            old(self).wf(),
            old(self).node_alive(a as int),
            old(self).node_alive(b as int),
        ensures
            final(self).wf(),
            final(self).names@ == old(self).names@,
            final(self).alive@ == old(self).alive@,
            forall|x: int, y: int|
                final(self).has_edge(x, y) <==> old(self).has_edge(x, y) || (x == a as int && y
                    == b as int),
    {
        let mut k: usize = 0;
        while k < self.edges.len()
            invariant
                k <= self.edges@.len(),
                self == old(self),
                old(self).wf(),
                old(self).node_alive(a as int),
                old(self).node_alive(b as int),
                forall|l: int| 0 <= l < k ==> (#[trigger] self.edges@[l]) != (a, b),
            decreases self.edges@.len() - k,
        {
            if self.edges[k].0 == a && self.edges[k].1 == b {
                proof {
                    assert forall|x: int, y: int|
                        self.has_edge(x, y) <==> old(self).has_edge(x, y) || (x == a as int && y
                            == b as int) by {
                        if x == a as int && y == b as int {
                            assert(self.edges@[k as int].0 == a && self.edges@[k as int].1 == b);
                        }
                    }
                }
                return ;
            }
            k += 1;
        }
        self.edges.push((a, b));
        proof {
            let ghost ne = self.edges@.len() - 1;
            assert forall|x: int, y: int|
                self.has_edge(x, y) <==> old(self).has_edge(x, y) || (x == a as int && y
                    == b as int) by {
                if self.has_edge(x, y) {
                    let w = choose|w: int|
                        0 <= w < self.edges@.len() && (#[trigger] self.edges@[w]).0 == x
                            && self.edges@[w].1 == y;
                    if w < ne {
                        assert(old(self).edges@[w].0 == x && old(self).edges@[w].1 == y);
                    }
                }
                if old(self).has_edge(x, y) {
                    let w = choose|w: int|
                        0 <= w < old(self).edges@.len() && (#[trigger] old(self).edges@[w]).0 == x
                            && old(self).edges@[w].1 == y;
                    assert(self.edges@[w].0 == x && self.edges@[w].1 == y);
                }
                if x == a as int && y == b as int {
                    assert(self.edges@[ne].0 == x && self.edges@[ne].1 == y);
                }
            }
        }
    }

    /// Make `x` and `y` nodes and add the edge from `x` to `y`.
    pub fn add_name_edge(&mut self, x: &Vec<u8>, y: &Vec<u8>)
        requires
            old(self).wf(),
        ensures
            final(self).wf(),
            forall|u: Seq<u8>|
                final(self).has_node(u) <==> old(self).has_node(u) || u == x@ || u == y@,
            forall|u: Seq<u8>, v: Seq<u8>|
                final(self).name_edge(u, v) <==> old(self).name_edge(u, v) || (u == x@ && v == y@),
    {
        let ghost g0 = *self;
        let i = self.ensure(x);
        let ghost g1 = *self;
        let j = self.ensure(y);
        let ghost g2 = *self;
        proof {
            assert(g2.node_alive(i as int) && g2.names@[i as int]@ == x@);
            assert(g2.edges@ == g0.edges@);
        }
        self.add_edge(i, j);
        proof {
            let g3 = *self;
            assert(g3.names@ == g2.names@ && g3.alive@ == g2.alive@);
            assert forall|u: Seq<u8>|
                g3.has_node(u) <==> g0.has_node(u) || u == x@ || u == y@ by {
                assert(g3.has_node(u) == g2.has_node(u));
            }
            assert forall|u: Seq<u8>, v: Seq<u8>|
                g3.name_edge(u, v) <==> g0.name_edge(u, v) || (u == x@ && v == y@) by {
                if g3.name_edge(u, v) {
                    let (a, b) = choose|a: int, b: int|
                        g3.node_alive(a) && g3.node_alive(b) && g3.names@[a]@ == u && g3.names@[b]@
                            == v && #[trigger] g3.has_edge(a, b);
                    if g0.has_edge(a, b) {
                        let w = choose|w: int|
                            0 <= w < g0.edges@.len() && (#[trigger] g0.edges@[w]).0 == a
                                && g0.edges@[w].1 == b;
                        assert(g0.node_alive(a) && g0.node_alive(b));
                        assert(g0.names@[a] == g3.names@[a] && g0.names@[b] == g3.names@[b]);
                        assert(g0.name_edge(u, v));
                    } else {
                        assert(a == i as int && b == j as int);
                        assert(g3.names@[a]@ == x@ && g3.names@[b]@ == y@);
                    }
                }
                if g0.name_edge(u, v) {
                    let (a, b) = choose|a: int, b: int|
                        g0.node_alive(a) && g0.node_alive(b) && g0.names@[a]@ == u && g0.names@[b]@
                            == v && #[trigger] g0.has_edge(a, b);
                    assert(g3.node_alive(a) && g3.node_alive(b));
                    assert(g3.names@[a] == g0.names@[a] && g3.names@[b] == g0.names@[b]);
                    assert(g3.has_edge(a, b));
                    assert(g3.name_edge(u, v));
                }
                if u == x@ && v == y@ {
                    assert(g3.node_alive(i as int) && g3.node_alive(j as int));
                    assert(g3.names@[i as int]@ == u && g3.names@[j as int]@ == v);
                    assert(g3.has_edge(i as int, j as int));
                    assert(g3.name_edge(u, v));
                }
            }
        }
    }

    /// One edge step extends a path.
    pub proof fn lemma_reach_step(self, s: int, a: int, b: int)
        requires
            self.reaches(s, a),
            self.has_edge(a, b),
        ensures
            self.reaches(s, b),
    {
        let p = choose|p: Seq<int>| self.is_path(p, s, a);
        let q = p.push(b);
        assert(q[q.len() - 1] == b);
        assert forall|i: int| 0 <= i < q.len() - 1 implies self.has_edge(
            #[trigger] q[i],
            q[i + 1],
        ) by {
            if i < p.len() - 1 {
                assert(self.has_edge(p[i], p[i + 1]));
                assert(q[i] == p[i] && q[i + 1] == p[i + 1]);
            } else {
                assert(q[i] == a && q[i + 1] == b);
            }
        }
        assert(self.is_path(q, s, b));
    }

    /// A set that holds the start and is closed under edges holds every
    /// slot the start reaches.
    proof fn lemma_closed_covers(self, vis: Seq<bool>, s: int, p: Seq<int>, b: int)
        requires
            vis.len() == self.n(),
            self.is_path(p, s, b),
            0 <= s < self.n(),
            vis[s],
            forall|k: int|
                0 <= k < self.edges@.len() ==> 0 <= (#[trigger] self.edges@[k]).0 < self.n() && 0
                    <= self.edges@[k].1 < self.n(),
            forall|x: int, y: int|
                0 <= x < self.n() && vis[x] && #[trigger] self.has_edge(x, y) ==> 0 <= y < self.n()
                    && vis[y],
        ensures
            0 <= b < self.n() && vis[b],
        decreases p.len(),
    {
        if p.len() == 1 {
            assert(b == s);
        } else {
            let q = p.drop_last();
            let c = p[p.len() - 2];
            assert(self.is_path(q, s, c)) by {
                assert(q[q.len() - 1] == p[p.len() - 2]);
                assert forall|i: int| 0 <= i < q.len() - 1 implies self.has_edge(
                    #[trigger] q[i],
                    q[i + 1],
                ) by {
                    assert(self.has_edge(p[i], p[i + 1]));
                }
            }
            self.lemma_closed_covers(vis, s, q, c);
            assert(self.has_edge(c, b)) by {
                assert(self.has_edge(p[p.len() - 2], p[p.len() - 2 + 1]));
            }
        }
    }

    /// Which slots the start reaches, by worklist search.
    pub fn reachable(&self, start: usize) -> (vis: Vec<bool>)
        requires
            self.wf(),
            self.node_alive(start as int),
        ensures
            vis@.len() == self.n(),
            forall|i: int| 0 <= i < self.n() ==> (vis@[i] <==> self.reaches(start as int, i)),
    {
        let n = self.names.len();
        let mut vis: Vec<bool> = vec![false; n];
        let mut stack: Vec<usize> = Vec::new();
        vis.set(start, true);
        stack.push(start);
        proof {
            assert(self.reaches(start as int, start as int)) by {
                let p = seq![start as int];
                assert(p[0] == start as int && p[p.len() - 1] == start as int);
                assert(self.is_path(p, start as int, start as int));
            }
            lemma_count_true_bounds(vis@);
            assert(in_stack(stack@, start as int)) by {
                assert(stack@[0] == start);
            }
            assert forall|x: int, y: int|
                0 <= x < n && vis@[x] && !in_stack(stack@, x) && #[trigger] self.has_edge(x, y)
                    implies 0 <= y < n && vis@[y] by {
                assert(x == start as int);
                assert(false);
            }
        }
        while stack.len() > 0
            invariant
                self.wf(),
                n == self.n(),
                start < n,
                vis@.len() == n,
                vis@[start as int],
                forall|k: int|
                    0 <= k < stack@.len() ==> (#[trigger] stack@[k]) < n && vis@[stack@[k] as int],
                forall|i: int| 0 <= i < n && #[trigger] vis@[i] ==> self.reaches(start as int, i),
                forall|x: int, y: int|
                    0 <= x < n && vis@[x] && !in_stack(stack@, x) && #[trigger] self.has_edge(x, y)
                        ==> 0 <= y < n && vis@[y],
            decreases n - count_true(vis@), stack@.len(),
        {
            let ghost stack_before = stack@;
            let a_opt = stack.pop();
            let a = match a_opt {
                Some(v) => v,
                None => {
                    proof {
                        assert(false);
                    }
                    0
                },
            };
            let ghost stack_mid = stack@;
            let ghost vis_mid = vis@;
            proof {
                lemma_count_true_bounds(vis@);
                // a slot neither on the stack nor popped was off the stack before
                assert forall|x: int, y: int|
                    0 <= x < n && vis@[x] && !in_stack(stack@, x) && x != a as int
                        && #[trigger] self.has_edge(x, y) implies 0 <= y < n && vis@[y] by {
                    assert(!in_stack(stack_before, x)) by {
                        if in_stack(stack_before, x) {
                            let w = choose|w: int|
                                0 <= w < stack_before.len() && stack_before[w] == x;
                            if w == stack_before.len() - 1 {
                                assert(x == a as int);
                            } else {
                                assert(stack@[w] == x);
                            }
                        }
                    }
                }
            }
            // visit every successor of `a`
            let mut k: usize = 0;
            while k < self.edges.len()
                invariant
                    self.wf(),
                    n == self.n(),
                    start < n,
                    a < n,
                    vis@.len() == n,
                    vis@[start as int],
                    vis@[a as int],
                    k <= self.edges@.len(),
                    forall|kk: int|
                        0 <= kk < stack@.len() ==> (#[trigger] stack@[kk]) < n
                            && vis@[stack@[kk] as int],
                    forall|i: int|
                        0 <= i < n && #[trigger] vis@[i] ==> self.reaches(start as int, i),
                    forall|x: int, y: int|
                        0 <= x < n && vis@[x] && !in_stack(stack@, x) && x != a as int
                            && #[trigger] self.has_edge(x, y) ==> 0 <= y < n && vis@[y],
                    forall|l: int|
                        0 <= l < k && (#[trigger] self.edges@[l]).0 == a ==> vis@[self.edges@[l].1
                            as int],
                    // only new marks are pushed, and marks only grow
                    forall|i: int| 0 <= i < n && vis_mid[i] ==> vis@[i],
                    count_true(vis@) >= count_true(vis_mid),
                    count_true(vis@) == count_true(vis_mid) ==> stack@ == stack_mid,
                    count_true(vis@) <= n,
                decreases self.edges@.len() - k,
            {
                if self.edges[k].0 == a {
                    let b = self.edges[k].1;
                    proof {
                        assert(self.has_edge(a as int, b as int)) by {
                            assert(self.edges@[k as int].0 == a && self.edges@[k as int].1 == b);
                        }
                        self.lemma_reach_step(start as int, a as int, b as int);
                    }
                    if !vis[b] {
                        proof {
                            lemma_count_true_update(vis@, b as int, true);
                            lemma_count_true_bounds(vis@.update(b as int, true));
                        }
                        let ghost vis_prev = vis@;
                        let ghost stack_prev = stack@;
                        vis.set(b, true);
                        stack.push(b);
                        proof {
                            assert(in_stack(stack@, b as int)) by {
                                assert(stack@[stack@.len() - 1] == b);
                            }
                            assert forall|x: int, y: int|
                                0 <= x < n && vis@[x] && !in_stack(stack@, x) && x != a as int
                                    && #[trigger] self.has_edge(x, y) implies 0 <= y < n
                                && vis@[y] by {
                                assert(x != b as int);
                                assert(vis_prev[x]);
                                assert(!in_stack(stack_prev, x)) by {
                                    if in_stack(stack_prev, x) {
                                        let w = choose|w: int|
                                            0 <= w < stack_prev.len() && stack_prev[w] == x;
                                        assert(stack@[w] == x);
                                    }
                                }
                                assert(vis_prev[y]);
                            }
                        }
                    }
                }
                k += 1;
            }
            proof {
                lemma_count_true_bounds(vis@);
                // `a` is now fully processed
                assert forall|x: int, y: int|
                    0 <= x < n && vis@[x] && !in_stack(stack@, x) && #[trigger] self.has_edge(x, y)
                        implies 0 <= y < n && vis@[y] by {
                    if x == a as int {
                        let w = choose|w: int|
                            0 <= w < self.edges@.len() && (#[trigger] self.edges@[w]).0 == x
                                && self.edges@[w].1 == y;
                        assert(vis@[self.edges@[w].1 as int]);
                    }
                }
                // the measure dropped
                if count_true(vis@) == count_true(vis_mid) {
                    assert(stack@ == stack_mid);
                    assert(stack@.len() < stack_mid.len() + 1);
                }
            }
        }
        proof {
            assert forall|i: int|
                0 <= i < n && self.reaches(start as int, i) implies vis@[i] by {
                let p = choose|p: Seq<int>| self.is_path(p, start as int, i);
                assert forall|x: int, y: int|
                    0 <= x < self.n() && vis@[x] && #[trigger] self.has_edge(x, y) implies 0 <= y
                    < self.n() && vis@[y] by {
                    assert(!in_stack(stack@, x));
                }
                self.lemma_closed_covers(vis@, start as int, p, i);
            }
        }
        vis
    }

    /// Keep only the slots the start reaches; their edges survive, all
    /// others are dropped.  Returns which slots were kept.
    #[verifier::rlimit(50)]
    pub fn prune_from(&mut self, start: usize) -> (keep: Vec<bool>)
        requires
            old(self).wf(),
            old(self).node_alive(start as int),
        ensures
            final(self).wf(),
            keep@.len() == old(self).n(),
            final(self).names@ == old(self).names@,
            final(self).alive@.len() == old(self).n(),
            forall|i: int|
                0 <= i < old(self).n() ==> (keep@[i] <==> old(self).reaches(start as int, i)),
            forall|i: int| 0 <= i < old(self).n() ==> final(self).alive@[i] == keep@[i],
            forall|x: int, y: int|
                final(self).has_edge(x, y) <==> old(self).has_edge(x, y) && 0 <= x < old(self).n()
                    && 0 <= y < old(self).n() && keep@[x] && keep@[y],
    {
        let keep = self.reachable(start);
        proof {
            // a reached slot is live: it is the start, or an edge enters it
            assert forall|j: int|
                0 <= j < old(self).n() && keep@[j] implies old(self).node_alive(j) by {
                let p = choose|p: Seq<int>| old(self).is_path(p, start as int, j);
                if p.len() == 1 {
                    assert(j == start as int);
                } else {
                    let c = p[p.len() - 2];
                    assert(old(self).has_edge(c, j)) by {
                        assert(old(self).has_edge(p[p.len() - 2], p[p.len() - 2 + 1]));
                    }
                    let w = choose|w: int|
                        0 <= w < old(self).edges@.len() && (#[trigger] old(self).edges@[w]).0 == c
                            && old(self).edges@[w].1 == j;
                }
            }
        }
        // drop the liveness of unreached slots
        let mut i: usize = 0;
        while i < self.alive.len()
            invariant
                self.names@ == old(self).names@,
                self.edges@ == old(self).edges@,
                keep@.len() == old(self).n(),
                self.alive@.len() == old(self).n(),
                i <= old(self).n(),
                forall|j: int| 0 <= j < old(self).n() && #[trigger] keep@[j] ==> old(self).alive@[j],
                forall|j: int| 0 <= j < i ==> self.alive@[j] == keep@[j],
                forall|j: int| i <= j < old(self).n() ==> self.alive@[j] == old(self).alive@[j],
            decreases self.alive@.len() - i,
        {
            let b = self.alive[i] && keep[i];
            self.alive.set(i, b);
            i += 1;
        }
        // drop every edge that touches an unreached slot
        let ghost oe = old(self).edges@;
        let mut kept_edges: Vec<(usize, usize)> = Vec::new();
        let mut k: usize = 0;
        while k < self.edges.len()
            invariant
                self.edges@ == oe,
                oe == old(self).edges@,
                keep@.len() == old(self).n(),
                old(self).wf(),
                k <= oe.len(),
                kept_edges@ == kept_of(oe.take(k as int), keep@),
            decreases oe.len() - k,
        {
            proof {
                assert(old(self).node_alive(oe[k as int].0 as int) && old(self).node_alive(
                    oe[k as int].1 as int,
                ));
                assert(oe.take(k + 1).drop_last() =~= oe.take(k as int));
                assert(oe.take(k + 1).last() == oe[k as int]);
            }
            let (ea, eb) = (self.edges[k].0, self.edges[k].1);
            if keep[ea] && keep[eb] {
                kept_edges.push((ea, eb));
            }
            proof {
                assert(kept_edges@ =~= kept_of(oe.take(k + 1), keep@));
            }
            k += 1;
        }
        self.edges = kept_edges;
        proof {
            assert(oe.take(oe.len() as int) =~= oe);
            lemma_kept_of_props(oe, keep@);
            let kf = kept_of(oe, keep@);
            assert forall|x: int, y: int|
                self.has_edge(x, y) <==> (old(self).has_edge(x, y) && 0 <= x < old(self).n() && 0
                    <= y < old(self).n() && keep@[x] && keep@[y]) by {
                if self.has_edge(x, y) {
                    let l = choose|l: int|
                        0 <= l < kf.len() && (#[trigger] kf[l]).0 == x && kf[l].1 == y;
                    assert(edge_kept(kf[l], keep@) && oe.contains(kf[l]));
                    let m = choose|m: int| 0 <= m < oe.len() && oe[m] == kf[l];
                    assert(old(self).edges@[m].0 == x && old(self).edges@[m].1 == y);
                }
                if old(self).has_edge(x, y) && 0 <= x < old(self).n() && 0 <= y < old(self).n()
                    && keep@[x] && keep@[y] {
                    let m = choose|m: int|
                        0 <= m < oe.len() && (#[trigger] oe[m]).0 == x && oe[m].1 == y;
                    assert(edge_kept(oe[m], keep@));
                    assert(kf.contains(oe[m]));
                    let l = choose|l: int| 0 <= l < kf.len() && kf[l] == oe[m];
                    assert(self.edges@[l].0 == x && self.edges@[l].1 == y);
                }
            }
        }
        keep
    }

    /// The name `x` belongs to a live node that no edge enters.
    pub open spec fn is_top_name(self, x: Seq<u8>) -> bool {
        exists|i: int|
            self.node_alive(i) && (#[trigger] self.names@[i])@ == x && self.indegree_zero(i)
    }

    /// The graph after pruning names exactly the nodes the top reaches.
    #[verifier::rlimit(100)]
    #[verifier::spinoff_prover]
    pub proof fn lemma_prune_nodes(
        g_old: DepGraph,
        g_new: DepGraph,
        keep: Seq<bool>,
        ti: int,
        top: Seq<u8>,
    )
        requires
            g_old.wf(),
            g_new.wf(),
            g_old.node_alive(ti),
            g_old.names@[ti]@ == top,
            keep.len() == g_old.n(),
            g_new.names@ == g_old.names@,
            g_new.alive@.len() == g_old.n(),
            forall|i: int| 0 <= i < g_old.n() ==> (keep[i] <==> g_old.reaches(ti, i)),
            forall|i: int| 0 <= i < g_old.n() ==> g_new.alive@[i] == keep[i],
        ensures
            forall|x: Seq<u8>| #![trigger g_new.has_node(x)]
                g_new.has_node(x) <==> g_old.has_node(x) && g_old.name_reaches(top, x),
    {
        assert forall|x: Seq<u8>| #![trigger g_new.has_node(x)]
            g_new.has_node(x) <==> g_old.has_node(x) && g_old.name_reaches(top, x) by {
            if g_new.has_node(x) {
                let w = choose|w: int| g_new.node_alive(w) && #[trigger] g_new.names@[w]@ == x;
                assert(keep[w]);
                assert(g_old.reaches(ti, w));
                assert(g_old.node_alive(w)) by {
                    let p = choose|p: Seq<int>| g_old.is_path(p, ti, w);
                    if p.len() == 1 {
                    } else {
                        assert(g_old.has_edge(p[p.len() - 2], p[p.len() - 2 + 1]));
                        let e = choose|e: int|
                            0 <= e < g_old.edges@.len() && (#[trigger] g_old.edges@[e]).0 == p[p.len()
                                - 2] && g_old.edges@[e].1 == w;
                    }
                }
                assert(g_old.name_reaches(top, x));
                assert(g_old.has_node(x));
            }
            if g_old.has_node(x) && g_old.name_reaches(top, x) {
                let (a, b) = choose|a: int, b: int|
                    g_old.node_alive(a) && g_old.node_alive(b) && g_old.names@[a]@ == top
                        && g_old.names@[b]@ == x && #[trigger] g_old.reaches(a, b);
                assert(a == ti) by {
                    if a != ti {
                        assert(g_old.names@[a]@ != g_old.names@[ti]@);
                    }
                }
                assert(keep[b]);
                assert(g_new.node_alive(b));
                assert(g_new.names@[b]@ == x);
            }
        }
    }

    /// The graph after pruning keeps exactly the edges between the nodes
    /// the top reaches.
    #[verifier::rlimit(100)]
    #[verifier::spinoff_prover]
    pub proof fn lemma_prune_edges(
        g_old: DepGraph,
        g_new: DepGraph,
        keep: Seq<bool>,
        ti: int,
        top: Seq<u8>,
    )
        requires
            g_old.wf(),
            g_new.wf(),
            g_old.node_alive(ti),
            g_old.names@[ti]@ == top,
            keep.len() == g_old.n(),
            g_new.names@ == g_old.names@,
            g_new.alive@.len() == g_old.n(),
            forall|i: int| 0 <= i < g_old.n() ==> (keep[i] <==> g_old.reaches(ti, i)),
            forall|i: int| 0 <= i < g_old.n() ==> g_new.alive@[i] == keep[i],
            forall|x: int, y: int|
                g_new.has_edge(x, y) <==> g_old.has_edge(x, y) && 0 <= x < g_old.n() && 0 <= y
                    < g_old.n() && keep[x] && keep[y],
        ensures
            forall|u: Seq<u8>, v: Seq<u8>| #![trigger g_new.name_edge(u, v)]
                g_new.name_edge(u, v) <==> g_old.name_edge(u, v) && g_old.name_reaches(top, u)
                    && g_old.name_reaches(top, v),
    {
        assert forall|u: Seq<u8>, v: Seq<u8>| #![trigger g_new.name_edge(u, v)]
            g_new.name_edge(u, v) <==> g_old.name_edge(u, v) && g_old.name_reaches(top, u)
                && g_old.name_reaches(top, v) by {
            if g_new.name_edge(u, v) {
                let (a, b) = choose|a: int, b: int|
                    g_new.node_alive(a) && g_new.node_alive(b) && g_new.names@[a]@ == u
                        && g_new.names@[b]@ == v && #[trigger] g_new.has_edge(a, b);
                assert(g_old.has_edge(a, b) && keep[a] && keep[b]);
                assert(g_old.node_alive(a) && g_old.node_alive(b));
                assert(g_old.name_edge(u, v));
                assert(g_old.reaches(ti, a) && g_old.reaches(ti, b));
                assert(g_old.name_reaches(top, u));
                assert(g_old.name_reaches(top, v));
            }
            if g_old.name_edge(u, v) && g_old.name_reaches(top, u) && g_old.name_reaches(
                top,
                v,
            ) {
                let (a, b) = choose|a: int, b: int|
                    g_old.node_alive(a) && g_old.node_alive(b) && g_old.names@[a]@ == u
                        && g_old.names@[b]@ == v && #[trigger] g_old.has_edge(a, b);
                let (a1, u1) = choose|a1: int, u1: int|
                    g_old.node_alive(a1) && g_old.node_alive(u1) && g_old.names@[a1]@ == top
                        && g_old.names@[u1]@ == u && #[trigger] g_old.reaches(a1, u1);
                let (a2, v1) = choose|a2: int, v1: int|
                    g_old.node_alive(a2) && g_old.node_alive(v1) && g_old.names@[a2]@ == top
                        && g_old.names@[v1]@ == v && #[trigger] g_old.reaches(a2, v1);
                assert(a1 == ti && a2 == ti && u1 == a && v1 == b) by {
                    if a1 != ti {
                        assert(g_old.names@[a1]@ != g_old.names@[ti]@);
                    }
                    if a2 != ti {
                        assert(g_old.names@[a2]@ != g_old.names@[ti]@);
                    }
                    if u1 != a {
                        assert(g_old.names@[u1]@ != g_old.names@[a]@);
                    }
                    if v1 != b {
                        assert(g_old.names@[v1]@ != g_old.names@[b]@);
                    }
                }
                assert(keep[a] && keep[b]);
                assert(g_new.has_edge(a, b));
                assert(g_new.node_alive(a) && g_new.node_alive(b));
                assert(g_new.name_edge(u, v));
            }
        }
    }

    /// The names of the nodes that no edge enters, in slot order.
    pub fn tops(&self) -> (r: Vec<Vec<u8>>)
        requires
            self.wf(),
        ensures
            forall|j: int| 0 <= j < r@.len() ==> self.is_top_name((#[trigger] r@[j])@),
            forall|i: int|
                self.node_alive(i) && self.indegree_zero(i) ==> crate::bytes::name_in(
                    r@,
                    (#[trigger] self.names@[i])@,
                ),
            forall|a: int, b: int|
                0 <= a < b < r@.len() ==> (#[trigger] r@[a])@ != (#[trigger] r@[b])@,
    {
        let mut r: Vec<Vec<u8>> = Vec::new();
        // the slot each collected name came from, in increasing order
        let mut slots: Ghost<Seq<int>> = Ghost(Seq::empty());
        let mut i: usize = 0;
        while i < self.names.len()
            invariant
                self.wf(),
                i <= self.n(),
                slots@.len() == r@.len(),
                forall|j: int|
                    0 <= j < r@.len() ==> 0 <= #[trigger] slots@[j] < i && r@[j]@
                        == self.names@[slots@[j]]@,
                forall|a: int, b: int|
                    0 <= a < b < slots@.len() ==> #[trigger] slots@[a] < #[trigger] slots@[b],
                forall|j: int| 0 <= j < r@.len() ==> self.is_top_name((#[trigger] r@[j])@),
                forall|w: int|
                    0 <= w < i && self.node_alive(w) && self.indegree_zero(w)
                        ==> crate::bytes::name_in(r@, (#[trigger] self.names@[w])@),
            decreases self.n() - i,
        {
            if self.alive[i] {
                // scan for an incoming edge
                let mut k: usize = 0;
                let mut incoming = false;
                while k < self.edges.len()
                    invariant
                        k <= self.edges@.len(),
                        i < self.n(),
                        incoming ==> !self.indegree_zero(i as int),
                        !incoming ==> forall|l: int|
                            0 <= l < k ==> (#[trigger] self.edges@[l]).1 != i,
                    decreases self.edges@.len() - k,
                {
                    if self.edges[k].1 == i {
                        proof {
                            assert(self.has_edge(self.edges@[k as int].0 as int, i as int));
                        }
                        incoming = true;
                    }
                    k += 1;
                }
                if !incoming {
                    proof {
                        assert forall|a: int| !#[trigger] self.has_edge(a, i as int) by {
                            if self.has_edge(a, i as int) {
                                let w = choose|w: int|
                                    0 <= w < self.edges@.len() && (#[trigger] self.edges@[w]).0
                                        == a && self.edges@[w].1 == i as int;
                            }
                        }
                    }
                    let ghost r_pre = r@;
                    let mut copy: Vec<u8> = Vec::new();
                    crate::bytes::push_all(&mut copy, &self.names[i]);
                    r.push(copy);
                    proof {
                        slots@ = slots@.push(i as int);
                        assert(r@[r_pre.len() as int]@ == self.names@[i as int]@);
                        assert(self.is_top_name(self.names@[i as int]@));
                        assert forall|j: int|
                            0 <= j < r@.len() implies self.is_top_name((#[trigger] r@[j])@) by {
                            if j < r_pre.len() {
                                assert(r@[j] == r_pre[j]);
                            }
                        }
                        assert forall|w: int|
                            0 <= w < i + 1 && self.node_alive(w) && self.indegree_zero(w)
                                implies crate::bytes::name_in(
                            r@,
                            (#[trigger] self.names@[w])@,
                        ) by {
                            if w < i {
                                let j = choose|j: int|
                                    0 <= j < r_pre.len() && #[trigger] r_pre[j]@
                                        == self.names@[w]@;
                                assert(r@[j]@ == self.names@[w]@);
                            } else {
                                assert(r@[r_pre.len() as int]@ == self.names@[w]@);
                            }
                        }
                    }
                }
            }
            i += 1;
        }
        proof {
            // distinct slots hold distinct names
            assert forall|a: int, b: int|
                0 <= a < b < r@.len() implies (#[trigger] r@[a])@ != (#[trigger] r@[b])@ by {
                assert(slots@[a] < slots@[b]);
                assert(r@[a]@ == self.names@[slots@[a]]@ && r@[b]@ == self.names@[slots@[b]]@);
                assert(self.names@[slots@[a]]@ != self.names@[slots@[b]]@);
            }
        }
        r
    }

    /// A slot that is still left and has no edge into a left slot, if any.
    fn find_ready(&self, left: &Vec<bool>) -> (r: Option<usize>)
        requires
            self.wf(),
            left@.len() == self.n(),
        ensures
            match r {
                Some(c) => c < self.n() && left@[c as int] && forall|y: int|
                    0 <= y < self.n() && #[trigger] self.has_edge(c as int, y) ==> !left@[y],
                None => forall|j: int|
                    0 <= j < self.n() && #[trigger] left@[j] ==> exists|y: int|
                        0 <= y < self.n() && left@[y] && self.has_edge(j, y),
            },
    {
        let n = self.names.len();
        let mut cand: usize = 0;
        while cand < n
            invariant
                n == self.n(),
                self.wf(),
                left@.len() == n,
                cand <= n,
                forall|j: int|
                    0 <= j < cand && #[trigger] left@[j] ==> exists|y: int|
                        0 <= y < n && left@[y] && self.has_edge(j, y),
            decreases n - cand,
        {
            if left[cand] {
                // does `cand` point at a slot that is still left?
                let mut k: usize = 0;
                let mut blockd = false;
                while k < self.edges.len()
                    invariant
                        n == self.n(),
                        self.wf(),
                        left@.len() == n,
                        cand < n,
                        k <= self.edges@.len(),
                        blockd ==> exists|y: int|
                            0 <= y < n && left@[y] && self.has_edge(cand as int, y),
                        !blockd ==> forall|l: int|
                            0 <= l < k && (#[trigger] self.edges@[l]).0 == cand
                                ==> !left@[self.edges@[l].1 as int],
                    decreases self.edges@.len() - k,
                {
                    if self.edges[k].0 == cand && left[self.edges[k].1] {
                        proof {
                            assert(self.has_edge(cand as int, self.edges@[k as int].1 as int));
                        }
                        blockd = true;
                    }
                    k += 1;
                }
                if !blockd {
                    proof {
                        assert forall|y: int|
                            0 <= y < n && #[trigger] self.has_edge(cand as int, y)
                                implies !left@[y] by {
                            let w = choose|w: int|
                                0 <= w < self.edges@.len() && (#[trigger] self.edges@[w]).0 == cand
                                    && self.edges@[w].1 == y;
                        }
                    }
                    return Some(cand);
                }
            }
            cand += 1;
        }
        None
    }

    /// A topological order of the `present` slots: every edge target comes
    /// before its source.  Fails if and only if a cycle blocks progress; the
    /// blocked slots witness it.
    #[verifier::rlimit(100)]
    #[verifier::spinoff_prover]
    pub fn topo(&self, present: &Vec<bool>) -> (r: Result<Vec<usize>, PickleError>)
        requires
            self.wf(),
            present@.len() == self.n(),
        ensures
            match r {
                Ok(o) => {
                    &&& o@.no_duplicates()
                    &&& forall|k: int| 0 <= k < o@.len() ==> (#[trigger] o@[k]) < self.n()
                        && present@[o@[k] as int]
                    &&& forall|i: int|
                        0 <= i < self.n() && present@[i] ==> exists|k: int|
                            0 <= k < o@.len() && #[trigger] o@[k] == i
                    &&& forall|k1: int, k2: int|
                        0 <= k1 < o@.len() && 0 <= k2 < o@.len() && #[trigger] self.has_edge(
                            o@[k1] as int,
                            o@[k2] as int,
                        ) && present@[o@[k2] as int] ==> k2 < k1
                },
                Err(e) => {
                    &&& e == PickleError::Cycle
                    &&& exists|blocked: Seq<bool>|
                        {
                            &&& blocked.len() == self.n()
                            &&& exists|i: int| 0 <= i < self.n() && blocked[i]
                            &&& forall|i: int|
                                0 <= i < self.n() && #[trigger] blocked[i] ==> present@[i]
                            &&& forall|i: int|
                                0 <= i < self.n() && #[trigger] blocked[i] ==> exists|j: int|
                                    0 <= j < self.n() && blocked[j] && self.has_edge(i, j)
                        }
                },
            },
    {
        let n = self.names.len();
        let mut left: Vec<bool> = Vec::new();
        let mut remaining: usize = 0;
        let mut i: usize = 0;
        while i < n
            invariant
                i <= n,
                n == self.n(),
                present@.len() == n,
                left@.len() == i,
                forall|j: int| 0 <= j < i ==> left@[j] == present@[j],
            decreases n - i,
        {
            left.push(present[i]);
            i += 1;
        }
        let mut out: Vec<usize> = Vec::new();
        loop
            invariant
                n == self.n(),
                self.wf(),
                present@.len() == n,
                left@.len() == n,
                forall|j: int| 0 <= j < n && #[trigger] left@[j] ==> present@[j],
                out@.no_duplicates(),
                forall|k: int| 0 <= k < out@.len() ==> (#[trigger] out@[k]) < n
                    && present@[out@[k] as int] && !left@[out@[k] as int],
                forall|j: int|
                    0 <= j < n && present@[j] && !left@[j] ==> exists|k: int|
                        0 <= k < out@.len() && #[trigger] out@[k] == j,
                forall|k: int, y: int|
                    0 <= k < out@.len() && #[trigger] self.has_edge(out@[k] as int, y)
                        && present@[y] ==> (!left@[y] && exists|k2: int|
                        0 <= k2 < k && #[trigger] out@[k2] == y),
            ensures
                (forall|j: int| 0 <= j < n ==> !(#[trigger] left@[j])) || (exists|i2: int|
                    0 <= i2 < n && #[trigger] left@[i2] && forall|j: int|
                        0 <= j < n && #[trigger] left@[j] ==> exists|jj: int|
                            0 <= jj < n && left@[jj] && self.has_edge(j, jj)),
            decreases count_true(left@),
        {
            let cand_opt = self.find_ready(&left);
            let (found, cand) = match cand_opt {
                Some(c) => (true, c),
                None => (false, 0),
            };
            if !found {
                break ;
            }
            proof {
                lemma_count_true_bounds(left@);
                lemma_count_true_update(left@, cand as int, false);
                lemma_count_true_bounds(left@.update(cand as int, false));
            }
            let ghost left_entry = left@;
            let ghost out_pre = out@;
            let ghost left_pre = left@;
            left.set(cand, false);
            out.push(cand);
            proof {
                // `cand` was still left, so it was not yet emitted
                assert(forall|k: int| 0 <= k < out_pre.len() ==> (#[trigger] out_pre[k]) != cand);
                assert forall|k1: int, k2: int|
                    0 <= k1 < out@.len() && 0 <= k2 < out@.len() && k1 != k2 implies out@[k1]
                    != out@[k2] by {
                    if k1 < out_pre.len() && k2 < out_pre.len() {
                        assert(out@[k1] == out_pre[k1] && out@[k2] == out_pre[k2]);
                    } else if k1 < out_pre.len() {
                        assert(out@[k2] == cand && out_pre[k1] != cand);
                    } else {
                        assert(out@[k1] == cand && out_pre[k2] != cand);
                    }
                }
                assert forall|j: int|
                    0 <= j < n && present@[j] && !left@[j] implies exists|k: int|
                    0 <= k < out@.len() && #[trigger] out@[k] == j by {
                    if j == cand as int {
                        assert(out@[out_pre.len() as int] == j);
                    } else {
                        let k = choose|k: int| 0 <= k < out_pre.len() && #[trigger] out_pre[k] == j;
                        assert(out@[k] == j);
                    }
                }
                assert forall|k: int, y: int|
                    0 <= k < out@.len() && #[trigger] self.has_edge(out@[k] as int, y)
                        && present@[y] implies (!left@[y] && exists|k2: int|
                    0 <= k2 < k && #[trigger] out@[k2] == y) by {
                    if k < out_pre.len() {
                        assert(out@[k] == out_pre[k]);
                        let k2 = choose|k2: int| 0 <= k2 < k && #[trigger] out_pre[k2] == y;
                        assert(out@[k2] == y);
                    } else {
                        // successors of `cand` were not left before, so they
                        // are already in the emitted prefix
                        assert(out@[k] == cand as int);
                        assert(0 <= y < n && !left_pre[y]);
                        assert(y != cand as int);
                        assert(!left@[y]);
                        let k2 = choose|k2: int|
                            0 <= k2 < out_pre.len() && #[trigger] out_pre[k2] == y;
                        assert(out@[k2] == y);
                        assert(k2 < k);
                    }
                }
            }
        }
        // the loop ended: either everything was emitted, or a cycle blocks
        let mut j: usize = 0;
        let mut any_left = false;
        while j < n
            invariant
                left@.len() == n,
                j <= n,
                any_left == exists|l: int| 0 <= l < j && left@[l],
            decreases n - j,
        {
            if left[j] {
                any_left = true;
            }
            j += 1;
        }
        if any_left {
            proof {
                assert(exists|l: int| 0 <= l < n && left@[l]);
                assert(!(forall|jj: int| 0 <= jj < n ==> !(#[trigger] left@[jj])));
                assert(left@.len() == self.n());
            }
            Err(PickleError::Cycle)
        } else {
            proof {
                assert forall|i2: int| 0 <= i2 < n && present@[i2] implies exists|k: int|
                    0 <= k < out@.len() && #[trigger] out@[k] == i2 by {
                    assert(!left@[i2]);
                }
            }
            Ok(out)
        }
    }
}

/// Whether any slot is still left.
fn remaining_any(left: &Vec<bool>) -> (r: bool)
    ensures
        r == exists|l: int| 0 <= l < left@.len() && left@[l],
{
    let mut j: usize = 0;
    while j < left.len()
        invariant
            j <= left@.len(),
            forall|l: int| 0 <= l < j ==> !left@[l],
        decreases left@.len() - j,
    {
        if left[j] {
            return true;
        }
        j += 1;
    }
    false
}

} // verus!
