//! Byte-range rewrites and their application.
//!
//! An [`Edit`] replaces one byte range of one file with a replacement text.
//! Edits are accumulated during planning; application selects the edits that
//! fall inside an emitted window, sorts them by offset, checks that none
//! crosses the window boundary, and splices the window around them.

use vstd::multiset::Multiset;
use vstd::prelude::*;

use crate::bytes::{push_all, push_range};
use crate::{PickleError, Span};

verus! {

/// One planned rewrite: replace `span` of file `file_id` by `replacement`.
pub struct Edit {
    pub file_id: usize,
    pub span: Span,
    pub replacement: Vec<u8>,
}

/// The mathematical value of an [`Edit`].
#[verifier::ext_equal]
pub ghost struct EditModel {
    pub file_id: int,
    pub offset: int,
    pub len: int,
    pub text: Seq<u8>,
}

impl EditModel {
    /// The first byte offset past the replaced range.
    pub open spec fn end(self) -> int {
        self.offset + self.len
    }

    /// The two replaced ranges share no byte.
    pub open spec fn disjoint(self, other: EditModel) -> bool {
        self.end() <= other.offset || other.end() <= self.offset
    }
}

impl View for Edit {
    type V = EditModel;

    open spec fn view(&self) -> EditModel {
        EditModel {
            file_id: self.file_id as int,
            offset: self.span.offset as int,
            len: self.span.len as int,
            text: self.replacement@,
        }
    }
}

/// The sequence of mathematical values of a sequence of edits.
pub open spec fn edits_view(es: Seq<Edit>) -> Seq<EditModel> {
    es.map_values(|e: Edit| e@)
}

/// Offsets never decrease along the sequence.
pub open spec fn sorted_edits(es: Seq<EditModel>) -> bool {
    forall|i: int, j: int| 0 <= i <= j < es.len() ==> es[i].offset <= es[j].offset
}

/// Each edit ends at or before the next one begins.
pub open spec fn chained_edits(es: Seq<EditModel>) -> bool {
    forall|i: int| 0 <= i < es.len() - 1 ==> es[i].end() <= es[i + 1].offset
}

/// Any two edits of the same file replace disjoint ranges.
pub open spec fn table_disjoint(es: Seq<EditModel>) -> bool {
    forall|i: int, j: int|
        0 <= i < es.len() && 0 <= j < es.len() && i != j && es[i].file_id == es[j].file_id
            ==> es[i].disjoint(es[j])
}

/// Every edit replaces at least one byte.
pub open spec fn positive_edits(es: Seq<EditModel>) -> bool {
    forall|i: int| 0 <= i < es.len() ==> es[i].len >= 1
}

/// Every edit of file `fid` lies within a buffer of length `n`.
pub open spec fn edits_within(es: Seq<EditModel>, fid: int, n: int) -> bool {
    forall|i: int| 0 <= i < es.len() && es[i].file_id == fid ==> es[i].end() <= n
}

/// The edit begins inside the window `[base, win_end)` of file `fid`.
pub open spec fn in_window(e: EditModel, fid: int, base: int, win_end: int) -> bool {
    e.file_id == fid && base <= e.offset < win_end
}

/// The edits of `es` that begin inside the window, in table order.
pub open spec fn window_edits(es: Seq<EditModel>, fid: int, base: int, win_end: int) -> Seq<
    EditModel,
> {
    es.filter(|e: EditModel| in_window(e, fid, base, win_end))
}

/// The window `[pos, win_end)` of `src` with the edits `es` applied: the
/// bytes before each edit are kept, its range is replaced by its text, and
/// the remainder after the last edit is kept.
///
/// Meaningful when `es` is chained, begins at or after `pos`, and ends at or
/// before `win_end`.
pub open spec fn spec_apply(src: Seq<u8>, pos: int, win_end: int, es: Seq<EditModel>) -> Seq<u8>
    decreases es.len(),
{
    if es.len() == 0 {
        src.subrange(pos, win_end)
    } else {
        src.subrange(pos, es[0].offset) + es[0].text + spec_apply(
            src,
            es[0].end(),
            win_end,
            es.drop_first(),
        )
    }
}

/// Sorted edits with positive, pairwise disjoint ranges are chained: each
/// ends at or before the next begins.
pub proof fn lemma_sorted_disjoint_chained(es: Seq<EditModel>)
    requires
        sorted_edits(es),
        positive_edits(es),
        forall|i: int, j: int|
            0 <= i < es.len() && 0 <= j < es.len() && i != j ==> es[i].disjoint(es[j]),
    ensures
        chained_edits(es),
{
    assert forall|i: int| 0 <= i < es.len() - 1 implies es[i].end() <= es[i + 1].offset by {
        assert(es[i].disjoint(es[i + 1]));
    }
}

/// Append `src[pos .. win_end]` with the sorted, chained edits `es` applied.
fn apply_edits(out: &mut Vec<u8>, src: &Vec<u8>, pos: usize, win_end: usize, es: &Vec<Edit>)
    requires
        pos <= win_end <= src@.len(),
        chained_edits(edits_view(es@)),
        es@.len() > 0 ==> pos <= es@[0]@.offset,
        forall|i: int| 0 <= i < es@.len() ==> (#[trigger] es@[i]@).end() <= win_end,
    ensures
        final(out)@ == old(out)@ + spec_apply(src@, pos as int, win_end as int, edits_view(es@)),
{
    let ghost all = edits_view(es@);
    proof {
        assert(all.skip(0) =~= all);
    }
    let mut i: usize = 0;
    let mut pos_now: usize = pos;
    while i < es.len()
        invariant
            pos <= win_end <= src@.len(),
            i <= es@.len(),
            chained_edits(all),
            all == edits_view(es@),
            forall|k: int| 0 <= k < all.len() ==> (#[trigger] all[k]).end() <= win_end,
            i < es@.len() ==> pos_now <= all[i as int].offset,
            i == es@.len() ==> pos_now <= win_end,
            out@ + spec_apply(src@, pos_now as int, win_end as int, all.skip(i as int)) == old(
                out,
            )@ + spec_apply(src@, pos as int, win_end as int, all),
        decreases es@.len() - i,
    {
        proof {
            assert(all[i as int] == es@[i as int]@);
            assert(all.skip(i as int)[0] == all[i as int]);
            assert(all.skip(i as int).drop_first() =~= all.skip(i + 1));
        }
        let ghost out_before = out@;
        let off = es[i].span.offset;
        let e_end = es[i].span.offset + es[i].span.len;
        push_range(out, src, pos_now, off);
        push_all(out, &es[i].replacement);
        proof {
            if i + 1 < es@.len() {
                assert(all[i as int].end() <= all[i + 1].offset);
            }
            assert(out_before + spec_apply(src@, pos_now as int, win_end as int, all.skip(i as int))
                =~= out@ + spec_apply(src@, all[i as int].end(), win_end as int, all.skip(i + 1)));
        }
        pos_now = e_end;
        i += 1;
    }
    proof {
        assert(all.skip(all.len() as int) =~= Seq::<EditModel>::empty());
    }
    push_range(out, src, pos_now, win_end);
    proof {
        assert(out@ =~= old(out)@ + spec_apply(src@, pos as int, win_end as int, all));
    }
}

/// Copy of an edit, with the same mathematical value.
pub fn dup_edit(e: &Edit) -> (r: Edit)
    ensures
        r@ == e@,
{
    let mut text: Vec<u8> = Vec::new();
    push_all(&mut text, &e.replacement);
    let r = Edit { file_id: e.file_id, span: e.span, replacement: text };
    proof {
        assert(r@ =~= e@);
    }
    r
}

/// The edits of `table` that begin inside the window, in table order.
fn select_window(table: &Vec<Edit>, fid: usize, base: usize, win_end: usize) -> (r: Vec<Edit>)
    ensures
        edits_view(r@) == window_edits(edits_view(table@), fid as int, base as int, win_end as int),
{
    let mut r: Vec<Edit> = Vec::new();
    let mut i: usize = 0;
    while i < table.len()
        invariant
            i <= table@.len(),
            edits_view(r@) == window_edits(
                edits_view(table@).take(i as int),
                fid as int,
                base as int,
                win_end as int,
            ),
        decreases table@.len() - i,
    {
        let ghost prefix = edits_view(table@).take(i as int);
        let ghost next = edits_view(table@).take(i + 1);
        proof {
            reveal(Seq::filter);
            assert(next.drop_last() =~= prefix);
            assert(next.last() == table@[i as int]@);
        }
        let e = &table[i];
        let hit = e.file_id == fid && base <= e.span.offset && e.span.offset < win_end;
        proof {
            assert(hit == in_window(table@[i as int]@, fid as int, base as int, win_end as int));
        }
        if hit {
            let d = dup_edit(e);
            r.push(d);
            proof {
                assert(edits_view(r@) =~= window_edits(
                    next,
                    fid as int,
                    base as int,
                    win_end as int,
                ));
            }
        } else {
            proof {
                assert(edits_view(r@) =~= window_edits(
                    next,
                    fid as int,
                    base as int,
                    win_end as int,
                ));
            }
        }
        i += 1;
    }
    proof {
        assert(edits_view(table@).take(table@.len() as int) =~= edits_view(table@));
    }
    r
}

/// Sort edits by offset; the result holds the same edits.
fn sort_edits(es: Vec<Edit>) -> (r: Vec<Edit>)
    ensures
        sorted_edits(edits_view(r@)),
        edits_view(r@).to_multiset() == edits_view(es@).to_multiset(),
{
    broadcast use vstd::seq_lib::group_to_multiset_ensures;
    broadcast use vstd::multiset::group_multiset_axioms;

    let ghost orig = edits_view(es@);
    let mut rest = es;
    let mut r: Vec<Edit> = Vec::new();
    while rest.len() > 0
        invariant
            sorted_edits(edits_view(r@)),
            edits_view(r@).to_multiset().add(edits_view(rest@).to_multiset()) == orig.to_multiset(),
            forall|i: int, j: int|
                0 <= i < r@.len() && 0 <= j < rest@.len() ==> (#[trigger] r@[i]@).offset
                    <= (#[trigger] rest@[j]@).offset,
        decreases rest@.len(),
    {
        // position of a minimal offset in `rest`
        let mut m: usize = 0;
        let mut k: usize = 1;
        while k < rest.len()
            invariant
                rest@.len() > 0,
                m < k,
                k <= rest@.len(),
                forall|j: int|
                    0 <= j < k ==> rest@[m as int]@.offset <= (#[trigger] rest@[j]@).offset,
            decreases rest@.len() - k,
        {
            if rest[k].span.offset < rest[m].span.offset {
                m = k;
            }
            k += 1;
        }
        let ghost rest_pre = edits_view(rest@);
        let ghost r_pre = edits_view(r@);
        let e = rest.remove(m);
        r.push(e);
        proof {
            vstd::seq_lib::to_multiset_remove::<EditModel>(rest_pre, m as int);
            vstd::seq_lib::to_multiset_build::<EditModel>(r_pre, rest_pre[m as int]);
            assert(edits_view(rest@) =~= rest_pre.remove(m as int));
            assert(edits_view(r@) =~= r_pre.push(rest_pre[m as int]));
            assert(rest_pre.contains(rest_pre[m as int]));
            vstd::seq_lib::to_multiset_contains::<EditModel>(rest_pre, rest_pre[m as int]);
            assert(rest_pre.to_multiset().count(rest_pre[m as int]) > 0);
            assert forall|y: EditModel|
                edits_view(r@).to_multiset().add(edits_view(rest@).to_multiset()).count(y)
                    == orig.to_multiset().count(y) by {
                assert(r_pre.to_multiset().add(rest_pre.to_multiset()).count(y)
                    == orig.to_multiset().count(y));
            }
            assert(edits_view(r@).to_multiset().add(edits_view(rest@).to_multiset())
                =~= orig.to_multiset());
        }
    }
    proof {
        assert(edits_view(rest@) =~= Seq::<EditModel>::empty());
        assert(Seq::<EditModel>::empty().to_multiset() =~= Multiset::<EditModel>::empty());
        assert(edits_view(r@).to_multiset() =~= orig.to_multiset());
    }
    r
}

/// What the selection of a window holds: every selected edit begins inside
/// the window, and the selection holds no edit more often than the table.
pub proof fn lemma_window_props(es: Seq<EditModel>, fid: int, base: int, win_end: int)
    ensures
        forall|i: int|
            0 <= i < window_edits(es, fid, base, win_end).len() ==> in_window(
                #[trigger] window_edits(es, fid, base, win_end)[i],
                fid,
                base,
                win_end,
            ),
        forall|x: EditModel| #[trigger]
            window_edits(es, fid, base, win_end).to_multiset().count(x) <= es.to_multiset().count(
                x,
            ),
    decreases es.len(),
{
    broadcast use vstd::seq_lib::group_to_multiset_ensures;
    broadcast use vstd::multiset::group_multiset_axioms;

    reveal(Seq::filter);
    let w = window_edits(es, fid, base, win_end);
    if es.len() == 0 {
        assert(w =~= Seq::<EditModel>::empty());
        assert(w.to_multiset() =~= Multiset::<EditModel>::empty());
    } else {
        lemma_window_props(es.drop_last(), fid, base, win_end);
        let wp = window_edits(es.drop_last(), fid, base, win_end);
        assert(es =~= es.drop_last().push(es.last()));
        assert(es.to_multiset() =~= es.drop_last().to_multiset().insert(es.last()));
        if in_window(es.last(), fid, base, win_end) {
            assert(w =~= wp.push(es.last()));
            assert(w.to_multiset() =~= wp.to_multiset().insert(es.last()));
            assert forall|i: int| 0 <= i < w.len() implies in_window(
                #[trigger] w[i],
                fid,
                base,
                win_end,
            ) by {
                if i < wp.len() {
                    assert(w[i] == wp[i]);
                }
            }
        } else {
            assert(w =~= wp);
        }
    }
}

/// Two distinct positions holding one value give that value count two.
proof fn lemma_count_two<A>(s: Seq<A>, a: int, b: int)
    requires
        0 <= a < s.len(),
        0 <= b < s.len(),
        a != b,
        s[a] == s[b],
    ensures
        s.to_multiset().count(s[a]) >= 2,
    decreases s.len(),
{
    broadcast use vstd::seq_lib::group_to_multiset_ensures;

    let last = s.len() - 1;
    assert(s =~= s.drop_last().push(s.last()));
    assert(s.to_multiset() =~= s.drop_last().to_multiset().insert(s.last()));
    if a == last || b == last {
        let other: int = if a == last {
            b
        } else {
            a
        };
        assert(s.drop_last()[other] == s[a]);
        assert(s.drop_last().contains(s[a]));
    } else {
        lemma_count_two(s.drop_last(), a, b);
    }
}

/// The window `[base, base + win_len)` of file `fid` with the table's edits
/// of that window applied, in offset order.
///
/// Returns `EditOverlap` if and only if an edit begins inside the window but
/// ends past its end; edits of one file never overlap each other, which the
/// caller warrants.
pub fn replaced_range(
    src: &Vec<u8>,
    fid: usize,
    base: usize,
    win_len: usize,
    table: &Vec<Edit>,
) -> (r: Result<Vec<u8>, PickleError>)
    requires
        base + win_len <= src@.len(),
        table_disjoint(edits_view(table@)),
        positive_edits(edits_view(table@)),
    ensures
        ({
            let sel = window_edits(edits_view(table@), fid as int, base as int, base + win_len);
            match r {
                Ok(v) => {
                    &&& forall|i: int|
                        0 <= i < sel.len() ==> (#[trigger] sel[i]).end() <= base + win_len
                    &&& exists|s: Seq<EditModel>|
                        {
                            &&& s.to_multiset() == sel.to_multiset()
                            &&& sorted_edits(s)
                            &&& v@ == spec_apply(src@, base as int, base + win_len, s)
                        }
                },
                Err(e) => {
                    &&& e == (PickleError::EditOverlap { file_id: fid })
                    &&& exists|i: int|
                        0 <= i < sel.len() && (#[trigger] sel[i]).end() > base + win_len
                },
            }
        }),
{
    broadcast use vstd::seq_lib::group_to_multiset_ensures;
    broadcast use vstd::multiset::group_multiset_axioms;

    let n = src.len();
    let win_end = base + win_len;
    let ghost tv = edits_view(table@);
    let ghost sel_spec = window_edits(tv, fid as int, base as int, base + win_len);
    proof {
        assert(win_end as int == base + win_len);
        assert(sel_spec == window_edits(tv, fid as int, base as int, win_end as int));
        lemma_window_props(tv, fid as int, base as int, win_end as int);
        // a selected edit is held by the table, so it is positive
        assert forall|i: int| 0 <= i < sel_spec.len() implies (#[trigger] sel_spec[i]).len
            >= 1 by {
            assert(sel_spec.to_multiset().contains(sel_spec[i]));
            assert(sel_spec.to_multiset().count(sel_spec[i]) <= tv.to_multiset().count(
                sel_spec[i],
            ));
            assert(tv.to_multiset().contains(sel_spec[i]));
            let k = choose|k: int| 0 <= k < tv.len() && tv[k] == sel_spec[i];
            assert(tv[k].len >= 1);
        }
    }
    let sel = select_window(table, fid, base, win_end);
    // every selected edit must end inside the window
    let mut i: usize = 0;
    while i < sel.len()
        invariant
            i <= sel@.len(),
            edits_view(sel@) == sel_spec,
            sel_spec == window_edits(
                edits_view(table@),
                fid as int,
                base as int,
                base + win_len,
            ),
            base + win_len <= src@.len(),
            win_end == base + win_len,
            forall|j: int|
                0 <= j < sel_spec.len() ==> in_window(
                    #[trigger] sel_spec[j],
                    fid as int,
                    base as int,
                    win_end as int,
                ),
            forall|j: int| 0 <= j < i ==> (#[trigger] sel_spec[j]).end() <= base + win_len,
        decreases sel@.len() - i,
    {
        proof {
            assert(sel_spec[i as int] == sel@[i as int]@);
        }
        let off = sel[i].span.offset;
        if sel[i].span.len > win_end - off {
            proof {
                assert(sel_spec.len() == sel@.len());
                assert(sel_spec[i as int].end() > base + win_len);
                assert(exists|j: int|
                    0 <= j < sel_spec.len() && (#[trigger] sel_spec[j]).end() > base + win_len);
            }
            return Err(PickleError::EditOverlap { file_id: fid });
        }
        i += 1;
    }
    let sorted = sort_edits(sel);
    let ghost s = edits_view(sorted@);
    proof {
        // each sorted edit is one of the selection
        assert forall|a: int| 0 <= a < s.len() implies sel_spec.contains(#[trigger] s[a]) by {
            assert(s.to_multiset().contains(s[a]));
            assert(sel_spec.to_multiset().contains(s[a]));
        }
        assert forall|a: int| 0 <= a < s.len() implies (#[trigger] s[a]).len >= 1 && s[a].end()
            <= win_end && s[a].offset >= base by {
            assert(sel_spec.contains(s[a]));
            let x = choose|x: int| 0 <= x < sel_spec.len() && sel_spec[x] == s[a];
        }
        // the sorted selection is pairwise disjoint, hence chained
        assert forall|a: int, b: int|
            0 <= a < s.len() && 0 <= b < s.len() && a != b implies s[a].disjoint(s[b]) by {
            if s[a] == s[b] {
                lemma_count_two(s, a, b);
                assert(sel_spec.to_multiset().count(s[a]) >= 2);
                assert(tv.to_multiset().count(s[a]) >= 2);
                lemma_count_to_two_positions(tv, s[a]);
                let (x, y) = choose|x: int, y: int|
                    0 <= x < tv.len() && 0 <= y < tv.len() && x != y && tv[x] == s[a] && tv[y]
                        == s[a];
                assert(tv[x].disjoint(tv[y]));
                assert(s[a].len >= 1);
                assert(false);
            } else {
                assert(sel_spec.contains(s[a]));
                assert(sel_spec.contains(s[b]));
                assert(sel_spec.to_multiset().contains(s[a]));
                assert(sel_spec.to_multiset().contains(s[b]));
                assert(tv.to_multiset().contains(s[a]));
                assert(tv.to_multiset().contains(s[b]));
                let u = choose|u: int| 0 <= u < tv.len() && tv[u] == s[a];
                let v = choose|v: int| 0 <= v < tv.len() && tv[v] == s[b];
                assert(u != v);
                assert(tv[u].disjoint(tv[v]));
            }
        }
        lemma_sorted_disjoint_chained(s);
        assert forall|k: int| 0 <= k < sorted@.len() implies (#[trigger] sorted@[k]@).end()
            <= win_end by {
            assert(sorted@[k]@ == s[k]);
        }
        if s.len() > 0 {
            assert(sorted@[0]@ == s[0]);
        }
    }
    let mut out: Vec<u8> = Vec::new();
    apply_edits(&mut out, src, base, win_end, &sorted);
    proof {
        assert(out@ == spec_apply(src@, base as int, base + win_len, s));
        assert(s.to_multiset() == sel_spec.to_multiset() && sorted_edits(s) && out@ == spec_apply(
            src@,
            base as int,
            base + win_len,
            s,
        ));
    }
    Ok(out)
}

/// Any offset-sorted arrangement of the edits a window selects out of a
/// table whose same-file edits are disjoint and non-empty is chained: each
/// edit ends at or before the next begins.
pub proof fn lemma_sorted_selection_chained(
    table: Seq<EditModel>,
    fid: int,
    base: int,
    win_end: int,
    s: Seq<EditModel>,
)
    requires
        table_disjoint(table),
        positive_edits(table),
        sorted_edits(s),
        s.to_multiset() == window_edits(table, fid, base, win_end).to_multiset(),
    ensures
        chained_edits(s),
{
    broadcast use vstd::seq_lib::group_to_multiset_ensures;
    broadcast use vstd::multiset::group_multiset_axioms;

    let sel = window_edits(table, fid, base, win_end);
    lemma_window_props(table, fid, base, win_end);
    assert forall|a: int| 0 <= a < s.len() implies sel.contains(#[trigger] s[a]) by {
        assert(s.to_multiset().contains(s[a]));
        assert(sel.to_multiset().contains(s[a]));
    }
    assert forall|a: int| 0 <= a < s.len() implies (#[trigger] s[a]).len >= 1 by {
        assert(sel.contains(s[a]));
        let x = choose|x: int| 0 <= x < sel.len() && sel[x] == s[a];
        assert(sel.to_multiset().count(sel[x]) <= table.to_multiset().count(sel[x]));
        assert(sel.to_multiset().contains(sel[x]));
        assert(table.to_multiset().contains(sel[x]));
        assert(table.contains(sel[x]));
        let t = choose|t: int| 0 <= t < table.len() && table[t] == sel[x];
        assert(table[t].len >= 1);
    }
    assert forall|a: int, b: int|
        0 <= a < s.len() && 0 <= b < s.len() && a != b implies s[a].disjoint(s[b]) by {
        if s[a] == s[b] {
            lemma_count_two(s, a, b);
            assert(sel.to_multiset().count(s[a]) >= 2);
            assert(table.to_multiset().count(s[a]) >= 2);
            lemma_count_to_two_positions(table, s[a]);
            let (x, y) = choose|x: int, y: int|
                0 <= x < table.len() && 0 <= y < table.len() && x != y && table[x] == s[a]
                    && table[y] == s[a];
            assert(table[x].disjoint(table[y]));
            assert(s[a].len >= 1);
            assert(false);
        } else {
            assert(sel.contains(s[a]));
            assert(sel.contains(s[b]));
            assert(in_window(s[a], fid, base, win_end));
            assert(in_window(s[b], fid, base, win_end));
            assert(sel.to_multiset().contains(s[a]));
            assert(sel.to_multiset().contains(s[b]));
            assert(table.to_multiset().contains(s[a]));
            assert(table.to_multiset().contains(s[b]));
            let u = choose|u: int| 0 <= u < table.len() && table[u] == s[a];
            let v = choose|v: int| 0 <= v < table.len() && table[v] == s[b];
            assert(u != v);
            assert(table[u].disjoint(table[v]));
        }
    }
    lemma_sorted_disjoint_chained(s);
}

/// A value with multiset count at least two occurs at two distinct positions.
proof fn lemma_count_to_two_positions<A>(s: Seq<A>, x: A)
    requires
        s.to_multiset().count(x) >= 2,
    ensures
        exists|i: int, j: int|
            0 <= i < s.len() && 0 <= j < s.len() && i != j && s[i] == x && s[j] == x,
    decreases s.len(),
{
    broadcast use vstd::seq_lib::group_to_multiset_ensures;

    assert(s.len() > 0) by {
        if s.len() == 0 {
            assert(s.to_multiset() =~= Multiset::<A>::empty());
        }
    }
    assert(s =~= s.drop_last().push(s.last()));
    assert(s.to_multiset() =~= s.drop_last().to_multiset().insert(s.last()));
    if s.last() == x {
        if s.drop_last().to_multiset().count(x) >= 1 {
            assert(s.drop_last().contains(x));
            let i = choose|i: int| 0 <= i < s.drop_last().len() && s.drop_last()[i] == x;
            assert(s[i] == x && s[s.len() - 1] == x && i != s.len() - 1);
        } else {
            assert(s.to_multiset().count(x) == 1);
        }
    } else {
        lemma_count_to_two_positions(s.drop_last(), x);
        let (i, j) = choose|i: int, j: int|
            0 <= i < s.drop_last().len() && 0 <= j < s.drop_last().len() && i != j
                && s.drop_last()[i] == x && s.drop_last()[j] == x;
        assert(s[i] == x && s[j] == x);
    }
}

} // verus!
