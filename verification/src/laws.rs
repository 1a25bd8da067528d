//! Properties that relate several operations of the library.
use vstd::prelude::*;
use crate::types::{MemoId, MemoPeeringStatus, SlabId, SlabPresence, SubjectId, spec_compose_id, lemma_compose_id_injective};
use crate::slabref::SlabRefView;
use crate::slab::{add_waiter, fresh_ref, memo_spec};
use crate::memo::{BodyView, EdgeView, HeadView, MemoView, PeerView, RefView, edge_index, edge_insert, head_from_ref, head_refs, head_subject, lemma_edge_index, lemma_refs_descend, ref_descends};
use crate::memoref::{peers_presence, presence_for_peer, peered_with, shared_view, table_peer_updated, table_remotized, table_residentized, updated_peers};
use crate::memorefhead::{head_descends_or_contains, absorbs, apply_ref, apply_ref_head, first_per_slot, head_for_slab, keep_undescended, projected_edges, ref_edges, refs_edges, slot_taken};
use crate::context::{CompactState, referenced, test_edges, total_len, compact_records, head_ids, entry_index, compact_full, compact_updates, compaction, lemma_compact_created_grows, unreferenced};
use crate::stash::stash_get;
use crate::memo::{lineage_local, refs_local};
use crate::lineage::{
    install_head, install_ref, install_refs, lacks, lemma_install_ref_keeps, ref_gap, refs_gap, refs_lack,
};

verus! {

/// After `update_peer` records a status for a slab, the memo is peered with that slab
/// exactly when the status is not `NonParticipating`.
pub proof fn law_update_peer_then_peered(ps: Seq<PeerView>, sr: SlabRefView, status: MemoPeeringStatus)
    ensures
        peered_with(updated_peers(ps, sr, status), sr) == (status != MemoPeeringStatus::NonParticipating),
{
    let u = updated_peers(ps, sr, status);
    if exists|i: int| 0 <= i < ps.len() && (#[trigger] ps[i]).slabref.to_slab_id == sr.to_slab_id {
        let i = choose|i: int| 0 <= i < ps.len() && (#[trigger] ps[i]).slabref.to_slab_id == sr.to_slab_id;
        assert(u[i].slabref.to_slab_id == sr.to_slab_id && u[i].status == status);
        if peered_with(u, sr) {
            let k = choose|k: int|
                0 <= k < u.len() && (#[trigger] u[k]).slabref.to_slab_id == sr.to_slab_id
                    && u[k].status != MemoPeeringStatus::NonParticipating;
            assert(u[k].status == status);
        }
    } else {
        assert(u[ps.len() as int] == PeerView { slabref: sr, status });
        if peered_with(u, sr) {
            let k = choose|k: int|
                0 <= k < u.len() && (#[trigger] u[k]).slabref.to_slab_id == sr.to_slab_id
                    && u[k].status != MemoPeeringStatus::NonParticipating;
            if k < ps.len() {
                assert(u[k] == ps[k]);
            }
        }
    }
}

/// Recording the same status for the same slab twice is the same as recording it once.
pub proof fn law_update_peer_idempotent(ps: Seq<PeerView>, sr: SlabRefView, status: MemoPeeringStatus)
    ensures
        updated_peers(updated_peers(ps, sr, status), sr, status) == updated_peers(ps, sr, status),
{
    let u = updated_peers(ps, sr, status);
    if exists|i: int| 0 <= i < ps.len() && (#[trigger] ps[i]).slabref.to_slab_id == sr.to_slab_id {
        let i = choose|i: int| 0 <= i < ps.len() && (#[trigger] ps[i]).slabref.to_slab_id == sr.to_slab_id;
        assert(u[i].slabref.to_slab_id == sr.to_slab_id);
        assert(updated_peers(u, sr, status) =~= u);
    } else {
        assert(u[ps.len() as int].slabref.to_slab_id == sr.to_slab_id);
        assert(updated_peers(u, sr, status) =~= u);
    }
}

/// Once a memo has been applied to a head, the head holds it or a memo descending from it.
pub proof fn law_apply_memoref_absorbs(h: HeadView, new: RefView)
    ensures
        absorbs(head_refs(apply_ref_head(h, new)), new),
{
    let r = head_refs(apply_ref_head(h, new));
    match h {
        HeadView::Null => {
            assert(r[0] == new);
        },
        _ => {
            if !absorbs(head_refs(h), new) {
                let k = keep_undescended(head_refs(h), new);
                assert(r[k.len() as int] == new);
            }
        },
    }
}

/// Applying the same memo twice changes a head no more than applying it once.
pub proof fn law_apply_memoref_idempotent(h: HeadView, new: RefView)
    ensures
        apply_ref_head(apply_ref_head(h, new), new) == apply_ref_head(h, new),
{
    law_apply_memoref_absorbs(h, new);
    let a = apply_ref_head(h, new);
    match h {
        HeadView::Null => {
            assert(head_refs(a) == seq![new]);
            assert(apply_ref(seq![new], new) == seq![new]);
        },
        _ => {},
    }
}

/// A memo descends from every memo of the head it was created on.
pub proof fn law_new_memo_descends_parents(
    id: MemoId,
    slab_id: SlabId,
    subject_id: Option<SubjectId>,
    parents: HeadView,
    body: BodyView,
    k: int,
)
    requires
        0 <= k < head_refs(parents).len(),
    ensures
        ref_descends(fresh_ref(memo_spec(id, slab_id, subject_id, parents, body)), head_refs(parents)[k].id),
{
    lemma_refs_descend(head_refs(parents), head_refs(parents)[k].id);
}

/// The identifiers a slab hands out for its memos and subjects never repeat: two
/// identifiers from different slabs, or from different counter values, differ.
pub proof fn law_slab_ids_distinct(s1: SlabId, c1: u32, s2: SlabId, c2: u32)
    requires
        s1 != s2 || c1 != c2,
    ensures
        spec_compose_id(s1, c1) != spec_compose_id(s2, c2),
{
    lemma_compose_id_injective(s1, c1, s2, c2);
}

/// Handing a head to another slab keeps its subject and the ids of its memos, and the
/// receiving slab holds those memos as remote unless the memos travel along.
pub proof fn law_head_for_slab_keeps_ids(h: HeadView, from: SlabRefView, to_slab_id: SlabId, include_memos: bool)
    ensures
        head_subject(head_for_slab(h, from, to_slab_id, include_memos)) == head_subject(h),
        head_refs(head_for_slab(h, from, to_slab_id, include_memos)).len() == head_refs(h).len(),
        forall|k: int|
            0 <= k < head_refs(h).len() ==> {
                let r = #[trigger] head_refs(head_for_slab(h, from, to_slab_id, include_memos))[k];
                &&& r.id == head_refs(h)[k].id
                &&& r.owning_slab_id == to_slab_id
                &&& !include_memos ==> r.memo is None
            },
{
}

/// No slot occurs twice among `es`.
pub open spec fn distinct_slots(es: Seq<EdgeView>) -> bool {
    forall|i: int, j: int| 0 <= i < es.len() && 0 <= j < es.len() && i != j ==> (#[trigger] es[i]).slot_id != (#[trigger] es[j]).slot_id
}

proof fn lemma_edge_insert_distinct(es: Seq<EdgeView>, slot_id: crate::types::RelationSlotId, h: HeadView)
    requires
        distinct_slots(es),
    ensures
        distinct_slots(edge_insert(es, slot_id, h)),
{
    lemma_edge_index(es, slot_id);
    let t = edge_insert(es, slot_id, h);
    assert forall|i: int, j: int| 0 <= i < t.len() && 0 <= j < t.len() && i != j implies (#[trigger] t[i]).slot_id != (#[trigger] t[j]).slot_id by {
        if edge_index(es, slot_id) < 0 {
            if i < es.len() && j < es.len() {
                assert(t[i] == es[i] && t[j] == es[j]);
            }
        } else {
            let k = edge_index(es, slot_id);
            assert(t[i].slot_id == es[i].slot_id);
            assert(t[j].slot_id == es[j].slot_id);
        }
    }
}

proof fn lemma_compact_updates_distinct(edges: Seq<EdgeView>, stash: Seq<HeadView>)
    ensures
        distinct_slots(compact_updates(edges, stash)),
    decreases edges.len(),
{
    if edges.len() > 0 {
        lemma_compact_updates_distinct(edges.drop_last(), stash);
        let prev = compact_updates(edges.drop_last(), stash);
        let e = edges.last();
        if let Some(sid) = head_subject(e.head) {
            lemma_edge_insert_distinct(prev, e.slot_id, stash_get(stash, sid));
        }
    }
}

proof fn lemma_first_per_slot_distinct(a: Seq<EdgeView>)
    requires
        distinct_slots(a),
    ensures
        first_per_slot(a) == a,
    decreases a.len(),
{
    if a.len() > 0 {
        let d = a.drop_last();
        assert(distinct_slots(d)) by {
            assert forall|i: int, j: int| 0 <= i < d.len() && 0 <= j < d.len() && i != j implies (#[trigger] d[i]).slot_id != (#[trigger] d[j]).slot_id by {
                assert(d[i] == a[i] && d[j] == a[j]);
            }
        }
        lemma_first_per_slot_distinct(d);
        if slot_taken(d, a.last().slot_id) {
            let k = choose|k: int| 0 <= k < d.len() && (#[trigger] d[k]).slot_id == a.last().slot_id;
            assert(a[k] == d[k]);
            assert(false);
        }
        assert(d.push(a.last()) =~= a);
    }
}

proof fn lemma_first_per_slot_prefix(a: Seq<EdgeView>, b: Seq<EdgeView>)
    requires
        distinct_slots(a),
    ensures
        first_per_slot(a + b).len() >= a.len(),
        first_per_slot(a + b).subrange(0, a.len() as int) == a,
    decreases b.len(),
{
    if b.len() == 0 {
        assert(a + b =~= a);
        lemma_first_per_slot_distinct(a);
        assert(a.subrange(0, a.len() as int) =~= a);
    } else {
        lemma_first_per_slot_prefix(a, b.drop_last());
        assert((a + b).drop_last() =~= a + b.drop_last());
        let p = first_per_slot(a + b.drop_last());
        if !slot_taken(p, (a + b).last().slot_id) {
            assert(p.push((a + b).last()).subrange(0, a.len() as int) =~= p.subrange(0, a.len() as int));
        }
    }
}

/// Compaction makes the fresher heads part of what the subject projects: in the head of
/// the edge memo that compaction creates for a stash head `p`, the projected edges begin
/// with exactly the updated edges, so each referenced subject head is included in every
/// later projection of that subject.
pub proof fn law_compaction_edges_projected(slab_id: SlabId, st: CompactState, p: HeadView)
    requires
        p is Subject,
        compact_updates(projected_edges(p), st.stash).len() > 0,
    ensures
        ({
            let ups = compact_updates(projected_edges(p), st.stash);
            let r = fresh_ref(memo_spec(
                spec_compose_id(slab_id, (st.last_memo_id + 1) as u32),
                slab_id,
                Some(head_subject(p)->Some_0),
                p,
                BodyView::Edge(ups),
            ));
            &&& projected_edges(head_from_ref(r)).len() >= ups.len()
            &&& projected_edges(head_from_ref(r)).subrange(0, ups.len() as int) == ups
        }),
{
    let ups = compact_updates(projected_edges(p), st.stash);
    let r = fresh_ref(memo_spec(
        spec_compose_id(slab_id, (st.last_memo_id + 1) as u32),
        slab_id,
        Some(head_subject(p)->Some_0),
        p,
        BodyView::Edge(ups),
    ));
    lemma_compact_updates_distinct(projected_edges(p), st.stash);
    let rest = refs_edges(head_refs(p));
    assert(ref_edges(r) == ups + rest);
    assert(head_refs(head_from_ref(r)) == seq![r]);
    assert(seq![r].drop_last() =~= Seq::<RefView>::empty());
    assert(seq![r].last() == r);
    assert(refs_edges(Seq::<RefView>::empty()) =~= Seq::<EdgeView>::empty());
    assert(refs_edges(seq![r]) == refs_edges(seq![r].drop_last()) + ref_edges(seq![r].last()));
    assert(refs_edges(seq![r]) =~= ups + rest);
    lemma_first_per_slot_prefix(ups, rest);
}

/// Installing a retrieved memo into a lineage that can already be read on the slab changes
/// nothing: only memos that are not resident are filled in.
pub proof fn law_install_into_readable_lineage_changes_nothing(r: RefView, m: MemoView, slab_id: SlabId)
    requires
        lineage_local(r, slab_id),
    ensures
        install_ref(r, m) == r,
    decreases r, 1nat,
{
    match r.memo {
        Some(mm) => match mm.parents {
            HeadView::Null => {},
            HeadView::Subject { refs, .. } => {
                lemma_install_refs_readable(refs, m, slab_id);
            },
            HeadView::Anonymous { refs } => {
                lemma_install_refs_readable(refs, m, slab_id);
            },
        },
        None => {},
    }
}

proof fn lemma_install_refs_readable(rs: Seq<RefView>, m: MemoView, slab_id: SlabId)
    requires
        refs_local(rs, slab_id),
    ensures
        install_refs(rs, m) == rs,
    decreases rs, 0nat,
{
    if rs.len() > 0 {
        lemma_install_refs_readable(rs.drop_last(), m, slab_id);
        law_install_into_readable_lineage_changes_nothing(rs.last(), m, slab_id);
        assert(rs.drop_last().push(rs.last()) =~= rs);
    }
}

/// Installing a retrieved memo keeps a head's subject and the ids of its memos, in order:
/// a head names the same memos before and after its lineage is filled in.
pub proof fn law_install_keeps_head(h: HeadView, m: MemoView)
    ensures
        head_subject(install_head(h, m)) == head_subject(h),
        head_refs(install_head(h, m)).len() == head_refs(h).len(),
        forall|i: int|
            0 <= i < head_refs(h).len() ==> (#[trigger] head_refs(install_head(h, m))[i]).id == head_refs(h)[i].id
                && head_refs(install_head(h, m))[i].subject_id == head_refs(h)[i].subject_id,
{
    lemma_install_refs_len(head_refs(h), m);
}

proof fn lemma_install_refs_len(rs: Seq<RefView>, m: MemoView)
    ensures
        install_refs(rs, m).len() == rs.len(),
        forall|i: int|
            0 <= i < rs.len() ==> (#[trigger] install_refs(rs, m)[i]).id == rs[i].id
                && install_refs(rs, m)[i].subject_id == rs[i].subject_id,
    decreases rs.len(),
{
    if rs.len() > 0 {
        lemma_install_refs_len(rs.drop_last(), m);
        let t = install_refs(rs, m);
        assert forall|i: int| 0 <= i < rs.len() implies (#[trigger] t[i]).id == rs[i].id
            && t[i].subject_id == rs[i].subject_id by {
            if i < rs.len() - 1 {
                assert(t[i] == install_refs(rs.drop_last(), m)[i]);
                assert(rs.drop_last()[i] == rs[i]);
            } else {
                assert(t[i] == install_ref(rs.last(), m));
                lemma_install_ref_keeps(rs.last(), m);
            }
        }
    }
}

/// Recording a new memo (`Slab::new_memo`) keeps every memo the table held, and a lookup of
/// the new memo's id then gives the new memo: what is written is read back.
pub proof fn law_new_memo_read_back(t: Map<MemoId, RefView>, r: RefView, k: MemoId)
    ensures
        t.insert(r.id, r).contains_key(r.id) && t.insert(r.id, r)[r.id] == r,
        k != r.id ==> (t.insert(r.id, r).contains_key(k) == t.contains_key(k)),
        k != r.id && t.contains_key(k) ==> t.insert(r.id, r)[k] == t[k],
{
}

/// Registering a waiter (`Slab::memo_wait_channel`) counts one more waiter for that memo
/// and leaves the other memos' counts as they were.
pub proof fn law_add_waiter_counts_one_more(w: Map<MemoId, usize>, memo_id: MemoId, k: MemoId)
    requires
        w.contains_key(memo_id) ==> w[memo_id] < usize::MAX,
    ensures
        add_waiter(w, memo_id)[memo_id] == (if w.contains_key(memo_id) { w[memo_id] + 1 } else { 1 }),
        k != memo_id ==> add_waiter(w, memo_id).contains_key(k) == w.contains_key(k),
        k != memo_id && w.contains_key(k) ==> add_waiter(w, memo_id)[k] == w[k],
{
}

/// Installing a retrieved memo fills every place of a lineage that lacked it, provided the
/// memo's own parents do not refer to it: the same gap is never named twice.
pub proof fn law_install_fills_every_gap_naming_it(r: RefView, m: MemoView)
    requires
        !refs_lack(head_refs(m.parents), m.id),
    ensures
        !lacks(install_ref(r, m), m.id),
    decreases r, 1nat,
{
    match r.memo {
        None => {
            if r.id == m.id {
                let t = install_ref(r, m);
                assert(t.memo == Some(m));
                match m.parents {
                    HeadView::Null => {},
                    HeadView::Subject { refs, .. } => assert(head_refs(m.parents) == refs),
                    HeadView::Anonymous { refs } => assert(head_refs(m.parents) == refs),
                }
            }
        },
        Some(mm) => match mm.parents {
            HeadView::Null => {},
            HeadView::Subject { refs, .. } => lemma_install_refs_fill(refs, m),
            HeadView::Anonymous { refs } => lemma_install_refs_fill(refs, m),
        },
    }
}

proof fn lemma_install_refs_fill(rs: Seq<RefView>, m: MemoView)
    requires
        !refs_lack(head_refs(m.parents), m.id),
    ensures
        !refs_lack(install_refs(rs, m), m.id),
    decreases rs, 0nat,
{
    if rs.len() > 0 {
        lemma_install_refs_fill(rs.drop_last(), m);
        law_install_fills_every_gap_naming_it(rs.last(), m);
        let t = install_refs(rs, m);
        assert(t.drop_last() =~= install_refs(rs.drop_last(), m));
    }
}

/// A gap that is a memo not resident is a memo the lineage lacks: `first_gap` names memos
/// that retrieving and installing fill.
pub proof fn law_remote_gap_is_lacked(r: RefView, slab_id: SlabId)
    requires
        ref_gap(r, slab_id) is Some,
        ref_gap(r, slab_id)->Some_0.memo is None,
    ensures
        lacks(r, ref_gap(r, slab_id)->Some_0.id),
    decreases r, 1nat,
{
    if r.owning_slab_id != slab_id {
        assert(ref_gap(r, slab_id) == Some(r));
    } else {
        match r.memo {
            None => {},
            Some(mm) => match mm.parents {
                HeadView::Null => {},
                HeadView::Subject { refs, .. } => lemma_remote_gap_lacked_refs(refs, slab_id),
                HeadView::Anonymous { refs } => lemma_remote_gap_lacked_refs(refs, slab_id),
            },
        }
    }
}

proof fn lemma_remote_gap_lacked_refs(rs: Seq<RefView>, slab_id: SlabId)
    ensures
        refs_gap(rs, slab_id) is Some && refs_gap(rs, slab_id)->Some_0.memo is None
            ==> refs_lack(rs, refs_gap(rs, slab_id)->Some_0.id),
    decreases rs, 0nat,
{
    if rs.len() > 0 {
        lemma_remote_gap_lacked_refs(rs.drop_last(), slab_id);
        if refs_gap(rs.drop_last(), slab_id) is None && ref_gap(rs.last(), slab_id) is Some
            && ref_gap(rs.last(), slab_id)->Some_0.memo is None {
            law_remote_gap_is_lacked(rs.last(), slab_id);
        }
    }
}

/// Every reference to a memo on a slab that holds the memo in its table shares one state:
/// after `update_peer` through any of them, each of them (`other`) is peered with that slab
/// exactly when the status is not `NonParticipating`.
pub proof fn law_update_peer_seen_by_every_reference(
    t: Map<MemoId, RefView>,
    id: MemoId,
    other: RefView,
    sr: SlabRefView,
    status: MemoPeeringStatus,
)
    requires
        t.contains_key(id),
        other.id == id,
    ensures
        peered_with(shared_view(other, table_peer_updated(t, id, sr, status)).peers, sr) == (status
            != MemoPeeringStatus::NonParticipating),
{
    law_update_peer_then_peered(t[id].peers, sr, status);
}

/// Residency is shared the same way: after `remotize` through any reference, every
/// reference (`other`) sees the memo as remote; after `residentize` with `m`, every one
/// sees `m`, with the peers it had.
pub proof fn law_residency_seen_by_every_reference(t: Map<MemoId, RefView>, id: MemoId, other: RefView, m: MemoView)
    requires
        t.contains_key(id),
        other.id == id,
    ensures
        shared_view(other, table_remotized(t, id)).memo is None,
        shared_view(other, table_residentized(table_remotized(t, id), id, m)).memo == Some(m),
        shared_view(other, table_residentized(table_remotized(t, id), id, m)).peers == t[id].peers,
{
}

/// Full compaction of a stash of `n` heads creates at most `n * n` memos: a pass creates at
/// most one memo per head, and every further pass works on fewer heads.  (A sufficient test
/// a caller can make before compacting; the exact count is `compact_full(..).2.len()`.)
pub proof fn law_compaction_creates_at_most_square(slab_id: SlabId, s: Seq<HeadView>, last: u32, created: Seq<RefView>)
    ensures
        compact_full(slab_id, s, last, created).2.len() <= created.len() + s.len() * s.len(),
    decreases s.len(),
{
    let c = compaction(slab_id, s, last);
    let st0 = CompactState { stash: s, last_memo_id: last, created: Seq::empty(), records: Seq::empty() };
    lemma_compact_created_grows(slab_id, s, st0, 0, s.len());
    assert(c.created.len() <= s.len());
    let n = s.len() as int;
    let kept = unreferenced(c.stash, c.records);
    if kept.len() < s.len() {
        law_compaction_creates_at_most_square(slab_id, kept, c.last_memo_id, created + c.created);
        let m = kept.len() as int;
        assert(m * m <= (n - 1) * (n - 1)) by (nonlinear_arith)
            requires
                0 <= m <= n - 1,
        ;
        assert((n - 1) * (n - 1) + n <= n * n) by (nonlinear_arith)
            requires
                n >= 1,
        ;
    } else {
        assert(n <= n * n) by (nonlinear_arith)
            requires
                n >= 0,
        ;
    }
}

/// After `(key, h)` is recorded, the index gives `h` for `key`, and what it gave for every
/// other key: a read gives back the last write.
pub proof fn law_root_index_read_back(s: Seq<(u64, HeadView)>, key: u64, h: HeadView, other: u64)
    ensures
        entry_index(s.push((key, h)), key) == s.len(),
        s.push((key, h))[entry_index(s.push((key, h)), key)].1 == h,
        other != key ==> entry_index(s.push((key, h)), other) == entry_index(s, other),
{
    assert(s.push((key, h)).drop_last() =~= s);
}

/// The count `hack_send_context` returns is `total_len` of the heads it sends: every head
/// counts each of its memos, so one head of `k` memos counts `k`, and the counts of two runs
/// of heads add up.
pub proof fn law_sent_count_counts_memo_references(h: HeadView, a: Seq<HeadView>, b: Seq<HeadView>)
    ensures
        total_len(seq![h]) == head_refs(h).len(),
        total_len(a + b) == total_len(a) + total_len(b),
    decreases b.len(),
{
    assert(seq![h].drop_last() =~= Seq::<HeadView>::empty());
    assert(total_len(Seq::<HeadView>::empty()) == 0);
    assert(total_len(seq![h]) == total_len(seq![h].drop_last()) + head_refs(seq![h].last()).len());
    if b.len() > 0 {
        law_sent_count_counts_memo_references(h, a, b.drop_last());
        assert((a + b).drop_last() =~= a + b.drop_last());
    } else {
        assert(a + b =~= a);
    }
}

/// An edge set with `slot_id` set to `head` holds that edge and, otherwise, edges it held.
proof fn lemma_edge_insert_from(p: Seq<EdgeView>, slot_id: u8, head: HeadView)
    ensures
        forall|k: int|
            0 <= k < edge_insert(p, slot_id, head).len() ==> #[trigger] edge_insert(p, slot_id, head)[k]
                == (EdgeView { slot_id, head }) || (k < p.len() && edge_insert(p, slot_id, head)[k] == p[k]),
        edge_insert(p, slot_id, head).len() >= p.len(),
{
    lemma_edge_index(p, slot_id);
}

/// `out` is the edge `e` refreshed from `stash`: the same slot, now holding the stash's head
/// of the subject `e` pointed to, every memo of which is a memo of `e`'s head or descends from
/// each of them.
#[verifier::opaque]
pub open spec fn refreshed_edge(out: EdgeView, e: EdgeView, stash: Seq<HeadView>) -> bool {
    let ra = head_refs(out.head);
    let rb = head_refs(e.head);
    &&& out.slot_id == e.slot_id
    &&& head_subject(e.head) is Some
    &&& out.head == stash_get(stash, head_subject(e.head)->Some_0)
    &&& out.head is Subject
    &&& ra.len() > 0
    &&& rb.len() > 0
    &&& forall|x: int, y: int|
        0 <= x < ra.len() && 0 <= y < rb.len() ==> (#[trigger] ra[x]).id == (#[trigger] rb[y]).id
            || ref_descends(ra[x], rb[y].id)
}

/// Compaction only refreshes an edge with a fresher head: every edge `k` of the new edge
/// memo for a head is one of the head's projected edges (the `j`-th) refreshed from the
/// stash.
pub proof fn law_compaction_refreshes_only_with_fresher_heads(edges: Seq<EdgeView>, stash: Seq<HeadView>, k: int) -> (j: int)
    requires
        0 <= k < compact_updates(edges, stash).len(),
    ensures
        0 <= j < edges.len(),
        refreshed_edge(compact_updates(edges, stash)[k], edges[j], stash),
    decreases edges.len(),
{
    reveal(refreshed_edge);
    let d = edges.drop_last();
    let prev = compact_updates(d, stash);
    let e = edges.last();
    let out = compact_updates(edges, stash);
    let is_new = match head_subject(e.head) {
        Some(sid) => stash_get(stash, sid) is Subject && head_descends_or_contains(stash_get(stash, sid), e.head),
        None => false,
    };
    if is_new {
        let sh = stash_get(stash, head_subject(e.head)->Some_0);
        lemma_edge_insert_from(prev, e.slot_id, sh);
        if out[k] == (EdgeView { slot_id: e.slot_id, head: sh }) {
            edges.len() - 1
        } else {
            assert(out[k] == prev[k]);
            let j = law_compaction_refreshes_only_with_fresher_heads(d, stash, k);
            assert(d[j] == edges[j]);
            j
        }
    } else {
        assert(out == prev);
        let j = law_compaction_refreshes_only_with_fresher_heads(d, stash, k);
        assert(d[j] == edges[j]);
        j
    }
}

/// The heads compaction then removes are exactly heads an edge was refreshed with: every
/// record `k` it keeps names a subject one of the projected edges (the `j`-th) pointed to,
/// with the memo ids of that subject's stash head, and that edge refreshed with the head is
/// a refreshed edge.
pub proof fn law_compaction_records_only_fresher_heads(edges: Seq<EdgeView>, stash: Seq<HeadView>, k: int) -> (j: int)
    requires
        0 <= k < compact_records(edges, stash).len(),
    ensures
        0 <= j < edges.len(),
        head_subject(edges[j].head) == Some(compact_records(edges, stash)[k].0),
        compact_records(edges, stash)[k].1 == head_ids(stash_get(stash, compact_records(edges, stash)[k].0)),
        refreshed_edge(
            EdgeView { slot_id: edges[j].slot_id, head: stash_get(stash, compact_records(edges, stash)[k].0) },
            edges[j],
            stash,
        ),
    decreases edges.len(),
{
    reveal(refreshed_edge);
    let d = edges.drop_last();
    let prev = compact_records(d, stash);
    let e = edges.last();
    let out = compact_records(edges, stash);
    let is_new = match head_subject(e.head) {
        Some(sid) => stash_get(stash, sid) is Subject && head_descends_or_contains(stash_get(stash, sid), e.head),
        None => false,
    };
    if is_new && k == prev.len() {
        edges.len() - 1
    } else {
        if is_new {
            assert(out[k] == prev[k]);
        } else {
            assert(out == prev);
        }
        let j = law_compaction_records_only_fresher_heads(d, stash, k);
        assert(d[j] == edges[j]);
        j
    }
}

/// The presences a memo reports to a peer (`get_presence_for_peer`): the first is the
/// owning slab; each later one (the `k`-th) is a presence of a peer `i` that holds the memo
/// (`Resident`) and is not the receiver.
pub proof fn law_presence_only_from_resident_peers(r: RefView, sr: SlabRefView, k: int) -> (i: int)
    requires
        1 <= k < presence_for_peer(r, sr).len(),
    ensures
        presence_for_peer(r, sr)[0].slab_id == r.owning_slab_id,
        0 <= i < r.peers.len(),
        r.peers[i].status == MemoPeeringStatus::Resident,
        r.peers[i].slabref.to_slab_id != sr.to_slab_id,
        r.peers[i].slabref.presence.contains(presence_for_peer(r, sr)[k]),
{
    let i = lemma_peers_presence_from(r.peers, sr.to_slab_id, k - 1);
    assert(presence_for_peer(r, sr)[k] == peers_presence(r.peers, sr.to_slab_id)[k - 1]);
    i
}

proof fn lemma_peers_presence_from(ps: Seq<PeerView>, to: SlabId, k: int) -> (i: int)
    requires
        0 <= k < peers_presence(ps, to).len(),
    ensures
        0 <= i < ps.len(),
        ps[i].status == MemoPeeringStatus::Resident,
        ps[i].slabref.to_slab_id != to,
        ps[i].slabref.presence.contains(peers_presence(ps, to)[k]),
    decreases ps.len(),
{
    let d = ps.drop_last();
    let p = ps.last();
    let pre = peers_presence(d, to);
    if k < pre.len() {
        let i = lemma_peers_presence_from(d, to, k);
        assert(d[i] == ps[i]);
        i
    } else {
        let m = k - pre.len();
        assert(p.slabref.presence[m] == peers_presence(ps, to)[k]);
        ps.len() - 1
    }
}

/// A peer that does not hold the memo adds nothing to the presences reported.
pub proof fn law_presence_skips_peers_not_holding_the_memo(ps: Seq<PeerView>, p: PeerView, to: SlabId)
    requires
        p.status != MemoPeeringStatus::Resident,
    ensures
        peers_presence(ps.push(p), to) == peers_presence(ps, to),
{
    assert(ps.push(p).drop_last() =~= ps);
    assert(peers_presence(ps, to) + Seq::<SlabPresence>::empty() =~= peers_presence(ps, to));
}

/// After `update_peer` records `status` for the slab `sr` points to, every entry for that
/// slab has exactly `status`, there is such an entry, and the entries of other slabs are
/// kept, in place.
pub proof fn law_update_peer_sets_exactly_the_status(ps: Seq<PeerView>, sr: SlabRefView, status: MemoPeeringStatus)
    ensures
        forall|i: int|
            0 <= i < updated_peers(ps, sr, status).len() && (#[trigger] updated_peers(ps, sr, status)[i]).slabref.to_slab_id
                == sr.to_slab_id ==> updated_peers(ps, sr, status)[i].status == status,
        forall|i: int|
            0 <= i < ps.len() && (#[trigger] ps[i]).slabref.to_slab_id != sr.to_slab_id
                ==> updated_peers(ps, sr, status)[i] == ps[i],
        exists|i: int|
            0 <= i < updated_peers(ps, sr, status).len() && (#[trigger] updated_peers(ps, sr, status)[i]).slabref.to_slab_id
                == sr.to_slab_id,
        updated_peers(ps, sr, status).len() >= ps.len(),
{
    let u = updated_peers(ps, sr, status);
    if exists|i: int| 0 <= i < ps.len() && (#[trigger] ps[i]).slabref.to_slab_id == sr.to_slab_id {
        let i = choose|i: int| 0 <= i < ps.len() && (#[trigger] ps[i]).slabref.to_slab_id == sr.to_slab_id;
        assert(u[i].slabref.to_slab_id == sr.to_slab_id);
    } else {
        assert(u[ps.len() as int].slabref.to_slab_id == sr.to_slab_id);
    }
}

/// The memo `add_test_subject` creates has an edge only for a relation that is a subject
/// head: each edge `k` holds the relation `j` it came from, in the slot of that relation's
/// position, and that relation is a subject head.
pub proof fn law_test_edges_hold_subject_relations(rels: Seq<HeadView>, k: int) -> (j: int)
    requires
        0 <= k < test_edges(rels).len(),
    ensures
        0 <= j < rels.len(),
        rels[j] is Subject,
        test_edges(rels)[k] == (EdgeView { slot_id: (j % 256) as u8, head: rels[j] }),
    decreases rels.len(),
{
    let d = rels.drop_last();
    let prev = test_edges(d);
    let h = rels.last();
    if h is Subject {
        let slot = ((rels.len() - 1) % 256) as u8;
        lemma_edge_insert_from(prev, slot, h);
        if test_edges(rels)[k] == (EdgeView { slot_id: slot, head: h }) {
            rels.len() - 1
        } else {
            let j = law_test_edges_hold_subject_relations(d, k);
            assert(d[j] == rels[j]);
            j
        }
    } else {
        let j = law_test_edges_hold_subject_relations(d, k);
        assert(d[j] == rels[j]);
        j
    }
}

/// A relation that is not a subject head yields no edge.
pub proof fn law_test_edges_skip_non_subject_relations(rels: Seq<HeadView>, h: HeadView)
    requires
        !(h is Subject),
    ensures
        test_edges(rels.push(h)) == test_edges(rels),
{
    assert(rels.push(h).drop_last() =~= rels);
}

/// Compaction's removal keeps exactly the heads no refreshed edge holds: every kept head is
/// unreferenced, and every unreferenced head of the stash is kept.
pub proof fn law_removal_keeps_exactly_unreferenced_heads(s: Seq<HeadView>, recs: Seq<(SubjectId, Seq<MemoId>)>)
    ensures
        forall|k: int| 0 <= k < unreferenced(s, recs).len() ==> !referenced(recs, #[trigger] unreferenced(s, recs)[k]),
        forall|i: int| 0 <= i < s.len() && !referenced(recs, #[trigger] s[i]) ==> unreferenced(s, recs).contains(s[i]),
    decreases s.len(),
{
    if s.len() > 0 {
        let d = s.drop_last();
        law_removal_keeps_exactly_unreferenced_heads(d, recs);
        let u = unreferenced(d, recs);
        let t = unreferenced(s, recs);
        assert forall|i: int| 0 <= i < s.len() && !referenced(recs, #[trigger] s[i]) implies t.contains(s[i]) by {
            if i < s.len() - 1 {
                assert(d[i] == s[i]);
                assert(u.contains(d[i]));
                let m = choose|m: int| 0 <= m < u.len() && u[m] == d[i];
                if !referenced(recs, s.last()) {
                    assert(t[m] == u[m]);
                }
            } else {
                assert(t[t.len() - 1] == s[i]);
            }
        }
        assert forall|k: int| 0 <= k < t.len() implies !referenced(recs, #[trigger] t[k]) by {
            if k < u.len() {
                assert(t[k] == u[k]);
            }
        }
    }
}

} // verus!
