//! A query context: a slab, the stash of subject heads it works with, and the root index.
use vstd::prelude::*;
use crate::types::{spec_compose_id, MemoId, RetrieveError, SlabId, SubjectId};
use crate::slabref::SlabRefView;
use crate::slab::{Slab, SlabCounters, fresh_ref, lemma_with_refs_concat, memo_spec, table_view, with_refs};
use crate::network::Network;
use crate::memo::{
    BodyView, EdgeSet, EdgeView, HeadView, MemoBody, MemoRefHead, RefView, RelationSet,
    edge_insert, edges_view, head_from_ref, head_refs, head_subject, lemma_refs_local,
    lineage_local, refs_local, refs_view,
};
use crate::memorefhead::{EdgeLink, head_descends_or_contains, head_for_slab, projected_edges};
use crate::memo::{Memo, MemoRef};
use crate::slabref::SlabRef;
use crate::lineage::{install_head, lemma_refs_gap, received_memo, refs_gap};
use crate::stash::{
    Stash, heads_view, lemma_stash_apply, lemma_stash_index, stash_apply, stash_get, stash_index,
    stash_local, stash_wf,
};

verus! {

/// An entry of the root index: a subject and its head.
#[derive(Debug)]
pub struct IndexEntry {
    pub key: u64,
    pub head: MemoRefHead,
}

/// The root index of a context: the seed it grew from and the subjects it indexes.
#[derive(Debug)]
pub struct RootIndex {
    pub seed: MemoRefHead,
    pub entries: Vec<IndexEntry>,
}

pub open spec fn entries_view(s: Seq<IndexEntry>) -> Seq<(u64, HeadView)> {
    s.map_values(|e: IndexEntry| (e.key, e.head@))
}

/// The position of the last entry for `key`, or -1.
pub open spec fn entry_index(s: Seq<(u64, HeadView)>, key: u64) -> int
    decreases s.len(),
{
    if s.len() == 0 {
        -1
    } else if s.last().0 == key {
        s.len() - 1
    } else {
        entry_index(s.drop_last(), key)
    }
}

proof fn lemma_entry_index(s: Seq<(u64, HeadView)>, key: u64)
    ensures
        -1 <= entry_index(s, key) < s.len(),
        entry_index(s, key) >= 0 ==> s[entry_index(s, key)].0 == key,
        entry_index(s, key) < 0 ==> forall|i: int| 0 <= i < s.len() ==> (#[trigger] s[i]).0 != key,
    decreases s.len(),
{
    if s.len() > 0 {
        lemma_entry_index(s.drop_last(), key);
        assert forall|i: int| 0 <= i < s.len() - 1 implies s.drop_last()[i] == s[i] by {}
    }
}

proof fn lemma_entry_index_last_match(s: Seq<(u64, HeadView)>, key: u64, i: int)
    requires
        0 < i <= s.len(),
        s[i - 1].0 == key,
        forall|j: int| i <= j < s.len() ==> (#[trigger] s[j]).0 != key,
    ensures
        entry_index(s, key) == i - 1,
    decreases s.len(),
{
    if s.len() > i {
        assert(s[s.len() - 1].0 != key);
        lemma_entry_index_last_match(s.drop_last(), key, i);
    }
}

impl Clone for RootIndex {
    fn clone(&self) -> (res: Self)
        ensures
            res.seed@ == self.seed@,
            entries_view(res.entries@) == entries_view(self.entries@),
    {
        let mut entries: Vec<IndexEntry> = Vec::new();
        let mut i: usize = 0;
        while i < self.entries.len()
            invariant
                i <= self.entries@.len(),
                entries@.len() == i,
                forall|k: int|
                    0 <= k < i ==> (#[trigger] entries@[k]).key == self.entries@[k].key && entries@[k].head@
                        == self.entries@[k].head@,
            decreases self.entries@.len() - i,
        {
            let e = IndexEntry { key: self.entries[i].key, head: self.entries[i].head.clone() };
            entries.push(e);
            i += 1;
        }
        assert(entries_view(entries@) =~= entries_view(self.entries@));
        RootIndex { seed: self.seed.clone(), entries }
    }
}

impl RootIndex {
    /// Records `head` as the head of subject `key`; a later record for the same key takes
    /// its place in lookups.
    pub fn insert(&mut self, key: u64, head: MemoRefHead)
        ensures
            entries_view(final(self).entries@) == entries_view(old(self).entries@).push((key, head@)),
            final(self).seed == old(self).seed,
    {
        let ghost before = self.entries@;
        let ghost hv = head@;
        self.entries.push(IndexEntry { key, head });
        assert(entries_view(self.entries@) =~= entries_view(before).push((key, hv)));
    }

    /// The indexed head of subject `key`.
    pub fn get(&self, key: u64) -> (res: Result<MemoRefHead, RetrieveError>)
        ensures
            entry_index(entries_view(self.entries@), key) < 0 ==> res == Err::<MemoRefHead, RetrieveError>(RetrieveError::NotFound),
            entry_index(entries_view(self.entries@), key) >= 0 ==> res is Ok && res->Ok_0@
                == entries_view(self.entries@)[entry_index(entries_view(self.entries@), key)].1,
    {
        let ghost ev = entries_view(self.entries@);
        proof {
            lemma_entry_index(ev, key);
        }
        let mut i: usize = self.entries.len();
        while i > 0
            invariant
                i <= self.entries@.len(),
                ev == entries_view(self.entries@),
                forall|j: int| i <= j < ev.len() ==> (#[trigger] ev[j]).0 != key,
            decreases i,
        {
            if self.entries[i - 1].key == key {
                proof {
                    lemma_entry_index_last_match(ev, key, i as int);
                }
                return Ok(self.entries[i - 1].head.clone());
            }
            i -= 1;
        }
        proof {
            if entry_index(ev, key) >= 0 {
                assert(ev[entry_index(ev, key)].0 != key);
            }
        }
        Err(RetrieveError::NotFound)
    }
}

/// A subject retrieved through a context.
#[derive(Debug)]
pub struct SubjectHandle {
    pub id: SubjectId,
    pub head: MemoRefHead,
    pub context_id: u64,
}

#[derive(Debug)]
pub struct Context {
    pub id: u64,
    pub slab: Slab,
    pub stash: Stash,
    pub root_index: Option<RootIndex>,
}

/// The edges of a head projected from history, each replaced by the stash's head of the
/// same subject when that head descends from or contains the edge's head.
pub open spec fn compact_updates(edges: Seq<EdgeView>, stash: Seq<HeadView>) -> Seq<EdgeView>
    decreases edges.len(),
{
    if edges.len() == 0 {
        Seq::empty()
    } else {
        let prev = compact_updates(edges.drop_last(), stash);
        let e = edges.last();
        match head_subject(e.head) {
            Some(sid) => {
                let sh = stash_get(stash, sid);
                if sh is Subject && head_descends_or_contains(sh, e.head) {
                    edge_insert(prev, e.slot_id, sh)
                } else {
                    prev
                }
            },
            None => prev,
        }
    }
}

/// The ids of the memos of a head, in order.
pub open spec fn head_ids(h: HeadView) -> Seq<MemoId> {
    head_refs(h).map_values(|r: RefView| r.id)
}

/// The stash heads that an edge of a compacted head is refreshed with, as (subject, memo
/// ids): one record for each edge that `compact_updates` replaces.
pub open spec fn compact_records(edges: Seq<EdgeView>, stash: Seq<HeadView>) -> Seq<(SubjectId, Seq<MemoId>)>
    decreases edges.len(),
{
    if edges.len() == 0 {
        Seq::empty()
    } else {
        let prev = compact_records(edges.drop_last(), stash);
        let e = edges.last();
        match head_subject(e.head) {
            Some(sid) => {
                let sh = stash_get(stash, sid);
                if sh is Subject && head_descends_or_contains(sh, e.head) {
                    prev.push((sid, head_ids(sh)))
                } else {
                    prev
                }
            },
            None => prev,
        }
    }
}

pub open spec fn records_view(s: Seq<(SubjectId, Vec<MemoId>)>) -> Seq<(SubjectId, Seq<MemoId>)> {
    s.map_values(|r: (SubjectId, Vec<MemoId>)| (r.0, r.1@))
}

/// What compaction works on: the stash, the slab's memo counter, the memos it created, and
/// the stash heads that edges were refreshed with.
pub struct CompactState {
    pub stash: Seq<HeadView>,
    pub last_memo_id: u32,
    pub created: Seq<RefView>,
    pub records: Seq<(SubjectId, Seq<MemoId>)>,
}

/// One step of compaction, for the head `p` of the stash as it was when compaction began:
/// when some edge of `p` is fresher in the stash, a new edge memo records the fresher heads
/// on top of `p`, and is applied to the stash.
pub open spec fn compact_step(slab_id: SlabId, st: CompactState, p: HeadView) -> CompactState {
    let ups = compact_updates(projected_edges(p), st.stash);
    let records = st.records + compact_records(projected_edges(p), st.stash);
    if ups.len() == 0 {
        CompactState { records, ..st }
    } else {
        let sid = head_subject(p)->Some_0;
        let r = fresh_ref(memo_spec(
            spec_compose_id(slab_id, (st.last_memo_id + 1) as u32),
            slab_id,
            Some(sid),
            p,
            BodyView::Edge(ups),
        ));
        CompactState {
            stash: stash_apply(st.stash, head_from_ref(r)),
            last_memo_id: (st.last_memo_id + 1) as u32,
            created: st.created.push(r),
            records,
        }
    }
}

/// Compaction after the first `i` heads of `snap`.
pub open spec fn compact_upto(slab_id: SlabId, snap: Seq<HeadView>, st0: CompactState, i: nat) -> CompactState
    decreases i,
{
    if i == 0 {
        st0
    } else {
        compact_step(slab_id, compact_upto(slab_id, snap, st0, (i - 1) as nat), snap[i - 1])
    }
}

/// One pass of compaction over `stash` on slab `slab_id`, whose memo counter is
/// `last_memo_id`.
pub open spec fn compaction(slab_id: SlabId, stash: Seq<HeadView>, last_memo_id: u32) -> CompactState {
    compact_upto(
        slab_id,
        stash,
        CompactState { stash, last_memo_id, created: Seq::empty(), records: Seq::empty() },
        stash.len(),
    )
}

/// Whether the subject head `h` is, memo for memo, a head that some refreshed edge now
/// holds.
pub open spec fn referenced(recs: Seq<(SubjectId, Seq<MemoId>)>, h: HeadView) -> bool {
    exists|k: int|
        0 <= k < recs.len() && Some((#[trigger] recs[k]).0) == head_subject(h) && recs[k].1 == head_ids(h)
}

/// The heads of `s` that no refreshed edge holds, in order.
pub open spec fn unreferenced(s: Seq<HeadView>, recs: Seq<(SubjectId, Seq<MemoId>)>) -> Seq<HeadView>
    decreases s.len(),
{
    if s.len() == 0 {
        Seq::empty()
    } else {
        let p = unreferenced(s.drop_last(), recs);
        if referenced(recs, s.last()) {
            p
        } else {
            p.push(s.last())
        }
    }
}

/// Full compaction: passes of compaction, each followed by removing the heads that a
/// refreshed edge now holds, repeated as long as some head is removed.  Gives the final
/// stash, the final memo counter, and `created` followed by the memos created.
pub open spec fn compact_full(
    slab_id: SlabId,
    stash: Seq<HeadView>,
    last_memo_id: u32,
    created: Seq<RefView>,
) -> (Seq<HeadView>, u32, Seq<RefView>)
    decreases stash.len(),
{
    let c = compaction(slab_id, stash, last_memo_id);
    let kept = unreferenced(c.stash, c.records);
    if kept.len() < stash.len() {
        compact_full(slab_id, kept, c.last_memo_id, created + c.created)
    } else {
        (c.stash, c.last_memo_id, created + c.created)
    }
}

/// The edges of a test subject: every subject head of `rels` in the slot of its position
/// (taken modulo 256).
pub open spec fn test_edges(rels: Seq<HeadView>) -> Seq<EdgeView>
    decreases rels.len(),
{
    if rels.len() == 0 {
        Seq::empty()
    } else {
        let p = test_edges(rels.drop_last());
        if rels.last() is Subject {
            edge_insert(p, ((rels.len() - 1) % 256) as u8, rels.last())
        } else {
            p
        }
    }
}

/// The total number of memos in the heads `s`.
pub open spec fn total_len(s: Seq<HeadView>) -> nat
    decreases s.len(),
{
    if s.len() == 0 {
        0
    } else {
        total_len(s.drop_last()) + head_refs(s.last()).len()
    }
}

proof fn lemma_total_len_prefix(s: Seq<HeadView>, i: int, j: int)
    requires
        0 <= i <= j <= s.len(),
    ensures
        total_len(s.subrange(0, i)) <= total_len(s.subrange(0, j)),
    decreases j - i,
{
    if i < j {
        lemma_total_len_prefix(s, i, j - 1);
        assert(s.subrange(0, j).drop_last() =~= s.subrange(0, j - 1));
    }
}

proof fn lemma_stash_get_local(s: Seq<HeadView>, sid: SubjectId, slab_id: SlabId)
    requires
        stash_local(s, slab_id),
    ensures
        refs_local(head_refs(stash_get(s, sid)), slab_id),
{
    lemma_stash_index(s, sid);
    if stash_index(s, sid) < 0 {
        assert(head_refs(stash_get(s, sid)) =~= Seq::<RefView>::empty());
    }
}

/// Heads further on in a pass only add memos to those already created.
pub(crate) proof fn lemma_compact_created_grows(slab_id: SlabId, snap: Seq<HeadView>, st0: CompactState, i: nat, j: nat)
    requires
        i <= j,
    ensures
        compact_upto(slab_id, snap, st0, i).created.len() <= compact_upto(slab_id, snap, st0, j).created.len(),
        compact_upto(slab_id, snap, st0, j).created.len() <= compact_upto(slab_id, snap, st0, i).created.len() + (j - i),
    decreases j,
{
    if i < j {
        lemma_compact_created_grows(slab_id, snap, st0, i, (j - 1) as nat);
    }
}

/// A pass numbers its memos one after another: after the first `i` heads, the counter has
/// moved on by exactly the number of memos created, as long as that stays in range.
proof fn lemma_compact_counts(slab_id: SlabId, snap: Seq<HeadView>, st0: CompactState, i: nat)
    requires
        st0.created.len() == 0,
        st0.last_memo_id + compact_upto(slab_id, snap, st0, i).created.len() <= u32::MAX,
    ensures
        compact_upto(slab_id, snap, st0, i).last_memo_id == st0.last_memo_id + compact_upto(
            slab_id,
            snap,
            st0,
            i,
        ).created.len(),
    decreases i,
{
    if i > 0 {
        lemma_compact_created_grows(slab_id, snap, st0, (i - 1) as nat, i);
        lemma_compact_counts(slab_id, snap, st0, (i - 1) as nat);
    }
}

/// Full compaction creates at least the memos of its first pass, after those it was given.
proof fn lemma_compact_full_created(slab_id: SlabId, s: Seq<HeadView>, last: u32, created: Seq<RefView>)
    ensures
        compact_full(slab_id, s, last, created).2.len() >= created.len() + compaction(slab_id, s, last).created.len(),
    decreases s.len(),
{
    let c = compaction(slab_id, s, last);
    let kept = unreferenced(c.stash, c.records);
    if kept.len() < s.len() {
        lemma_compact_full_created(slab_id, kept, c.last_memo_id, created + c.created);
    }
}

/// Compaction keeps the stash's subjects, position by position.
proof fn lemma_compact_step_subjects(slab_id: SlabId, st: CompactState, p: HeadView)
    requires
        stash_wf(st.stash),
        p is Subject,
        stash_index(st.stash, head_subject(p)->Some_0) >= 0,
    ensures
        compact_step(slab_id, st, p).stash.len() == st.stash.len(),
        forall|k: int| 0 <= k < st.stash.len() ==> head_subject(#[trigger] compact_step(slab_id, st, p).stash[k]) == head_subject(st.stash[k]),
        stash_wf(compact_step(slab_id, st, p).stash),
{
    let ups = compact_updates(projected_edges(p), st.stash);
    if ups.len() > 0 {
        let sid = head_subject(p)->Some_0;
        let r = fresh_ref(memo_spec(
            spec_compose_id(slab_id, (st.last_memo_id + 1) as u32),
            slab_id,
            Some(sid),
            p,
            BodyView::Edge(ups),
        ));
        lemma_stash_apply(st.stash, head_from_ref(r), slab_id);
    }
}

/// The root index seed of `net` as known to the slab `slab_id`, or the null head.
pub open spec fn context_seed(net: &Network, slab_id: SlabId) -> HeadView {
    match net.root_index_seed {
        Some(s) => head_for_slab(s.head@, SlabRefView { owning_slab_id: slab_id, ..s.from@ }, slab_id, true),
        None => HeadView::Null,
    }
}

impl Clone for Context {
    /// A copy of the context, with the same id (so `cmp` calls the two the same context);
    /// later changes to one are not seen by the other.
    fn clone(&self) -> (res: Self)
        ensures
            res.id == self.id,
            res.stash.view_heads() == self.stash.view_heads(),
            res.slab.id == self.slab.id,
            res.slab.counters == self.slab.counters,
            table_view(res.slab.memorefs_by_id@) == table_view(self.slab.memorefs_by_id@),
            res.root_index is Some <==> self.root_index is Some,
            res.root_index is Some ==> res.root_index->Some_0.seed@ == self.root_index->Some_0.seed@
                && entries_view(res.root_index->Some_0.entries@) == entries_view(self.root_index->Some_0.entries@),
    {
        let root_index = match &self.root_index {
            Some(ix) => Some(ix.clone()),
            None => None,
        };
        Context { id: self.id, slab: self.slab.clone(), stash: self.stash.clone(), root_index }
    }
}

impl Context {
    /// Every head of the stash is a subject head, and no subject has two.
    pub open spec fn wf(&self) -> bool {
        stash_wf(self.stash.view_heads())
    }

    /// A context on `slab` with an empty stash; it gets the network's next context id, and
    /// its root index grows from the network's root index seed, when there is one.
    pub fn new(slab: Slab, net: &mut Network) -> (ctx: Context)
        requires
            old(net).next_context_id < u64::MAX,
        ensures
            ctx.id == old(net).next_context_id,
            final(net).next_context_id == old(net).next_context_id + 1,
            final(net).next_slab_id == old(net).next_slab_id,
            final(net).slabs == old(net).slabs,
            final(net).root_index_seed == old(net).root_index_seed,
            final(net).create_new_system_environment == old(net).create_new_system_environment,
            ctx.slab == slab,
            ctx.stash.view_heads() == Seq::<HeadView>::empty(),
            ctx.wf(),
            ctx.root_index is None <==> context_seed(&*old(net), slab.id) is Null,
            ctx.root_index is Some ==> ctx.root_index->Some_0.seed@ == context_seed(&*old(net), slab.id)
                && ctx.root_index->Some_0.entries@.len() == 0,
    {
        let id = net.generate_context_id();
        let seed = slab.get_root_index_seed(net);
        let root_index = match seed {
            MemoRefHead::Null => None,
            _ => Some(RootIndex { seed, entries: Vec::new() }),
        };
        let ctx = Context { id, slab, stash: Stash::new(), root_index };
        proof {
            assert(ctx.stash.view_heads() =~= Seq::<HeadView>::empty());
        }
        ctx
    }

    /// Retrieves a subject from the root index by id.
    pub fn get_subject_by_id(&self, subject_id: SubjectId) -> (res: Result<SubjectHandle, RetrieveError>)
        ensures
            self.root_index is None ==> res == Err::<SubjectHandle, RetrieveError>(RetrieveError::IndexNotInitialized),
            self.root_index is Some ==> {
                let ev = entries_view(self.root_index->Some_0.entries@);
                let i = entry_index(ev, subject_id.id);
                &&& i < 0 ==> res == Err::<SubjectHandle, RetrieveError>(RetrieveError::NotFound)
                &&& i >= 0 ==> res is Ok && res->Ok_0.id == subject_id && res->Ok_0.head@ == ev[i].1
                    && res->Ok_0.context_id == self.id
            },
    {
        match &self.root_index {
            Some(index) => {
                match index.get(subject_id.id) {
                    Ok(head) => Ok(SubjectHandle { id: subject_id, head, context_id: self.id }),
                    Err(e) => Err(e),
                }
            },
            None => Err(RetrieveError::IndexNotInitialized),
        }
    }

    /// The stash's head of subject `subject_id`, or the null head.
    pub fn get_resident_subject_head(&self, subject_id: SubjectId) -> (h: MemoRefHead)
        ensures
            h@ == stash_get(self.stash.view_heads(), subject_id),
    {
        self.stash.get_head(subject_id).clone()
    }

    /// The ids of the memos in the stash's head of subject `subject_id`.
    pub fn get_resident_subject_head_memo_ids(&self, subject_id: SubjectId) -> (ids: Vec<MemoId>)
        ensures
            ids@ == head_refs(stash_get(self.stash.view_heads(), subject_id)).map_values(|r: RefView| r.id),
    {
        self.get_resident_subject_head(subject_id).memo_ids()
    }

    /// Whether two contexts of the same network are distinct: every context of a network gets
    /// its own id from that network (see `Context::new`), and this compares those ids.  It
    /// only tells apart contexts of one network: contexts of two separate networks may carry
    /// the same id, and then compare as not different.
    pub fn cmp(&self, other: &Self) -> (different: bool)
        ensures
            different == (self.id != other.id),
    {
        self.id != other.id
    }

    /// Applies the subject head `head` to the stash and returns the subject's resulting head.
    /// The lineages of the stash must be readable on the slab: `first_gap` names a memo they
    /// lack, and `install_memo` puts that memo in once retrieved.
    pub fn apply_head_resident(&mut self, head: &MemoRefHead) -> (res: MemoRefHead)
        requires
            old(self).wf(),
            head@ is Subject,
            stash_index(old(self).stash.view_heads(), head_subject(head@)->Some_0) >= 0 ==> {
                &&& refs_local(head_refs(stash_get(old(self).stash.view_heads(), head_subject(head@)->Some_0)), old(self).slab.id)
                &&& refs_local(head_refs(head@), old(self).slab.id)
            },
        ensures
            final(self).stash.view_heads() == stash_apply(old(self).stash.view_heads(), head@),
            res@ == stash_get(final(self).stash.view_heads(), head_subject(head@)->Some_0),
            final(self).wf(),
            final(self).id == old(self).id,
            final(self).slab == old(self).slab,
            final(self).root_index == old(self).root_index,
    {
        proof {
            lemma_stash_apply(self.stash.view_heads(), head@, self.slab.id);
        }
        self.stash.apply_head_resident(&self.slab, head)
    }
}

impl Context {
    /// One pass of compaction: for every head of the stash (as it was when the pass began),
    /// the edges projected from its history that point to a head of a subject whose stash
    /// head descends from or contains it are collected; when there are any, a new edge memo
    /// on top of that head records the fresher heads and is applied to the stash.  Returns
    /// the stash heads the edges were refreshed with.
    fn compact_pass(&mut self) -> (recs: Vec<(SubjectId, Vec<MemoId>)>)
        requires
            old(self).wf(),
            stash_local(old(self).stash.view_heads(), old(self).slab.id),
            old(self).slab.counters.last_memo_id + compaction(
                old(self).slab.id,
                old(self).stash.view_heads(),
                old(self).slab.counters.last_memo_id,
            ).created.len() <= u32::MAX,
        ensures
            ({
                let c = compaction(
                    old(self).slab.id,
                    old(self).stash.view_heads(),
                    old(self).slab.counters.last_memo_id,
                );
                &&& final(self).stash.view_heads() == c.stash
                &&& final(self).slab.counters == (SlabCounters {
                    last_memo_id: c.last_memo_id,
                    ..old(self).slab.counters
                })
                &&& table_view(final(self).slab.memorefs_by_id@) == with_refs(
                    table_view(old(self).slab.memorefs_by_id@),
                    c.created,
                )
                &&& records_view(recs@) == c.records
                &&& c.last_memo_id == old(self).slab.counters.last_memo_id + c.created.len()
            }),
            final(self).wf(),
            stash_local(final(self).stash.view_heads(), final(self).slab.id),
            final(self).stash.view_heads().len() == old(self).stash.view_heads().len(),
            forall|k: int|
                0 <= k < old(self).stash.view_heads().len() ==> head_subject(
                    #[trigger] final(self).stash.view_heads()[k],
                ) == head_subject(old(self).stash.view_heads()[k]),
            final(self).id == old(self).id,
            final(self).root_index == old(self).root_index,
            final(self).slab.id == old(self).slab.id,
            final(self).slab.my_ref == old(self).slab.my_ref,
            final(self).slab.memo_wait_channels == old(self).slab.memo_wait_channels,
            final(self).slab.outbox == old(self).slab.outbox,
    {
        let ghost snap = self.stash.view_heads();
        let ghost c0 = self.slab.counters;
        let ghost old_refs = table_view(self.slab.memorefs_by_id@);
        let ghost st0 = CompactState { stash: snap, last_memo_id: c0.last_memo_id, created: Seq::empty(), records: Seq::empty() };
        assert(with_refs(old_refs, st0.created) == old_refs);
        let mut recs: Vec<(SubjectId, Vec<MemoId>)> = Vec::new();
        assert(records_view(recs@) =~= st0.records);
        let parents = self.stash.iter();
        let mut i: usize = 0;
        while i < parents.len()
            invariant
                i <= parents@.len(),
                heads_view(parents@) == snap,
                snap.len() == parents@.len(),
                stash_wf(snap),
                stash_local(snap, self.slab.id),
                c0.last_memo_id + compact_upto(self.slab.id, snap, st0, snap.len()).created.len() <= u32::MAX,
                st0 == (CompactState { stash: snap, last_memo_id: c0.last_memo_id, created: Seq::empty(), records: Seq::empty() }),
                ({
                    let st = compact_upto(self.slab.id, snap, st0, i as nat);
                    &&& self.stash.view_heads() == st.stash
                    &&& records_view(recs@) == st.records
                    &&& self.slab.counters == (SlabCounters { last_memo_id: st.last_memo_id, ..c0 })
                    &&& table_view(self.slab.memorefs_by_id@) == with_refs(old_refs, st.created)
                    &&& st.last_memo_id == c0.last_memo_id + st.created.len()
                }),
                stash_wf(self.stash.view_heads()),
                stash_local(self.stash.view_heads(), self.slab.id),
                self.stash.view_heads().len() == snap.len(),
                forall|k: int| 0 <= k < snap.len() ==> head_subject(#[trigger] self.stash.view_heads()[k]) == head_subject(snap[k]),
                self.id == old(self).id,
                self.root_index == old(self).root_index,
                self.slab.id == old(self).slab.id,
                self.slab.my_ref == old(self).slab.my_ref,
                self.slab.memo_wait_channels == old(self).slab.memo_wait_channels,
                self.slab.outbox == old(self).slab.outbox,
            decreases parents@.len() - i,
        {
            let parent = &parents[i];
            let ghost p = snap[i as int];
            let ghost st = compact_upto(self.slab.id, snap, st0, i as nat);
            proof {
                lemma_compact_created_grows(self.slab.id, snap, st0, (i + 1) as nat, snap.len());
                lemma_compact_created_grows(self.slab.id, snap, st0, i as nat, (i + 1) as nat);
                lemma_compact_counts(self.slab.id, snap, st0, (i + 1) as nat);
            }
            let ghost cur = self.stash.view_heads();
            assert(parent@ == p);
            assert(p is Subject);
            assert(refs_local(head_refs(p), self.slab.id));
            let links = parent.project_occupied_edges_resident(&self.slab);
            let ghost pe = projected_edges(p);
            let ghost recs0 = records_view(recs@);
            let mut updated = EdgeSet::empty();
            let mut j: usize = 0;
            while j < links.len()
                invariant
                    j <= links@.len(),
                    links@.len() == pe.len(),
                    forall|k: int|
                        0 <= k < links@.len() ==> (#[trigger] links@[k]) is Occupied
                            && links@[k]->Occupied_slot_id == pe[k].slot_id
                            && links@[k]->Occupied_head@ == pe[k].head,
                    cur == self.stash.view_heads(),
                    stash_local(cur, self.slab.id),
                    edges_view(updated.edges@) == compact_updates(pe.subrange(0, j as int), cur),
                    records_view(recs@) == recs0 + compact_records(pe.subrange(0, j as int), cur),
                decreases links@.len() - j,
            {
                proof {
                    assert(pe.subrange(0, j + 1).drop_last() =~= pe.subrange(0, j as int));
                    assert(pe.subrange(0, j + 1).last() == pe[j as int]);
                }
                match &links[j] {
                    EdgeLink::Occupied { slot_id, head: edge_mrh } => {
                        if let Some(sid) = edge_mrh.subject_id() {
                            let stash_mrh = self.stash.get_head(sid);
                            if stash_mrh.is_subject() {
                                proof {
                                    lemma_stash_get_local(cur, sid, self.slab.id);
                                }
                                if stash_mrh.descends_or_contains_resident(edge_mrh, &self.slab) {
                                    let ids = stash_mrh.memo_ids();
                                    let ghost before = recs@;
                                    recs.push((sid, ids));
                                    proof {
                                        assert(recs@ == before.push((sid, ids)));
                                        assert(records_view(recs@) =~= records_view(before).push((sid, ids@)));
                                        assert(recs0 + compact_records(pe.subrange(0, j + 1), cur) =~= (recs0 + compact_records(pe.subrange(0, j as int), cur)).push((sid, head_ids(stash_mrh@))));
                                    }
                                    updated.insert(*slot_id, stash_mrh);
                                }
                            }
                        }
                    },
                    EdgeLink::Vacant { .. } => {},
                }
                j += 1;
            }
            assert(pe.subrange(0, pe.len() as int) =~= pe);
            if updated.len() > 0 {
                let sid = match parent.subject_id() {
                    Some(s) => s,
                    None => {
                        assert(false);
                        return recs;
                    },
                };
                let memobody = MemoBody::Edge(updated);
                let r = self.slab.new_memo_basic(Some(sid), parent.clone(), memobody);
                let head = r.to_head();
                proof {
                    assert(lineage_local(r@, self.slab.id));
                    lemma_refs_local(seq![r@], self.slab.id);
                    assert(head_refs(head@) =~= seq![r@]);
                    lemma_stash_get_local(cur, sid, self.slab.id);
                    lemma_stash_apply(cur, head@, self.slab.id);
                    lemma_stash_index(cur, sid);
                    assert(head_subject(cur[i as int]) == Some(sid));
                    lemma_compact_step_subjects(self.slab.id, st, p);
                    assert(st.created.push(r@).drop_last() =~= st.created);
                }
                self.apply_head_resident(&head);
            }
            i += 1;
        }
        recs
    }
}

/// The heads `unreferenced` keeps are heads of `s`, in order: subjects stay single, lineages
/// stay local, and none is added.
proof fn lemma_unreferenced(s: Seq<HeadView>, rv: Seq<(SubjectId, Seq<MemoId>)>, slab_id: SlabId)
    requires
        stash_wf(s),
    ensures
        stash_wf(unreferenced(s, rv)),
        unreferenced(s, rv).len() <= s.len(),
        unreferenced(s, rv).len() == s.len() ==> unreferenced(s, rv) == s,
        stash_local(s, slab_id) ==> stash_local(unreferenced(s, rv), slab_id),
        forall|k: int|
            0 <= k < unreferenced(s, rv).len() ==> exists|j: int|
                0 <= j < s.len() && #[trigger] unreferenced(s, rv)[k] == s[j],
    decreases s.len(),
{
    if s.len() > 0 {
        let d = s.drop_last();
        assert forall|i: int| 0 <= i < d.len() implies d[i] == s[i] by {}
        assert(stash_wf(d));
        lemma_unreferenced(d, rv, slab_id);
        let u = unreferenced(d, rv);
        let t = unreferenced(s, rv);
        if !referenced(rv, s.last()) {
            assert(t == u.push(s.last()));
            assert forall|a: int, b: int|
                0 <= a < t.len() && 0 <= b < t.len() && a != b implies head_subject(#[trigger] t[a])
                    != head_subject(#[trigger] t[b]) by {
                if a < u.len() && b < u.len() {
                    assert(t[a] == u[a] && t[b] == u[b]);
                } else if a < u.len() {
                    let j = choose|j: int| 0 <= j < d.len() && u[a] == d[j];
                    assert(head_subject(s[j]) != head_subject(s[s.len() - 1]));
                } else if b < u.len() {
                    let j = choose|j: int| 0 <= j < d.len() && u[b] == d[j];
                    assert(head_subject(s[j]) != head_subject(s[s.len() - 1]));
                }
            }
            assert forall|k: int| 0 <= k < t.len() implies exists|j: int| 0 <= j < s.len() && #[trigger] t[k] == s[j] by {
                if k < u.len() {
                    let j = choose|j: int| 0 <= j < d.len() && u[k] == d[j];
                    assert(t[k] == s[j]);
                } else {
                    assert(t[k] == s[s.len() - 1]);
                }
            }
            if stash_local(s, slab_id) {
                assert(stash_local(d, slab_id));
                assert forall|k: int| 0 <= k < t.len() implies refs_local(head_refs(#[trigger] t[k]), slab_id) by {
                    if k < u.len() {
                        assert(t[k] == u[k]);
                    } else {
                        assert(t[k] == s[s.len() - 1]);
                    }
                }
            }
            if t.len() == s.len() {
                assert(u == d);
                assert(t =~= s);
            }
        } else {
            assert(t == u);
            assert forall|k: int| 0 <= k < t.len() implies exists|j: int| 0 <= j < s.len() && #[trigger] t[k] == s[j] by {
                let j = choose|j: int| 0 <= j < d.len() && u[k] == d[j];
                assert(t[k] == s[j]);
            }
            if stash_local(s, slab_id) {
                assert(stash_local(d, slab_id));
            }
        }
    }
}

/// Whether `a` and `b` hold the same ids in the same order.
fn same_ids(a: &Vec<MemoId>, b: &Vec<MemoId>) -> (r: bool)
    ensures
        r == (a@ == b@),
{
    if a.len() != b.len() {
        return false;
    }
    let mut i: usize = 0;
    while i < a.len()
        invariant
            i <= a@.len(),
            a@.len() == b@.len(),
            forall|k: int| 0 <= k < i ==> a@[k] == b@[k],
        decreases a@.len() - i,
    {
        if a[i] != b[i] {
            return false;
        }
        i += 1;
    }
    assert(a@ =~= b@);
    true
}

/// Whether one of `recs` holds the head `h`: the same subject, memo for memo.
fn is_referenced(recs: &Vec<(SubjectId, Vec<MemoId>)>, h: &MemoRefHead) -> (r: bool)
    ensures
        r == referenced(records_view(recs@), h@),
{
    let ghost rv = records_view(recs@);
    let sid = h.subject_id();
    let ids = h.memo_ids();
    assert(ids@ =~= head_ids(h@));
    let mut k: usize = 0;
    while k < recs.len()
        invariant
            k <= recs@.len(),
            rv == records_view(recs@),
            rv.len() == recs@.len(),
            sid == head_subject(h@),
            ids@ == head_ids(h@),
            forall|j: int| 0 <= j < k ==> !(Some((#[trigger] rv[j]).0) == head_subject(h@) && rv[j].1 == head_ids(h@)),
        decreases recs@.len() - k,
    {
        let rec = &recs[k];
        assert(rv[k as int] == (rec.0, rec.1@));
        let hit = match sid {
            Some(s) => rec.0 == s && same_ids(&rec.1, &ids),
            None => false,
        };
        if hit {
            assert(Some((rv[k as int]).0) == head_subject(h@) && rv[k as int].1 == head_ids(h@));
            return true;
        }
        k += 1;
    }
    false
}

impl Context {
    /// Removes from the stash every head that one of `recs` holds; returns whether any was.
    fn remove_referenced(&mut self, recs: &Vec<(SubjectId, Vec<MemoId>)>) -> (removed: bool)
        requires
            old(self).wf(),
        ensures
            final(self).stash.view_heads() == unreferenced(old(self).stash.view_heads(), records_view(recs@)),
            removed == (final(self).stash.view_heads().len() < old(self).stash.view_heads().len()),
            final(self).id == old(self).id,
            final(self).slab == old(self).slab,
            final(self).root_index == old(self).root_index,
    {
        let ghost s = self.stash.view_heads();
        let ghost rv = records_view(recs@);
        let mut kept: Vec<MemoRefHead> = Vec::new();
        let n = self.stash.items.len();
        let mut i: usize = 0;
        while i < n
            invariant
                i <= n,
                n == self.stash.items@.len(),
                s == self.stash.view_heads(),
                rv == records_view(recs@),
                heads_view(kept@) == unreferenced(s.subrange(0, i as int), rv),
            decreases n - i,
        {
            proof {
                assert(s.subrange(0, i + 1).drop_last() =~= s.subrange(0, i as int));
                assert(s.subrange(0, i + 1).last() == self.stash.items@[i as int]@);
            }
            if !is_referenced(recs, &self.stash.items[i]) {
                let h = self.stash.items[i].clone();
                let ghost before = kept@;
                kept.push(h);
                assert(heads_view(kept@) =~= heads_view(before).push(h@));
            }
            i += 1;
        }
        assert(s.subrange(0, n as int) =~= s);
        proof {
            lemma_unreferenced(s, rv, self.slab.id);
        }
        let removed = kept.len() < n;
        self.stash.items = kept;
        removed
    }

    /// Compresses the stash: a pass of compaction records, for every head with edges that the
    /// stash holds fresher heads for, a new edge memo pointing to those heads; the heads so
    /// referenced are then removed from the stash, and the passes go on, subject by subject
    /// in topological fashion, as long as some head is removed.
    /// The lineages of the stash must be readable on the slab: `first_gap` names a memo they
    /// lack, and `install_memo` puts that memo in once retrieved.
    pub fn compact_resident(&mut self)
        requires
            old(self).wf(),
            stash_local(old(self).stash.view_heads(), old(self).slab.id),
            old(self).slab.counters.last_memo_id + compact_full(
                old(self).slab.id,
                old(self).stash.view_heads(),
                old(self).slab.counters.last_memo_id,
                Seq::empty(),
            ).2.len() <= u32::MAX,
        ensures
            ({
                let f = compact_full(
                    old(self).slab.id,
                    old(self).stash.view_heads(),
                    old(self).slab.counters.last_memo_id,
                    Seq::empty(),
                );
                &&& final(self).stash.view_heads() == f.0
                &&& final(self).slab.counters == (SlabCounters {
                    last_memo_id: f.1,
                    ..old(self).slab.counters
                })
                &&& table_view(final(self).slab.memorefs_by_id@) == with_refs(
                    table_view(old(self).slab.memorefs_by_id@),
                    f.2,
                )
            }),
            final(self).wf(),
            stash_local(final(self).stash.view_heads(), final(self).slab.id),
            final(self).stash.view_heads().len() <= old(self).stash.view_heads().len(),
            forall|k: int|
                0 <= k < final(self).stash.view_heads().len() ==> exists|j: int|
                    0 <= j < old(self).stash.view_heads().len() && head_subject(
                        #[trigger] final(self).stash.view_heads()[k],
                    ) == head_subject(old(self).stash.view_heads()[j]),
            final(self).id == old(self).id,
            final(self).root_index == old(self).root_index,
            final(self).slab.id == old(self).slab.id,
            final(self).slab.my_ref == old(self).slab.my_ref,
            final(self).slab.memo_wait_channels == old(self).slab.memo_wait_channels,
            final(self).slab.outbox == old(self).slab.outbox,
    {
        let ghost s0 = self.stash.view_heads();
        let ghost c0 = self.slab.counters;
        let ghost refs0 = table_view(self.slab.memorefs_by_id@);
        let ghost target = compact_full(self.slab.id, s0, c0.last_memo_id, Seq::empty());
        let ghost mut created: Seq<RefView> = Seq::empty();
        assert(with_refs(refs0, created) == refs0);
        loop
            invariant_except_break
                compact_full(self.slab.id, self.stash.view_heads(), self.slab.counters.last_memo_id, created)
                    == target,
                self.slab.counters.last_memo_id + target.2.len() <= u32::MAX + created.len(),
            invariant
                self.wf(),
                stash_local(self.stash.view_heads(), self.slab.id),
                self.slab.counters == (SlabCounters { last_memo_id: self.slab.counters.last_memo_id, ..c0 }),
                table_view(self.slab.memorefs_by_id@) == with_refs(refs0, created),
                self.stash.view_heads().len() <= s0.len(),
                forall|k: int|
                    0 <= k < self.stash.view_heads().len() ==> exists|j: int|
                        0 <= j < s0.len() && head_subject(#[trigger] self.stash.view_heads()[k])
                            == head_subject(s0[j]),
                self.id == old(self).id,
                self.root_index == old(self).root_index,
                self.slab.id == old(self).slab.id,
                self.slab.my_ref == old(self).slab.my_ref,
                self.slab.memo_wait_channels == old(self).slab.memo_wait_channels,
                self.slab.outbox == old(self).slab.outbox,
            ensures
                self.stash.view_heads() == target.0,
                self.slab.counters.last_memo_id == target.1,
                created == target.2,
            decreases self.stash.view_heads().len(),
        {
            let ghost s = self.stash.view_heads();
            let ghost last = self.slab.counters.last_memo_id;
            let ghost c = compaction(self.slab.id, s, last);
            proof {
                lemma_compact_full_created(self.slab.id, s, last, created);
            }
            let recs = self.compact_pass();
            let ghost mid = self.stash.view_heads();
            proof {
                lemma_with_refs_concat(refs0, created, c.created);
                created = created + c.created;
                assert forall|k: int| 0 <= k < mid.len() implies exists|j: int|
                    0 <= j < s0.len() && head_subject(#[trigger] mid[k]) == head_subject(s0[j]) by {
                    assert(head_subject(mid[k]) == head_subject(s[k]));
                }
                lemma_unreferenced(mid, c.records, self.slab.id);
            }
            let removed = self.remove_referenced(&recs);
            proof {
                let kept = self.stash.view_heads();
                assert forall|k: int| 0 <= k < kept.len() implies exists|j: int|
                    0 <= j < s0.len() && head_subject(#[trigger] kept[k]) == head_subject(s0[j]) by {
                    let m = choose|m: int| 0 <= m < mid.len() && kept[k] == mid[m];
                    assert(head_subject(mid[m]) == head_subject(kept[k]));
                }
            }
            if !removed {
                break;
            }
        }
    }
}

impl Context {
    /// Creates a materialized memo for subject `subject_id` whose edges hold the subject
    /// heads among `relations` (each in the slot of its position), applies its head to the
    /// stash and returns the subject's resulting head.
    pub fn add_test_subject_resident(&mut self, subject_id: SubjectId, relations: Vec<MemoRefHead>) -> (res: MemoRefHead)
        requires
            old(self).wf(),
            old(self).slab.counters.last_memo_id < u32::MAX,
            refs_local(head_refs(stash_get(old(self).stash.view_heads(), subject_id)), old(self).slab.id),
        ensures
            ({
                let h = head_from_ref(fresh_ref(memo_spec(
                    old(self).slab.next_memo_id(),
                    old(self).slab.id,
                    Some(subject_id),
                    HeadView::Null,
                    BodyView::FullyMaterialized {
                        v: Seq::empty(),
                        r: Seq::empty(),
                        e: test_edges(heads_view(relations@)),
                        t: subject_id.stype,
                    },
                )));
                &&& final(self).stash.view_heads() == stash_apply(old(self).stash.view_heads(), h)
                &&& res@ == stash_get(final(self).stash.view_heads(), subject_id)
                &&& table_view(final(self).slab.memorefs_by_id@) == table_view(old(self).slab.memorefs_by_id@).insert(
                        head_refs(h)[0].id,
                        head_refs(h)[0],
                    )
            }),
            final(self).slab.counters == (SlabCounters {
                last_memo_id: (old(self).slab.counters.last_memo_id + 1) as u32,
                ..old(self).slab.counters
            }),
            final(self).wf(),
            final(self).id == old(self).id,
            final(self).root_index == old(self).root_index,
            final(self).slab.id == old(self).slab.id,
            final(self).slab.my_ref == old(self).slab.my_ref,
            final(self).slab.memo_wait_channels == old(self).slab.memo_wait_channels,
            final(self).slab.outbox == old(self).slab.outbox,
    {
        let ghost rels = heads_view(relations@);
        let mut edgeset = EdgeSet::empty();
        let mut i: usize = 0;
        while i < relations.len()
            invariant
                i <= relations@.len(),
                rels == heads_view(relations@),
                edges_view(edgeset.edges@) == test_edges(rels.subrange(0, i as int)),
            decreases relations@.len() - i,
        {
            proof {
                assert(rels.subrange(0, i + 1).drop_last() =~= rels.subrange(0, i as int));
                assert(rels.subrange(0, i + 1).last() == relations@[i as int]@);
            }
            if relations[i].is_subject() {
                edgeset.insert((i % 256) as u8, relations[i].clone());
            }
            i += 1;
        }
        assert(rels.subrange(0, relations@.len() as int) =~= rels);
        let memobody = MemoBody::FullyMaterialized {
            v: Vec::new(),
            r: RelationSet::empty(),
            e: edgeset,
            t: subject_id.stype,
        };
        let r = self.slab.new_memo_basic_noparent(Some(subject_id), memobody);
        let head = r.to_head();
        proof {
            assert(lineage_local(r@, self.slab.id));
            lemma_refs_local(seq![r@], self.slab.id);
            assert(head_refs(head@) =~= seq![r@]);
        }
        self.apply_head_resident(&head)
    }

    /// Hands every subject head of this context to `other` (a context on another slab of
    /// the same process), after compacting this context's stash: `other` learns each memo
    /// as remote, with this slab as its peer.  A head of a subject `other` does not hold yet
    /// is applied at once; a head of a subject it holds can only be applied once the sent
    /// memos are retrieved from this slab (applying walks their lineage), so it is returned
    /// for that.  Returns how many memo references were sent, and the heads left to apply.
    pub fn hack_send_context_resident(&mut self, other: &mut Self) -> (res: (usize, Vec<MemoRefHead>))
        requires
            old(self).wf(),
            stash_local(old(self).stash.view_heads(), old(self).slab.id),
            old(self).slab.counters.last_memo_id + compact_full(
                old(self).slab.id,
                old(self).stash.view_heads(),
                old(self).slab.counters.last_memo_id,
                Seq::empty(),
            ).2.len() <= u32::MAX,
            old(other).wf(),
            total_len(
                compact_full(
                    old(self).slab.id,
                    old(self).stash.view_heads(),
                    old(self).slab.counters.last_memo_id,
                    Seq::empty(),
                ).0,
            ) <= usize::MAX,
        ensures
            ({
                let f = compact_full(
                    old(self).slab.id,
                    old(self).stash.view_heads(),
                    old(self).slab.counters.last_memo_id,
                    Seq::empty(),
                );
                let from = SlabRefView { owning_slab_id: old(other).slab.id, ..old(self).slab.my_ref@ };
                let sent = f.0.map_values(|h: HeadView| head_for_slab(h, from, old(other).slab.id, false));
                &&& final(self).stash.view_heads() == f.0
                &&& final(self).slab.counters == (SlabCounters {
                    last_memo_id: f.1,
                    ..old(self).slab.counters
                })
                &&& table_view(final(self).slab.memorefs_by_id@) == with_refs(
                    table_view(old(self).slab.memorefs_by_id@),
                    f.2,
                )
                &&& res.0 == total_len(f.0)
                &&& final(other).stash.view_heads() == send_heads(old(other).stash.view_heads(), sent).0
                &&& heads_view(res.1@) == send_heads(old(other).stash.view_heads(), sent).1
            }),
            final(self).wf(),
            final(other).wf(),
            final(self).id == old(self).id,
            final(self).root_index == old(self).root_index,
            final(self).slab.id == old(self).slab.id,
            final(self).slab.my_ref == old(self).slab.my_ref,
            final(self).slab.memo_wait_channels == old(self).slab.memo_wait_channels,
            final(self).slab.outbox == old(self).slab.outbox,
            final(other).id == old(other).id,
            final(other).slab == old(other).slab,
            final(other).root_index == old(other).root_index,
    {
        self.compact_resident();
        let ghost c = self.stash.view_heads();
        let ghost o0 = other.stash.view_heads();
        let from_slabref = self.slab.my_ref.clone_for_slab(&other.slab);
        let ghost from = from_slabref@;
        let ghost mapped = c.map_values(|h: HeadView| head_for_slab(h, from, other.slab.id, false));
        let heads = self.stash.iter();
        let mut pending: Vec<MemoRefHead> = Vec::new();
        let mut memoref_count: usize = 0;
        let mut i: usize = 0;
        while i < heads.len()
            invariant
                i <= heads@.len(),
                heads_view(heads@) == c,
                c.len() == heads@.len(),
                stash_wf(c),
                total_len(c) <= usize::MAX,
                memoref_count == total_len(c.subrange(0, i as int)),
                from == from_slabref@,
                mapped == c.map_values(|h: HeadView| head_for_slab(h, from, other.slab.id, false)),
                other.stash.view_heads() == send_heads(o0, mapped.subrange(0, i as int)).0,
                heads_view(pending@) == send_heads(o0, mapped.subrange(0, i as int)).1,
                other.wf(),
                other.id == old(other).id,
                other.slab == old(other).slab,
                other.root_index == old(other).root_index,
            decreases heads@.len() - i,
        {
            let head = &heads[i];
            let ghost h = c[i as int];
            assert(head@ == h);
            proof {
                lemma_total_len_prefix(c, i + 1, c.len() as int);
                assert(c.subrange(0, c.len() as int) =~= c);
                assert(c.subrange(0, i + 1).drop_last() =~= c.subrange(0, i as int));
                assert(mapped.subrange(0, i + 1).drop_last() =~= mapped.subrange(0, i as int));
                assert(mapped.subrange(0, i + 1).last() == mapped[i as int]);
            }
            memoref_count = memoref_count + head.len();
            let cloned = head.clone_for_slab(&from_slabref, &other.slab, false);
            let ghost cur = other.stash.view_heads();
            assert(h is Subject);
            assert(cloned@ == mapped[i as int]);
            assert(cloned@ is Subject);
            let sid = match cloned.subject_id() {
                Some(s) => s,
                None => {
                    assert(false);
                    return (memoref_count, pending);
                },
            };
            let held = other.stash.get_head(sid);
            proof {
                lemma_stash_index(cur, sid);
            }
            if held.is_subject() {
                let ghost before = pending@;
                pending.push(cloned);
                proof {
                    assert(stash_index(cur, sid) >= 0);
                    assert(heads_view(pending@) =~= heads_view(before).push(cloned@));
                }
            } else {
                proof {
                    if stash_index(cur, sid) >= 0 {
                        assert(cur[stash_index(cur, sid)] is Subject);
                    }
                    lemma_stash_apply(cur, cloned@, other.slab.id);
                    assert(stash_apply(cur, cloned@) == cur.push(cloned@));
                }
                other.apply_head_resident(&cloned);
            }
            i += 1;
        }
        assert(mapped.subrange(0, c.len() as int) =~= mapped);
        assert(c.subrange(0, c.len() as int) =~= c);
        (memoref_count, pending)
    }
}

/// Heads `hs` handed in turn to a stash `o`: a head of a subject `o` does not hold yet is
/// added; the others are set aside.  Gives the resulting stash and the heads set aside.
pub open spec fn send_heads(o: Seq<HeadView>, hs: Seq<HeadView>) -> (Seq<HeadView>, Seq<HeadView>)
    decreases hs.len(),
{
    if hs.len() == 0 {
        (o, Seq::empty())
    } else {
        let prev = send_heads(o, hs.drop_last());
        let h = hs.last();
        if stash_index(prev.0, head_subject(h)->Some_0) < 0 {
            (prev.0.push(h), prev.1)
        } else {
            (prev.0, prev.1.push(h))
        }
    }
}

/// The first gap, walking the lineages of the heads `s` in order, on slab `slab_id`.
pub open spec fn heads_gap(s: Seq<HeadView>, slab_id: SlabId) -> Option<RefView>
    decreases s.len(),
{
    if s.len() == 0 {
        None
    } else {
        match heads_gap(s.drop_last(), slab_id) {
            Some(g) => Some(g),
            None => refs_gap(head_refs(s.last()), slab_id),
        }
    }
}

proof fn lemma_heads_gap(s: Seq<HeadView>, slab_id: SlabId)
    ensures
        (heads_gap(s, slab_id) is None) == stash_local(s, slab_id),
    decreases s.len(),
{
    if s.len() > 0 {
        lemma_heads_gap(s.drop_last(), slab_id);
        lemma_refs_gap(head_refs(s.last()), slab_id);
        assert forall|i: int| 0 <= i < s.len() - 1 implies s.drop_last()[i] == s[i] by {}
    }
}

proof fn lemma_heads_gap_prefix(s: Seq<HeadView>, slab_id: SlabId, i: int)
    requires
        0 <= i <= s.len(),
        heads_gap(s.subrange(0, i), slab_id) is Some,
    ensures
        heads_gap(s, slab_id) == heads_gap(s.subrange(0, i), slab_id),
    decreases s.len() - i,
{
    if i < s.len() {
        assert(s.subrange(0, i + 1).drop_last() =~= s.subrange(0, i));
        lemma_heads_gap_prefix(s, slab_id, i + 1);
    } else {
        assert(s.subrange(0, i) =~= s);
    }
}

impl Context {
    /// The first memo reference, walking the lineages of the stash's heads in order, that
    /// cannot be read on this context's slab: `None` exactly when compaction, applying heads
    /// and the other lineage walks can run without asking a peer.
    pub fn first_gap(&self) -> (g: Option<MemoRef>)
        ensures
            g is None <==> stash_local(self.stash.view_heads(), self.slab.id),
            g is Some ==> heads_gap(self.stash.view_heads(), self.slab.id) == Some(g->Some_0@),
    {
        let ghost s = self.stash.view_heads();
        proof {
            lemma_heads_gap(s, self.slab.id);
        }
        let mut i: usize = 0;
        while i < self.stash.items.len()
            invariant
                i <= self.stash.items@.len(),
                s == self.stash.view_heads(),
                heads_gap(s.subrange(0, i as int), self.slab.id) is None,
            decreases self.stash.items@.len() - i,
        {
            proof {
                assert(s.subrange(0, i + 1).drop_last() =~= s.subrange(0, i as int));
                assert(s.subrange(0, i + 1).last() == self.stash.items@[i as int]@);
            }
            let g = self.stash.items[i].first_gap(self.slab.id);
            if g.is_some() {
                proof {
                    lemma_refs_gap(head_refs(self.stash.items@[i as int]@), self.slab.id);
                    lemma_heads_gap_prefix(s, self.slab.id, i + 1);
                }
                return g;
            }
            proof {
                lemma_refs_gap(head_refs(self.stash.items@[i as int]@), self.slab.id);
            }
            i += 1;
        }
        assert(s.subrange(0, s.len() as int) =~= s);
        None
    }

    /// Puts the memo `memo`, retrieved from the slab `from` points to, wherever the lineages
    /// of the stash's heads refer to it without holding it.
    pub fn install_memo(&mut self, memo: &Memo, from: &SlabRef)
        requires
            old(self).wf(),
        ensures
            final(self).stash.view_heads() == old(self).stash.view_heads().map_values(
                |h: HeadView| install_head(h, received_memo(memo@, from@, old(self).slab.id)),
            ),
            final(self).wf(),
            final(self).id == old(self).id,
            final(self).slab == old(self).slab,
            final(self).root_index == old(self).root_index,
    {
        let ghost s = self.stash.view_heads();
        let ghost m = received_memo(memo@, from@, self.slab.id);
        let ghost t = s.map_values(|h: HeadView| install_head(h, m));
        let mut items: Vec<MemoRefHead> = Vec::new();
        let mut i: usize = 0;
        while i < self.stash.items.len()
            invariant
                i <= self.stash.items@.len(),
                s == self.stash.view_heads(),
                m == received_memo(memo@, from@, self.slab.id),
                t == s.map_values(|h: HeadView| install_head(h, m)),
                heads_view(items@) == t.subrange(0, i as int),
            decreases self.stash.items@.len() - i,
        {
            let mut h = self.stash.items[i].clone();
            h.install(memo, from, &self.slab);
            let ghost before = items@;
            items.push(h);
            assert(heads_view(items@) =~= t.subrange(0, i + 1)) by {
                assert(heads_view(items@) =~= heads_view(before).push(h@));
                assert(s[i as int] == self.stash.items@[i as int]@);
            }
            i += 1;
        }
        assert(t.subrange(0, t.len() as int) =~= t);
        self.stash.items = items;
        assert forall|k: int| 0 <= k < t.len() implies head_subject(#[trigger] t[k]) == head_subject(s[k]) && t[k] is Subject by {
            assert(s[k] is Subject);
        }
        assert forall|a: int, b: int|
            0 <= a < t.len() && 0 <= b < t.len() && a != b implies head_subject(#[trigger] t[a])
                != head_subject(#[trigger] t[b]) by {
            assert(head_subject(t[a]) == head_subject(s[a]));
            assert(head_subject(t[b]) == head_subject(s[b]));
        }
    }
}

impl Context {
    /// Applies the subject head `head` to the stash and returns the subject's resulting head
    /// (see `apply_head_resident`).  When the subject is held and a memo of the held head's
    /// lineage or of `head`'s cannot be read on the slab, nothing changes and that memo's
    /// reference is returned, for the caller to retrieve and install.
    pub fn apply_head(&mut self, head: &MemoRefHead) -> (res: Result<MemoRefHead, MemoRef>)
        requires
            old(self).wf(),
            head@ is Subject,
        ensures
            match head_apply_gap(old(self).stash.view_heads(), head@, old(self).slab.id) {
                Some(g) => res is Err && res->Err_0@ == g && *final(self) == *old(self),
                None => res is Ok
                    && final(self).stash.view_heads() == stash_apply(old(self).stash.view_heads(), head@)
                    && res->Ok_0@ == stash_get(final(self).stash.view_heads(), head_subject(head@)->Some_0),
            },
            final(self).wf(),
            final(self).id == old(self).id,
            final(self).slab == old(self).slab,
            final(self).root_index == old(self).root_index,
    {
        let sid = head.subject_id().unwrap();
        let held = self.stash.get_head(sid);
        proof {
            lemma_stash_index(self.stash.view_heads(), sid);
            lemma_refs_gap(head_refs(held@), self.slab.id);
            lemma_refs_gap(head_refs(head@), self.slab.id);
        }
        if held.is_subject() {
            if let Some(g) = held.first_gap(self.slab.id) {
                return Err(g);
            }
            if let Some(g) = head.first_gap(self.slab.id) {
                return Err(g);
            }
        } else {
            proof {
                if stash_index(self.stash.view_heads(), sid) >= 0 {
                    assert(self.stash.view_heads()[stash_index(self.stash.view_heads(), sid)] is Subject);
                }
            }
        }
        Ok(self.apply_head_resident(head))
    }

    /// Compresses the stash (see `compact_resident`).  When a memo of the stash's lineages
    /// cannot be read on the slab, nothing changes and that memo's reference is returned, for
    /// the caller to retrieve and install before compacting again.
    pub fn compact(&mut self) -> (res: Result<(), MemoRef>)
        requires
            old(self).wf(),
            old(self).slab.counters.last_memo_id + compact_full(
                old(self).slab.id,
                old(self).stash.view_heads(),
                old(self).slab.counters.last_memo_id,
                Seq::empty(),
            ).2.len() <= u32::MAX,
        ensures
            match heads_gap(old(self).stash.view_heads(), old(self).slab.id) {
                Some(g) => res is Err && res->Err_0@ == g && *final(self) == *old(self),
                None => {
                    let f = compact_full(
                        old(self).slab.id,
                        old(self).stash.view_heads(),
                        old(self).slab.counters.last_memo_id,
                        Seq::empty(),
                    );
                    &&& res is Ok
                    &&& final(self).stash.view_heads() == f.0
                    &&& final(self).slab.counters == (SlabCounters {
                        last_memo_id: f.1,
                        ..old(self).slab.counters
                    })
                    &&& table_view(final(self).slab.memorefs_by_id@) == with_refs(
                    table_view(old(self).slab.memorefs_by_id@),
                    f.2,
                )
                    &&& stash_local(final(self).stash.view_heads(), final(self).slab.id)
                },
            },
            final(self).wf(),
            final(self).stash.view_heads().len() <= old(self).stash.view_heads().len(),
            forall|k: int|
                0 <= k < final(self).stash.view_heads().len() ==> exists|j: int|
                    0 <= j < old(self).stash.view_heads().len() && head_subject(
                        #[trigger] final(self).stash.view_heads()[k],
                    ) == head_subject(old(self).stash.view_heads()[j]),
            final(self).id == old(self).id,
            final(self).root_index == old(self).root_index,
            final(self).slab.id == old(self).slab.id,
            final(self).slab.my_ref == old(self).slab.my_ref,
            final(self).slab.memo_wait_channels == old(self).slab.memo_wait_channels,
            final(self).slab.outbox == old(self).slab.outbox,
    {
        proof {
            lemma_heads_gap(self.stash.view_heads(), self.slab.id);
        }
        match self.first_gap() {
            Some(g) => {
                proof {
                    let s = self.stash.view_heads();
                    assert forall|k: int| 0 <= k < s.len() implies exists|j: int|
                        0 <= j < s.len() && head_subject(#[trigger] s[k]) == head_subject(s[j]) by {
                        assert(head_subject(s[k]) == head_subject(s[k]));
                    }
                }
                Err(g)
            },
            None => {
                self.compact_resident();
                Ok(())
            },
        }
    }

    /// Creates a materialized memo for subject `subject_id` whose edges hold the subject
    /// heads among `relations` and applies its head to the stash (see
    /// `add_test_subject_resident`).  When a memo of the subject's held head cannot be read
    /// on the slab, nothing changes and that memo's reference is returned.
    pub fn add_test_subject(&mut self, subject_id: SubjectId, relations: Vec<MemoRefHead>) -> (res: Result<MemoRefHead, MemoRef>)
        requires
            old(self).wf(),
            old(self).slab.counters.last_memo_id < u32::MAX,
        ensures
            match refs_gap(head_refs(stash_get(old(self).stash.view_heads(), subject_id)), old(self).slab.id) {
                Some(g) => res is Err && res->Err_0@ == g && *final(self) == *old(self),
                None => {
                    let h = head_from_ref(fresh_ref(memo_spec(
                        old(self).slab.next_memo_id(),
                        old(self).slab.id,
                        Some(subject_id),
                        HeadView::Null,
                        BodyView::FullyMaterialized {
                            v: Seq::empty(),
                            r: Seq::empty(),
                            e: test_edges(heads_view(relations@)),
                            t: subject_id.stype,
                        },
                    )));
                    &&& res is Ok
                    &&& final(self).stash.view_heads() == stash_apply(old(self).stash.view_heads(), h)
                    &&& res->Ok_0@ == stash_get(final(self).stash.view_heads(), subject_id)
                    &&& table_view(final(self).slab.memorefs_by_id@) == table_view(old(self).slab.memorefs_by_id@).insert(
                        head_refs(h)[0].id,
                        head_refs(h)[0],
                    )
                    &&& final(self).slab.counters == (SlabCounters {
                        last_memo_id: (old(self).slab.counters.last_memo_id + 1) as u32,
                        ..old(self).slab.counters
                    })
                },
            },
            final(self).wf(),
            final(self).id == old(self).id,
            final(self).root_index == old(self).root_index,
            final(self).slab.id == old(self).slab.id,
            final(self).slab.my_ref == old(self).slab.my_ref,
            final(self).slab.memo_wait_channels == old(self).slab.memo_wait_channels,
            final(self).slab.outbox == old(self).slab.outbox,
    {
        let held = self.stash.get_head(subject_id);
        proof {
            lemma_refs_gap(head_refs(held@), self.slab.id);
        }
        match held.first_gap(self.slab.id) {
            Some(g) => Err(g),
            None => Ok(self.add_test_subject_resident(subject_id, relations)),
        }
    }

    /// Compacts this context and hands its subject heads to `other` (see
    /// `hack_send_context_resident`).  When a memo of the stash's lineages cannot be read on
    /// the slab, nothing changes and that memo's reference is returned.
    pub fn hack_send_context(&mut self, other: &mut Self) -> (res: Result<(usize, Vec<MemoRefHead>), MemoRef>)
        requires
            old(self).wf(),
            old(self).slab.counters.last_memo_id + compact_full(
                old(self).slab.id,
                old(self).stash.view_heads(),
                old(self).slab.counters.last_memo_id,
                Seq::empty(),
            ).2.len() <= u32::MAX,
            old(other).wf(),
            total_len(
                compact_full(
                    old(self).slab.id,
                    old(self).stash.view_heads(),
                    old(self).slab.counters.last_memo_id,
                    Seq::empty(),
                ).0,
            ) <= usize::MAX,
        ensures
            match heads_gap(old(self).stash.view_heads(), old(self).slab.id) {
                Some(g) => res is Err && res->Err_0@ == g && *final(self) == *old(self)
                    && *final(other) == *old(other),
                None => {
                    let f = compact_full(
                        old(self).slab.id,
                        old(self).stash.view_heads(),
                        old(self).slab.counters.last_memo_id,
                        Seq::empty(),
                    );
                    let from = SlabRefView { owning_slab_id: old(other).slab.id, ..old(self).slab.my_ref@ };
                    let sent = f.0.map_values(|h: HeadView| head_for_slab(h, from, old(other).slab.id, false));
                    &&& res is Ok
                    &&& final(self).stash.view_heads() == f.0
                    &&& final(self).slab.counters == (SlabCounters {
                        last_memo_id: f.1,
                        ..old(self).slab.counters
                    })
                    &&& table_view(final(self).slab.memorefs_by_id@) == with_refs(
                    table_view(old(self).slab.memorefs_by_id@),
                    f.2,
                )
                    &&& res->Ok_0.0 == total_len(f.0)
                    &&& final(other).stash.view_heads() == send_heads(old(other).stash.view_heads(), sent).0
                    &&& heads_view(res->Ok_0.1@) == send_heads(old(other).stash.view_heads(), sent).1
                },
            },
            final(self).wf(),
            final(other).wf(),
            final(self).id == old(self).id,
            final(self).root_index == old(self).root_index,
            final(self).slab.id == old(self).slab.id,
            final(self).slab.my_ref == old(self).slab.my_ref,
            final(self).slab.memo_wait_channels == old(self).slab.memo_wait_channels,
            final(self).slab.outbox == old(self).slab.outbox,
            final(other).id == old(other).id,
            final(other).slab == old(other).slab,
            final(other).root_index == old(other).root_index,
    {
        proof {
            lemma_heads_gap(self.stash.view_heads(), self.slab.id);
        }
        match self.first_gap() {
            Some(g) => Err(g),
            None => Ok(self.hack_send_context_resident(other)),
        }
    }
}

/// The first reference that applying the subject head `h` to the stash `s` would need to
/// read and cannot on slab `slab_id`: when the subject is held, in the held head's lineages,
/// then in `h`'s.
pub open spec fn head_apply_gap(s: Seq<HeadView>, h: HeadView, slab_id: SlabId) -> Option<RefView> {
    let sid = head_subject(h)->Some_0;
    if stash_index(s, sid) < 0 {
        None
    } else {
        match refs_gap(head_refs(stash_get(s, sid)), slab_id) {
            Some(g) => Some(g),
            None => refs_gap(head_refs(h), slab_id),
        }
    }
}

impl Slab {
    /// Creates a context working on this slab; its id is the next of `net`, so it differs
    /// from the id of every context created before on `net` (not from those of other
    /// networks).
    pub fn create_context(self, net: &mut Network) -> (ctx: Context)
        requires
            old(net).next_context_id < u64::MAX,
        ensures
            ctx.id == old(net).next_context_id,
            final(net).next_context_id == old(net).next_context_id + 1,
            final(net).next_slab_id == old(net).next_slab_id,
            final(net).slabs == old(net).slabs,
            final(net).root_index_seed == old(net).root_index_seed,
            final(net).create_new_system_environment == old(net).create_new_system_environment,
            ctx.slab == self,
            ctx.stash.view_heads() == Seq::<HeadView>::empty(),
            ctx.wf(),
            ctx.root_index is None <==> context_seed(&*old(net), self.id) is Null,
            ctx.root_index is Some ==> ctx.root_index->Some_0.seed@ == context_seed(&*old(net), self.id)
                && ctx.root_index->Some_0.entries@.len() == 0,
    {
        Context::new(self, net)
    }

    /// Stops notifying `context` about subject `subject_id`.  Subscriptions are not kept,
    /// so there is nothing to remove.
    pub fn unsubscribe_subject(&self, subject_id: u64, context: &Context) {
    }
}

} // verus!
