//! A slab: the store of memos of one node, with the counters that number its memos and
//! subjects, and the transport queue through which it reaches its peers.
use vstd::prelude::*;
use std::collections::HashMap;
use crate::types::{
    compose_id, spec_compose_id, MemoId, SlabId, SubjectId, SubjectType, };
use crate::slabref::{SlabRef, Transmission, TransmissionView};
use crate::memo::{Memo, MemoBody, MemoRef, MemoRefHead, MemoView, RefView};

verus! {

#[derive(Clone, Copy, PartialEq, Eq, Structural, Debug)]
pub struct SlabCounters {
    pub last_memo_id: u32,
    pub last_subject_id: u32,
    pub memos_received: u64,
    pub memos_redundantly_received: u64,
}

/// A slab: its id, its handle on itself, its counters, its memo table (one reference per
/// memo id), how many waiters each awaited memo has, and the transmissions queued for peers.
#[derive(Debug)]
pub struct Slab {
    pub id: SlabId,
    pub my_ref: SlabRef,
    pub counters: SlabCounters,
    pub memorefs_by_id: HashMap<MemoId, MemoRef>,
    pub memo_wait_channels: HashMap<MemoId, usize>,
    pub outbox: Vec<Transmission>,
}

pub open spec fn transmissions_view(s: Seq<Transmission>) -> Seq<TransmissionView> {
    s.map_values(|t: Transmission| t@)
}

/// The slab's memo table as values: each memo id with the reference held for it.
pub open spec fn table_view(m: Map<MemoId, MemoRef>) -> Map<MemoId, RefView> {
    Map::new(|k: MemoId| m.contains_key(k), |k: MemoId| m[k]@)
}

/// The table `t` with the references `rs` recorded in turn, each under its memo id.
pub open spec fn with_refs(t: Map<MemoId, RefView>, rs: Seq<RefView>) -> Map<MemoId, RefView>
    decreases rs.len(),
{
    if rs.len() == 0 {
        t
    } else {
        with_refs(t, rs.drop_last()).insert(rs.last().id, rs.last())
    }
}

pub proof fn lemma_with_refs_concat(t: Map<MemoId, RefView>, a: Seq<RefView>, b: Seq<RefView>)
    ensures
        with_refs(t, a + b) == with_refs(with_refs(t, a), b),
    decreases b.len(),
{
    if b.len() == 0 {
        assert(a + b =~= a);
    } else {
        lemma_with_refs_concat(t, a, b.drop_last());
        assert((a + b).drop_last() =~= a + b.drop_last());
    }
}

/// The waiter counts after one more waiter registered for `memo_id`.
pub open spec fn add_waiter(w: Map<MemoId, usize>, memo_id: MemoId) -> Map<MemoId, usize> {
    w.insert(
        memo_id,
        if w.contains_key(memo_id) {
            (w[memo_id] + 1) as usize
        } else {
            1
        },
    )
}

/// The memo with the given parts, owned by slab `slab_id`.
pub open spec fn memo_spec(
    id: MemoId,
    slab_id: SlabId,
    subject_id: Option<SubjectId>,
    parents: crate::memo::HeadView,
    body: crate::memo::BodyView,
) -> MemoView {
    MemoView { id, owning_slab_id: slab_id, subject_id, parents, body }
}

/// A fresh resident reference to `m`, without peers.
pub open spec fn fresh_ref(m: MemoView) -> RefView {
    RefView {
        id: m.id,
        owning_slab_id: m.owning_slab_id,
        subject_id: m.subject_id,
        peers: Seq::empty(),
        memo: Some(m),
    }
}

/// One transmission of `m` from `from` to each of the first `n` peers of `ps`, in order.
pub open spec fn sends(ps: Seq<crate::memo::PeerView>, n: nat, from: crate::slabref::SlabRefView, m: MemoView) -> Seq<TransmissionView> {
    Seq::new(n, |i: int| TransmissionView { to_slab_id: ps[i].slabref.to_slab_id, from, memo: m })
}

/// `post` is `pre` after numbering one new memo and queueing the transmissions `ts` (the
/// memo table aside).
pub open spec fn slab_sent(pre: Slab, post: Slab, ts: Seq<TransmissionView>) -> bool {
    &&& post.id == pre.id
    &&& post.my_ref == pre.my_ref
    &&& post.memo_wait_channels == pre.memo_wait_channels
    &&& post.counters == (SlabCounters {
        last_memo_id: (pre.counters.last_memo_id + 1) as u32,
        ..pre.counters
    })
    &&& transmissions_view(post.outbox@) == transmissions_view(pre.outbox@) + ts
}

/// Queues `memo`, sent from `from`, to each of the first `n` peers of `peers`.
pub fn send_to_peers(
    peers: &Vec<crate::memo::MemoPeer>,
    n: usize,
    from: &SlabRef,
    memo: &Memo,
    outbox: &mut Vec<Transmission>,
)
    requires
        n <= peers@.len(),
    ensures
        transmissions_view(final(outbox)@) == transmissions_view(old(outbox)@) + sends(
            crate::memo::peers_view(peers@),
            n as nat,
            from@,
            memo@,
        ),
{
    let ghost ps = crate::memo::peers_view(peers@);
    let mut i: usize = 0;
    while i < n
        invariant
            i <= n,
            n <= peers@.len(),
            ps == crate::memo::peers_view(peers@),
            transmissions_view(outbox@) == transmissions_view(old(outbox)@) + sends(ps, i as nat, from@, memo@),
        decreases n - i,
    {
        let ghost before = outbox@;
        peers[i].slabref.send_memo(from, memo.clone(), outbox);
        proof {
            assert(outbox@ =~= before.push(outbox@.last()));
            assert(transmissions_view(before.push(outbox@.last())) =~= transmissions_view(before).push(outbox@.last()@));
            assert(ps[i as int] == peers@[i as int]@);
            assert(transmissions_view(outbox@) =~= transmissions_view(old(outbox)@) + sends(ps, (i + 1) as nat, from@, memo@));
        }
        i += 1;
    }
}

impl Slab {
    /// The identifier the next memo of this slab receives.
    pub open spec fn next_memo_id(&self) -> MemoId {
        spec_compose_id(self.id, (self.counters.last_memo_id + 1) as u32)
    }

    /// Numbers a new memo of this slab.
    pub fn gen_memo_id(&mut self) -> (id: MemoId)
        requires
            old(self).counters.last_memo_id < u32::MAX,
        ensures
            id == old(self).next_memo_id(),
            final(self).counters == (SlabCounters {
                last_memo_id: (old(self).counters.last_memo_id + 1) as u32,
                ..old(self).counters
            }),
            final(self).id == old(self).id,
            final(self).my_ref == old(self).my_ref,
            final(self).memorefs_by_id == old(self).memorefs_by_id,
            final(self).memo_wait_channels == old(self).memo_wait_channels,
            final(self).outbox == old(self).outbox,
    {
        self.counters.last_memo_id = self.counters.last_memo_id + 1;
        compose_id(self.id, self.counters.last_memo_id)
    }

    /// Creates the identifier of a new subject of type `stype`: the slab id in the high
    /// half, the slab's subject counter (after one increment) in the low half.
    pub fn generate_subject_id(&mut self, stype: SubjectType) -> (sid: SubjectId)
        requires
            old(self).counters.last_subject_id < u32::MAX,
        ensures
            sid == (SubjectId {
                id: spec_compose_id(old(self).id, (old(self).counters.last_subject_id + 1) as u32),
                stype,
            }),
            final(self).counters == (SlabCounters {
                last_subject_id: (old(self).counters.last_subject_id + 1) as u32,
                ..old(self).counters
            }),
            final(self).id == old(self).id,
            final(self).my_ref == old(self).my_ref,
            final(self).memorefs_by_id == old(self).memorefs_by_id,
            final(self).memo_wait_channels == old(self).memo_wait_channels,
            final(self).outbox == old(self).outbox,
    {
        self.counters.last_subject_id = self.counters.last_subject_id + 1;
        let id = compose_id(self.id, self.counters.last_subject_id);
        SubjectId { id, stype }
    }

    /// This slab's handle on itself.
    pub fn get_ref(&self) -> (r: SlabRef)
        ensures
            r@ == self.my_ref@,
    {
        self.my_ref.clone()
    }

    /// Registers one more waiter for `memo_id` and returns how many wait for it now.
    pub fn memo_wait_channel(&mut self, memo_id: MemoId) -> (n: usize)
        requires
            old(self).memo_wait_channels@.contains_key(memo_id) ==> old(self).memo_wait_channels@[memo_id]
                < usize::MAX,
        ensures
            final(self).memo_wait_channels@ == add_waiter(old(self).memo_wait_channels@, memo_id),
            n == final(self).memo_wait_channels@[memo_id],
            final(self).id == old(self).id,
            final(self).my_ref == old(self).my_ref,
            final(self).counters == old(self).counters,
            final(self).memorefs_by_id == old(self).memorefs_by_id,
            final(self).outbox == old(self).outbox,
    {
        broadcast use vstd::std_specs::hash::group_hash_axioms;

        let n: usize = match self.memo_wait_channels.get(&memo_id) {
            Some(c) => *c + 1,
            None => 1,
        };
        self.memo_wait_channels.insert(memo_id, n);
        n
    }

    /// Records a new memo of this slab and returns a resident reference to it.
    pub fn new_memo(&mut self, subject_id: Option<SubjectId>, parents: MemoRefHead, body: MemoBody) -> (r: MemoRef)
        requires
            old(self).counters.last_memo_id < u32::MAX,
        ensures
            r@ == fresh_ref(memo_spec(old(self).next_memo_id(), old(self).id, subject_id, parents@, body@)),
            r.shared.id == r.id,
            table_view(final(self).memorefs_by_id@) == table_view(old(self).memorefs_by_id@).insert(r.id, r@),
            final(self).counters == (SlabCounters {
                last_memo_id: (old(self).counters.last_memo_id + 1) as u32,
                ..old(self).counters
            }),
            final(self).id == old(self).id,
            final(self).my_ref == old(self).my_ref,
            final(self).memo_wait_channels == old(self).memo_wait_channels,
            final(self).outbox == old(self).outbox,
    {
        let memo_id = self.gen_memo_id();
        let memo = Memo::new_basic(memo_id, subject_id, parents, body, self);
        let memoref = MemoRef::from_memo(self, &memo);
        let stored = memoref.clone();
        let ghost before = self.memorefs_by_id@;
        self.memorefs_by_id.insert(memo_id, stored);
        proof {
            broadcast use vstd::std_specs::hash::group_hash_axioms;
            assert(self.memorefs_by_id@ == before.insert(memo_id, stored));
            assert(table_view(self.memorefs_by_id@) =~= table_view(before).insert(memoref.id, memoref@));
        }
        memoref
    }

    /// Same as `new_memo`.
    pub fn new_memo_basic(&mut self, subject_id: Option<SubjectId>, parents: MemoRefHead, body: MemoBody) -> (r: MemoRef)
        requires
            old(self).counters.last_memo_id < u32::MAX,
        ensures
            r@ == fresh_ref(memo_spec(old(self).next_memo_id(), old(self).id, subject_id, parents@, body@)),
            r.shared.id == r.id,
            table_view(final(self).memorefs_by_id@) == table_view(old(self).memorefs_by_id@).insert(r.id, r@),
            final(self).counters == (SlabCounters {
                last_memo_id: (old(self).counters.last_memo_id + 1) as u32,
                ..old(self).counters
            }),
            final(self).id == old(self).id,
            final(self).my_ref == old(self).my_ref,
            final(self).memo_wait_channels == old(self).memo_wait_channels,
            final(self).outbox == old(self).outbox,
    {
        self.new_memo(subject_id, parents, body)
    }

    /// A new memo without parents.
    pub fn new_memo_basic_noparent(&mut self, subject_id: Option<SubjectId>, body: MemoBody) -> (r: MemoRef)
        requires
            old(self).counters.last_memo_id < u32::MAX,
        ensures
            r@ == fresh_ref(memo_spec(old(self).next_memo_id(), old(self).id, subject_id, crate::memo::HeadView::Null, body@)),
            r.shared.id == r.id,
            table_view(final(self).memorefs_by_id@) == table_view(old(self).memorefs_by_id@).insert(r.id, r@),
            final(self).counters == (SlabCounters {
                last_memo_id: (old(self).counters.last_memo_id + 1) as u32,
                ..old(self).counters
            }),
            final(self).id == old(self).id,
            final(self).my_ref == old(self).my_ref,
            final(self).memo_wait_channels == old(self).memo_wait_channels,
            final(self).outbox == old(self).outbox,
    {
        self.new_memo(subject_id, MemoRefHead::Null, body)
    }
}

/// A copy of the transmissions `v`.
fn clone_outbox(v: &Vec<Transmission>) -> (res: Vec<Transmission>)
    ensures
        transmissions_view(res@) == transmissions_view(v@),
{
    let mut res: Vec<Transmission> = Vec::new();
    let mut i: usize = 0;
    while i < v.len()
        invariant
            i <= v.len(),
            res@.len() == i,
            forall|k: int| 0 <= k < i ==> (#[trigger] res@[k])@ == v@[k]@,
        decreases v.len() - i,
    {
        res.push(v[i].clone());
        i += 1;
    }
    assert(transmissions_view(res@) =~= transmissions_view(v@));
    res
}

impl Clone for Slab {
    /// A copy of the slab's state: later changes to one are not seen by the other.
    fn clone(&self) -> (res: Self)
        ensures
            res.id == self.id,
            res.my_ref@ == self.my_ref@,
            res.counters == self.counters,
            table_view(res.memorefs_by_id@) == table_view(self.memorefs_by_id@),
            res.memo_wait_channels@ == self.memo_wait_channels@,
            transmissions_view(res.outbox@) == transmissions_view(self.outbox@),
    {
        Slab {
            id: self.id,
            my_ref: self.my_ref.clone(),
            counters: self.counters,
            memorefs_by_id: self.memorefs_by_id.clone(),
            memo_wait_channels: self.memo_wait_channels.clone(),
            outbox: clone_outbox(&self.outbox),
        }
    }
}

} // verus!
