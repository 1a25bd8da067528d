//! Operations of a memo reference: residency, peers, presence and lineage.
use vstd::prelude::*;
use std::sync::Arc;
use vstd::std_specs::cmp::PartialEqSpecImpl;
use crate::types::{MemoId, MemoPeeringStatus, SlabAnticipatedLifetime, SlabPresence};
use crate::slabref::{SlabRef, SlabRefView};
use crate::slab::{Slab, SlabCounters, memo_spec, send_to_peers, sends, slab_sent, add_waiter, table_view, transmissions_view};
use crate::memo::{
    BodyView, HeadView, Memo, MemoBody, MemoPeer, MemoPeerList, MemoRef, MemoRefHead, MemoRefPtr,
    MemoRefShared, MemoView, PeerView, RefView, head_from_ref, head_refs, lineage_local,
    lemma_refs_descend, lemma_refs_local, lemma_refs_view, peers_view, ref_descends,
    refs_descend, refs_local, refs_view,
};

use crate::lineage::{lemma_ref_gap, lemma_refs_gap, ref_gap, refs_gap};

verus! {

/// What `get_presence_for_peer` reports about the peers of a memo to the slab `to`:
/// the presences of every resident peer other than `to` itself, in peer order.
pub open spec fn peers_presence(ps: Seq<PeerView>, to: crate::types::SlabId) -> Seq<SlabPresence>
    decreases ps.len(),
{
    if ps.len() == 0 {
        Seq::empty()
    } else {
        let p = ps.last();
        peers_presence(ps.drop_last(), to) + if p.slabref.to_slab_id != to && p.status
            == MemoPeeringStatus::Resident {
            p.slabref.presence
        } else {
            Seq::empty()
        }
    }
}

/// The presence list a memo reference hands to a peer: first the owning slab, reachable at
/// the peer's return address, then the resident peers other than the receiving one.
pub open spec fn presence_for_peer(r: RefView, sr: SlabRefView) -> Seq<SlabPresence> {
    seq![SlabPresence {
        slab_id: r.owning_slab_id,
        address: sr.return_address,
        lifetime: SlabAnticipatedLifetime::Unknown,
    }] + peers_presence(r.peers, sr.to_slab_id)
}

/// Whether some peer entry points at the same slab as `sr` and participates.
pub open spec fn peered_with(ps: Seq<PeerView>, sr: SlabRefView) -> bool {
    exists|i: int|
        0 <= i < ps.len() && (#[trigger] ps[i]).slabref.to_slab_id == sr.to_slab_id
            && ps[i].status != MemoPeeringStatus::NonParticipating
}

/// The peer list after recording `status` for the slab `sr` points to: every entry for that
/// slab takes the new status; when there is none, a new entry is appended.
pub open spec fn updated_peers(ps: Seq<PeerView>, sr: SlabRefView, status: MemoPeeringStatus) -> Seq<PeerView> {
    if exists|i: int| 0 <= i < ps.len() && (#[trigger] ps[i]).slabref.to_slab_id == sr.to_slab_id {
        Seq::new(
            ps.len(),
            |i: int|
                if ps[i].slabref.to_slab_id == sr.to_slab_id {
                    PeerView { slabref: ps[i].slabref, status }
                } else {
                    ps[i]
                },
        )
    } else {
        ps.push(PeerView { slabref: sr, status })
    }
}

/// The request for memo `memo_id` that `slab` sends to peers.
pub open spec fn request_memo(slab: Slab, memo_id: MemoId) -> MemoView {
    memo_spec(
        slab.next_memo_id(),
        slab.id,
        None,
        HeadView::Null,
        BodyView::MemoRequest(seq![memo_id], slab.my_ref@),
    )
}

/// The peering announcement of `slab` about memo `memo_id`, whose parent head is `parents`.
pub open spec fn peering_memo(slab: Slab, memo_id: MemoId, parents: HeadView, status: MemoPeeringStatus) -> MemoView {
    memo_spec(
        slab.next_memo_id(),
        slab.id,
        None,
        parents,
        BodyView::Peering(memo_id, slab.my_ref@.presence, status),
    )
}

/// How many peers are asked for a memo: at most five.
pub open spec fn request_fanout(peer_count: nat) -> nat {
    if peer_count < 5 { peer_count } else { 5 }
}

/// A reference of the slab `to_slab_id` to the same memo as `r`, learnt from the slab that
/// `from` points to.  That slab is its only peer; the memo travels along only when asked for.
pub open spec fn ref_for_slab(r: RefView, from: SlabRefView, to_slab_id: crate::types::SlabId, include_memo: bool) -> RefView {
    RefView {
        id: r.id,
        owning_slab_id: to_slab_id,
        subject_id: r.subject_id,
        peers: seq![PeerView {
            slabref: from,
            status: if r.memo is Some { MemoPeeringStatus::Resident } else { MemoPeeringStatus::Participating },
        }],
        memo: if include_memo { r.memo } else { None },
    }
}

/// Progress of retrieving a memo: the memo, a wait for peers to answer (after `attempt`
/// timeouts), or a failure.
#[derive(Debug)]
pub enum MemoFetch {
    Ready(Memo),
    Waiting { attempt: u8 },
    Failed(crate::types::RetrieveError),
}

/// What happened while waiting for a requested memo.
#[derive(Debug)]
pub enum MemoWaitEvent {
    Received(Memo),
    Timeout,
    Disconnected,
}

impl MemoRefShared {
    /// Asks up to five peers for the memo `my_memo_id` and returns how many were asked.
    pub fn send_memo_requests(&self, my_memo_id: &MemoId, slab: &mut Slab) -> (sent: u8)
        requires
            old(slab).counters.last_memo_id < u32::MAX,
        ensures
            sent as nat == request_fanout(self.peers.0@.len()),
            slab_sent(
                *old(slab),
                *final(slab),
                sends(
                    peers_view(self.peers.0@),
                    sent as nat,
                    old(slab).my_ref@,
                    request_memo(*old(slab), *my_memo_id),
                ),
            ),
            final(slab).memorefs_by_id == old(slab).memorefs_by_id,
    {
        let slabref = slab.get_ref();
        let memo_id = slab.gen_memo_id();
        let mut ids: Vec<MemoId> = Vec::new();
        ids.push(*my_memo_id);
        let request_memo = Memo::new_basic(
            memo_id,
            None,
            MemoRefHead::Null,
            MemoBody::MemoRequest(ids, slabref.clone()),
            slab,
        );
        let n: usize = if self.peers.0.len() < 5 { self.peers.0.len() } else { 5 };
        send_to_peers(&self.peers.0, n, &slabref, &request_memo, &mut slab.outbox);
        proof {
            assert(request_memo@.body == BodyView::MemoRequest(seq![*my_memo_id], old(slab).my_ref@));
        }
        n as u8
    }
}

/// The state of the memo `r` names as every reference to it on a slab with memo table `t`
/// sees it: the table's entry, when the table holds one.
pub open spec fn shared_view(r: RefView, t: Map<MemoId, RefView>) -> RefView {
    if t.contains_key(r.id) {
        t[r.id]
    } else {
        r
    }
}

impl MemoRef {
    /// This memo's shared state on `slab`.
    pub open spec fn shared_in(&self, slab: Slab) -> RefView {
        shared_view(self@, table_view(slab.memorefs_by_id@))
    }

    pub open spec fn is_resident_spec(&self) -> bool {
        self.shared.ptr is Resident
    }

    /// Whether this slab holds the memo.
    pub fn is_resident(&self) -> (b: bool)
        ensures
            b == self.is_resident_spec(),
            b == self@.memo is Some,
    {
        match &self.shared.ptr {
            MemoRefPtr::Resident(_) => true,
            MemoRefPtr::Remote => false,
        }
    }

    /// A fresh resident reference of `slab` to `memo`, with no peers.
    pub fn from_memo(slab: &Slab, memo: &Memo) -> (r: MemoRef)
        ensures
            r@ == (RefView {
                id: memo.id,
                owning_slab_id: slab.id,
                subject_id: memo.subject_id,
                peers: Seq::empty(),
                memo: Some(memo@),
            }),
            r.shared.id == memo.id,
    {
        let r = MemoRef {
            id: memo.id,
            owning_slab_id: slab.id,
            subject_id: memo.subject_id,
            shared: MemoRefShared {
                id: memo.id,
                peers: MemoPeerList(Vec::new()),
                ptr: MemoRefPtr::Resident(Arc::new(memo.clone())),
            },
        };
        assert(peers_view(r.shared.peers.0@) =~= Seq::empty());
        r
    }

    /// The presences this reference's own state reports to the peer `slabref` points to.
    fn presence_for_peer_here(&self, slabref: &SlabRef) -> (res: Vec<SlabPresence>)
        ensures
            res@ == presence_for_peer(self@, slabref@),
    {
        let mut presence: Vec<SlabPresence> = Vec::new();
        presence.push(SlabPresence {
            slab_id: self.owning_slab_id,
            address: slabref.get_return_address(),
            lifetime: SlabAnticipatedLifetime::Unknown,
        });
        let peers = &self.shared.peers.0;
        let ghost ps = peers_view(peers@);
        let mut i: usize = 0;
        while i < peers.len()
            invariant
                i <= peers@.len(),
                ps == peers_view(peers@),
                presence@ == seq![SlabPresence {
                    slab_id: self.owning_slab_id,
                    address: slabref.return_address,
                    lifetime: SlabAnticipatedLifetime::Unknown,
                }] + peers_presence(ps.subrange(0, i as int), slabref.to_slab_id),
            decreases peers@.len() - i,
        {
            let peer = &peers[i];
            proof {
                assert(ps.subrange(0, i + 1).drop_last() =~= ps.subrange(0, i as int));
                assert(ps.subrange(0, i + 1).last() == peer@);
            }
            if peer.slabref.to_slab_id != slabref.to_slab_id {
                if peer.status == MemoPeeringStatus::Resident {
                    let mut more = peer.slabref.get_presence();
                    presence.append(&mut more);
                }
            }
            i += 1;
            proof {
                assert(presence@ =~= seq![SlabPresence {
                    slab_id: self.owning_slab_id,
                    address: slabref.return_address,
                    lifetime: SlabAnticipatedLifetime::Unknown,
                }] + peers_presence(ps.subrange(0, i as int), slabref.to_slab_id));
            }
        }
        assert(ps.subrange(0, peers@.len() as int) =~= ps);
        presence
    }

    /// The memo this reference itself holds, if any.
    fn memo_here(&self) -> (res: Option<Memo>)
        ensures
            res is Some <==> self@.memo is Some,
            res is Some ==> res.unwrap()@ == self@.memo.unwrap(),
    {
        match &self.shared.ptr {
            MemoRefPtr::Resident(memo) => Some((**memo).clone()),
            MemoRefPtr::Remote => None,
        }
    }

    /// Whether this reference's own peers have the slab `slabref` points to participating.
    fn peered_here(&self, slabref: &SlabRef) -> (b: bool)
        ensures
            b == peered_with(self@.peers, slabref@),
    {
        let peers = &self.shared.peers.0;
        assert(self@.peers == peers_view(peers@));
        let mut i: usize = 0;
        while i < peers.len()
            invariant
                i <= peers@.len(),
                self@.peers == peers_view(peers@),
                forall|j: int|
                    0 <= j < i ==> !((#[trigger] peers_view(peers@)[j]).slabref.to_slab_id
                        == slabref.to_slab_id && peers_view(peers@)[j].status
                        != MemoPeeringStatus::NonParticipating),
            decreases peers@.len() - i,
        {
            if peers[i].slabref.to_slab_id == slabref.to_slab_id && peers[i].status
                != MemoPeeringStatus::NonParticipating {
                assert(peers_view(peers@)[i as int] == peers@[i as int]@);
                assert(self@.peers[i as int].slabref.to_slab_id == slabref@.to_slab_id);
                assert(self@.peers[i as int].status != MemoPeeringStatus::NonParticipating);
                return true;
            }
            i += 1;
        }
        false
    }

    /// The head made of this reference alone.
    pub fn to_head(&self) -> (h: MemoRefHead)
        ensures
            h@ == head_from_ref(self@),
    {
        MemoRefHead::from_memoref(self.clone())
    }

    /// This memo as known to the slab `to_slab`, learnt from the slab `from_slabref` points
    /// to (a handle held by `to_slab`).
    pub fn clone_for_slab(&self, from_slabref: &SlabRef, to_slab: &Slab, include_memo: bool) -> (r: MemoRef)
        ensures
            r@ == ref_for_slab(self@, from_slabref@, to_slab.id, include_memo),
            r.shared.id == self.id,
    {
        let status = if self.is_resident() {
            MemoPeeringStatus::Resident
        } else {
            MemoPeeringStatus::Participating
        };
        let mut peers: Vec<MemoPeer> = Vec::new();
        peers.push(MemoPeer { slabref: from_slabref.clone(), status });
        let ptr = if include_memo {
            match &self.shared.ptr {
                MemoRefPtr::Resident(m) => MemoRefPtr::Resident(m.clone()),
                MemoRefPtr::Remote => MemoRefPtr::Remote,
            }
        } else {
            MemoRefPtr::Remote
        };
        let r = MemoRef {
            id: self.id,
            owning_slab_id: to_slab.id,
            subject_id: self.subject_id,
            shared: MemoRefShared { id: self.id, peers: MemoPeerList(peers), ptr },
        };
        assert(r@.peers =~= ref_for_slab(self@, from_slabref@, to_slab.id, include_memo).peers);
        r
    }

    /// The reference through which this memo's shared state is read on `slab`: the slab's
    /// memo table entry for it, when the table holds one, else this reference.
    pub fn shared_ref<'a>(&'a self, slab: &'a Slab) -> (r: &'a MemoRef)
        ensures
            r@ == self.shared_in(*slab),
    {
        broadcast use vstd::std_specs::hash::group_hash_axioms;

        match slab.memorefs_by_id.get(&self.id) {
            Some(entry) => entry,
            None => self,
        }
    }

    /// The presences to report to the peer that `slabref` points to, read from the memo's
    /// shared state on `slab`.
    pub fn get_presence_for_peer(&self, slab: &Slab, slabref: &SlabRef) -> (res: Vec<SlabPresence>)
        ensures
            res@ == presence_for_peer(self.shared_in(*slab), slabref@),
    {
        self.shared_ref(slab).presence_for_peer_here(slabref)
    }

    /// The memo itself, when the slab holds it (read from the memo's shared state).
    pub fn get_memo_if_resident(&self, slab: &Slab) -> (res: Option<Memo>)
        ensures
            res is Some <==> self.shared_in(*slab).memo is Some,
            res is Some ==> res.unwrap()@ == self.shared_in(*slab).memo.unwrap(),
    {
        self.shared_ref(slab).memo_here()
    }

    /// Whether the slab `slabref` points to is a participating peer of this memo (read from
    /// the memo's shared state on `slab`).
    pub fn is_peered_with_slabref(&self, slab: &Slab, slabref: &SlabRef) -> (b: bool)
        ensures
            b == peered_with(self.shared_in(*slab).peers, slabref@),
    {
        self.shared_ref(slab).peered_here(slabref)
    }

    /// Starts retrieving the memo, from its shared state on the slab: a resident memo is
    /// returned at once; otherwise up to five of its peers are asked for it and, when some
    /// were asked, a waiter is registered.
    pub fn get_memo(&self, slab: &mut Slab) -> (res: MemoFetch)
        requires
            self.owning_slab_id == old(slab).id,
            self.shared_in(*old(slab)).memo is None ==> old(slab).counters.last_memo_id < u32::MAX,
            self.shared_in(*old(slab)).memo is None && request_fanout(self.shared_in(*old(slab)).peers.len()) > 0
                && old(slab).memo_wait_channels@.contains_key(self.id) ==> old(slab).memo_wait_channels@[self.id]
                < usize::MAX,
        ensures
            self.shared_in(*old(slab)).memo is Some ==> res is Ready && res->Ready_0@ == self.shared_in(
                *old(slab),
            ).memo.unwrap() && *final(slab) == *old(slab),
            self.shared_in(*old(slab)).memo is None ==> {
                let n = request_fanout(self.shared_in(*old(slab)).peers.len());
                &&& final(slab).id == old(slab).id
                &&& final(slab).my_ref == old(slab).my_ref
                &&& final(slab).memorefs_by_id == old(slab).memorefs_by_id
                &&& final(slab).counters == (SlabCounters {
                    last_memo_id: (old(slab).counters.last_memo_id + 1) as u32,
                    ..old(slab).counters
                })
                &&& transmissions_view(final(slab).outbox@) == transmissions_view(old(slab).outbox@)
                    + sends(self.shared_in(*old(slab)).peers, n, old(slab).my_ref@, request_memo(*old(slab), self.id))
                &&& final(slab).memo_wait_channels@ == if n > 0 {
                    add_waiter(old(slab).memo_wait_channels@, self.id)
                } else {
                    old(slab).memo_wait_channels@
                }
                &&& if n > 0 {
                    res is Waiting && res->attempt == 0
                } else {
                    res is Failed && res->Failed_0 == crate::types::RetrieveError::NotFound
                }
            },
    {
        let shared = self.shared_ref(slab).clone();
        if let MemoRefPtr::Resident(memo) = &shared.shared.ptr {
            return MemoFetch::Ready((**memo).clone());
        }
        let sent = shared.shared.send_memo_requests(&self.id, slab);
        if sent > 0 {
            let _waiters = slab.memo_wait_channel(self.id);
            MemoFetch::Waiting { attempt: 0 }
        } else {
            MemoFetch::Failed(crate::types::RetrieveError::NotFound)
        }
    }

    /// Continues retrieving the memo after waiting for its peers (those of its shared state on
    /// the slab): a received memo is returned;
    /// a broken channel fails; on a timeout the peers are asked again, and the retrieval
    /// fails when nobody could be asked or after the third timeout.
    pub fn get_memo_resume(&self, slab: &mut Slab, attempt: u8, event: MemoWaitEvent) -> (res: MemoFetch)
        requires
            self.owning_slab_id == old(slab).id,
            attempt < 3,
            event is Timeout ==> old(slab).counters.last_memo_id < u32::MAX,
        ensures
            event is Received ==> res is Ready && res->Ready_0@ == event->Received_0@ && *final(slab) == *old(slab),
            event is Disconnected ==> res is Failed && res->Failed_0 == crate::types::RetrieveError::SlabError && *final(slab) == *old(slab),
            event is Timeout ==> {
                let n = request_fanout(self.shared_in(*old(slab)).peers.len());
                &&& slab_sent(
                    *old(slab),
                    *final(slab),
                    sends(self.shared_in(*old(slab)).peers, n, old(slab).my_ref@, request_memo(*old(slab), self.id)),
                )
                &&& final(slab).memorefs_by_id == old(slab).memorefs_by_id
                &&& if n == 0 {
                    res is Failed && res->Failed_0 == crate::types::RetrieveError::NotFound
                } else if attempt + 1 >= 3 {
                    res is Failed && res->Failed_0 == crate::types::RetrieveError::NotFoundByDeadline
                } else {
                    res is Waiting && res->attempt == attempt + 1
                }
            },
    {
        match event {
            MemoWaitEvent::Received(memo) => MemoFetch::Ready(memo),
            MemoWaitEvent::Disconnected => MemoFetch::Failed(crate::types::RetrieveError::SlabError),
            MemoWaitEvent::Timeout => {
                let shared = self.shared_ref(slab).clone();
                if shared.shared.send_memo_requests(&self.id, slab) == 0 {
                    MemoFetch::Failed(crate::types::RetrieveError::NotFound)
                } else if attempt + 1 >= 3 {
                    MemoFetch::Failed(crate::types::RetrieveError::NotFoundByDeadline)
                } else {
                    MemoFetch::Waiting { attempt: attempt + 1 }
                }
            },
        }
    }

    /// Whether this memo has the memo `memoref` among its ancestors.
    /// The walk reads every memo of the lineage, so the lineage must be readable on the slab:
    /// `first_gap` names a memo it lacks, and `installed` puts that memo in once retrieved.
    pub fn descends_resident(&self, memoref: &MemoRef, slab: &Slab) -> (b: bool)
        requires
            lineage_local(self@, slab.id),
        ensures
            b == ref_descends(self@, memoref.id),
        decreases self,
    {
        match &self.shared.ptr {
            MemoRefPtr::Resident(m) => {
                let my_memo: &Memo = &**m;
                if my_memo.descends_resident(memoref, slab) {
                    return true;
                }
                false
            },
            MemoRefPtr::Remote => false,
        }
    }

    /// Makes the memo resident and tells every peer about it.  Returns whether it was remote.
    pub fn residentize(&mut self, slab: &mut Slab, memo: &Memo) -> (b: bool)
        requires
            old(self).owning_slab_id == old(slab).id,
            old(self).id == memo.id,
            old(self)@.memo is None ==> old(slab).counters.last_memo_id < u32::MAX,
        ensures
            b == old(self)@.memo is None,
            b ==> final(self)@ == (RefView { memo: Some(memo@), ..old(self)@ }),
            b ==> slab_sent(
                *old(slab),
                *final(slab),
                sends(
                    old(self)@.peers,
                    old(self)@.peers.len(),
                    old(slab).my_ref@,
                    peering_memo(*old(slab), old(self).id, head_from_ref(final(self)@), MemoPeeringStatus::Resident),
                ),
            ),
            b ==> table_view(final(slab).memorefs_by_id@) == table_residentized(
                table_view(old(slab).memorefs_by_id@),
                old(self).id,
                memo@,
            ),
            !b ==> *final(self) == *old(self) && *final(slab) == *old(slab),
            final(self).shared.id == old(self).shared.id,
    {
        if let MemoRefPtr::Remote = &self.shared.ptr {
            self.shared.ptr = MemoRefPtr::Resident(Arc::new(memo.clone()));
            let slabref = slab.get_ref();
            let memo_id = slab.gen_memo_id();
            let peering_memo = Memo::new_basic(
                memo_id,
                None,
                MemoRefHead::from_memoref(self.clone()),
                MemoBody::Peering(self.id, slabref.get_presence(), MemoPeeringStatus::Resident),
                slab,
            );
            send_to_peers(&self.shared.peers.0, self.shared.peers.0.len(), &slabref, &peering_memo, &mut slab.outbox);
            slab.table_set_resident(self.id, memo);
            true
        } else {
            false
        }
    }

    /// Gives up residency of the memo, telling every peer that this slab now only
    /// participates.
    pub fn remotize(&mut self, slab: &mut Slab)
        requires
            old(self).owning_slab_id == old(slab).id,
            old(self)@.memo is Some ==> old(self)@.peers.len() > 0 && old(slab).counters.last_memo_id < u32::MAX,
        ensures
            final(self)@ == (RefView { memo: None, ..old(self)@ }),
            old(self)@.memo is Some ==> slab_sent(
                *old(slab),
                *final(slab),
                sends(
                    old(self)@.peers,
                    old(self)@.peers.len(),
                    old(slab).my_ref@,
                    peering_memo(*old(slab), old(self).id, head_from_ref(old(self)@), MemoPeeringStatus::Participating),
                ),
            ),
            old(self)@.memo is Some ==> table_view(final(slab).memorefs_by_id@) == table_remotized(
                table_view(old(slab).memorefs_by_id@),
                old(self).id,
            ),
            old(self)@.memo is None ==> *final(slab) == *old(slab),
            final(self).shared.id == old(self).shared.id,
    {
        if let MemoRefPtr::Resident(_) = &self.shared.ptr {
            let slabref = slab.get_ref();
            let memo_id = slab.gen_memo_id();
            let peering_memo = Memo::new_basic(
                memo_id,
                None,
                MemoRefHead::from_memoref(self.clone()),
                MemoBody::Peering(self.id, slabref.get_presence(), MemoPeeringStatus::Participating),
                slab,
            );
            send_to_peers(&self.shared.peers.0, self.shared.peers.0.len(), &slabref, &peering_memo, &mut slab.outbox);
            slab.table_set_remote(self.id);
        }
        self.shared.ptr = MemoRefPtr::Remote;
    }

    /// Records that the slab `slabref` points to now has the given peering status for this
    /// memo, in this reference and in the slab's memo table, which every reference to the
    /// memo on the slab shares.
    pub fn update_peer(&mut self, slab: &mut Slab, slabref: &SlabRef, status: MemoPeeringStatus)
        ensures
            final(self)@ == (RefView {
                peers: updated_peers(old(self)@.peers, slabref@, status),
                ..old(self)@
            }),
            final(self).shared.id == old(self).shared.id,
            table_view(final(slab).memorefs_by_id@) == table_peer_updated(
                table_view(old(slab).memorefs_by_id@),
                old(self).id,
                slabref@,
                status,
            ),
            final(slab).id == old(slab).id,
            final(slab).my_ref == old(slab).my_ref,
            final(slab).counters == old(slab).counters,
            final(slab).memo_wait_channels == old(slab).memo_wait_channels,
            final(slab).outbox == old(slab).outbox,
    {
        self.set_peer_status(slabref, status);
        slab.table_update_peer(self.id, slabref, status);
    }

    /// Records the peering status for the slab `slabref` points to in this reference.
    fn set_peer_status(&mut self, slabref: &SlabRef, status: MemoPeeringStatus)
        ensures
            final(self)@ == (RefView {
                peers: updated_peers(old(self)@.peers, slabref@, status),
                ..old(self)@
            }),
            final(self).shared.id == old(self).shared.id,
    {
        let ghost old_ps = old(self)@.peers;
        assert(old_ps == peers_view(old(self).shared.peers.0@));
        let mut found: bool = false;
        let mut i: usize = 0;
        let n = self.shared.peers.0.len();
        while i < n
            invariant
                n == self.shared.peers.0@.len(),
                n == old_ps.len(),
                i <= n,
                self.id == old(self).id,
                self.owning_slab_id == old(self).owning_slab_id,
                self.subject_id == old(self).subject_id,
                self.shared.id == old(self).shared.id,
                self.shared.ptr == old(self).shared.ptr,
                found <==> exists|j: int|
                    0 <= j < i && (#[trigger] old_ps[j]).slabref.to_slab_id == slabref.to_slab_id,
                forall|j: int|
                    0 <= j < n ==> #[trigger] peers_view(self.shared.peers.0@)[j] == if j < i
                        && old_ps[j].slabref.to_slab_id == slabref.to_slab_id {
                        PeerView { slabref: old_ps[j].slabref, status }
                    } else {
                        old_ps[j]
                    },
            decreases n - i,
        {
            let ghost before = peers_view(self.shared.peers.0@);
            assert(before[i as int] == old_ps[i as int]);
            assert(before[i as int] == self.shared.peers.0@[i as int]@);
            if self.shared.peers.0[i].slabref.to_slab_id == slabref.to_slab_id {
                found = true;
                let sr = self.shared.peers.0[i].slabref.clone();
                self.shared.peers.0.set(i, MemoPeer { slabref: sr, status });
                assert forall|j: int| 0 <= j < n implies #[trigger] peers_view(self.shared.peers.0@)[j]
                    == if j == i { PeerView { slabref: old_ps[j].slabref, status } } else { before[j] } by {}
            }
            i += 1;
        }
        if !found {
            let ghost cur = peers_view(self.shared.peers.0@);
            assert forall|j: int| 0 <= j < n implies cur[j] == old_ps[j] by {
                if old_ps[j].slabref.to_slab_id == slabref.to_slab_id {
                    assert(exists|k: int| 0 <= k < i && (#[trigger] old_ps[k]).slabref.to_slab_id == slabref.to_slab_id);
                }
            }
            self.shared.peers.0.push(MemoPeer { slabref: slabref.clone(), status });
            assert(peers_view(self.shared.peers.0@) =~= old_ps.push(PeerView { slabref: slabref@, status }));
        } else {
            assert(peers_view(self.shared.peers.0@) =~= updated_peers(old_ps, slabref@, status));
        }
    }
}

/// The memo table `t` after the memo `id`, when the table holds it, records `status` for
/// the slab `sr` points to.
pub open spec fn table_peer_updated(
    t: Map<MemoId, RefView>,
    id: MemoId,
    sr: SlabRefView,
    status: MemoPeeringStatus,
) -> Map<MemoId, RefView> {
    if t.contains_key(id) {
        t.insert(id, RefView { peers: updated_peers(t[id].peers, sr, status), ..t[id] })
    } else {
        t
    }
}

/// The memo table `t` after the memo `id` becomes resident with `m`, when the table holds
/// it as remote.
pub open spec fn table_residentized(t: Map<MemoId, RefView>, id: MemoId, m: MemoView) -> Map<MemoId, RefView> {
    if t.contains_key(id) && t[id].memo is None {
        t.insert(id, RefView { memo: Some(m), ..t[id] })
    } else {
        t
    }
}

/// The memo table `t` after the memo `id`, when the table holds it, stops being resident.
pub open spec fn table_remotized(t: Map<MemoId, RefView>, id: MemoId) -> Map<MemoId, RefView> {
    if t.contains_key(id) {
        t.insert(id, RefView { memo: None, ..t[id] })
    } else {
        t
    }
}

impl Slab {
    /// Records a peering status for the memo `id` in the memo table, when it holds the memo.
    fn table_update_peer(&mut self, id: MemoId, slabref: &SlabRef, status: MemoPeeringStatus)
        ensures
            table_view(final(self).memorefs_by_id@) == table_peer_updated(
                table_view(old(self).memorefs_by_id@),
                id,
                slabref@,
                status,
            ),
            final(self).id == old(self).id,
            final(self).my_ref == old(self).my_ref,
            final(self).counters == old(self).counters,
            final(self).memo_wait_channels == old(self).memo_wait_channels,
            final(self).outbox == old(self).outbox,
    {
        broadcast use vstd::std_specs::hash::group_hash_axioms;

        let ghost before = self.memorefs_by_id@;
        let entry = match self.memorefs_by_id.get(&id) {
            Some(e) => Some(e.clone()),
            None => None,
        };
        match entry {
            Some(mut e) => {
                e.set_peer_status(slabref, status);
                self.memorefs_by_id.insert(id, e);
                assert(table_view(self.memorefs_by_id@) =~= table_peer_updated(table_view(before), id, slabref@, status));
            },
            None => {
                assert(table_view(self.memorefs_by_id@) =~= table_peer_updated(table_view(before), id, slabref@, status));
            },
        }
    }

    /// Makes the memo table's entry for `memo_id` resident with `memo`, when it is remote.
    fn table_set_resident(&mut self, memo_id: MemoId, memo: &Memo)
        ensures
            table_view(final(self).memorefs_by_id@) == table_residentized(
                table_view(old(self).memorefs_by_id@),
                memo_id,
                memo@,
            ),
            final(self).id == old(self).id,
            final(self).my_ref == old(self).my_ref,
            final(self).counters == old(self).counters,
            final(self).memo_wait_channels == old(self).memo_wait_channels,
            final(self).outbox == old(self).outbox,
    {
        broadcast use vstd::std_specs::hash::group_hash_axioms;

        let ghost before = self.memorefs_by_id@;
        let entry = match self.memorefs_by_id.get(&memo_id) {
            Some(e) => Some(e.clone()),
            None => None,
        };
        match entry {
            Some(mut e) => {
                if let MemoRefPtr::Remote = &e.shared.ptr {
                    e.shared.ptr = MemoRefPtr::Resident(Arc::new(memo.clone()));
                    self.memorefs_by_id.insert(memo_id, e);
                }
                assert(table_view(self.memorefs_by_id@) =~= table_residentized(table_view(before), memo_id, memo@));
            },
            None => {
                assert(table_view(self.memorefs_by_id@) =~= table_residentized(table_view(before), memo_id, memo@));
            },
        }
    }

    /// Makes the memo table's entry for `memo_id` remote, when the table holds the memo.
    fn table_set_remote(&mut self, memo_id: MemoId)
        ensures
            table_view(final(self).memorefs_by_id@) == table_remotized(table_view(old(self).memorefs_by_id@), memo_id),
            final(self).id == old(self).id,
            final(self).my_ref == old(self).my_ref,
            final(self).counters == old(self).counters,
            final(self).memo_wait_channels == old(self).memo_wait_channels,
            final(self).outbox == old(self).outbox,
    {
        broadcast use vstd::std_specs::hash::group_hash_axioms;

        let ghost before = self.memorefs_by_id@;
        let entry = match self.memorefs_by_id.get(&memo_id) {
            Some(e) => Some(e.clone()),
            None => None,
        };
        match entry {
            Some(mut e) => {
                e.shared.ptr = MemoRefPtr::Remote;
                self.memorefs_by_id.insert(memo_id, e);
                assert(table_view(self.memorefs_by_id@) =~= table_remotized(table_view(before), memo_id));
            },
            None => {
                assert(table_view(self.memorefs_by_id@) =~= table_remotized(table_view(before), memo_id));
            },
        }
    }
}

impl Memo {
    /// Whether this memo has the memo `memoref` among its ancestors: first among its
    /// parents, then further up.
    pub fn descends_resident(&self, memoref: &MemoRef, slab: &Slab) -> (b: bool)
        requires
            refs_local(head_refs(self@.parents), slab.id),
        ensures
            b == refs_descend(head_refs(self@.parents), memoref.id),
        decreases self,
    {
        let parents: &Vec<MemoRef> = match &self.parents {
            MemoRefHead::Null => {
                return false;
            },
            MemoRefHead::Subject { head, .. } => head,
            MemoRefHead::Anonymous { head } => head,
        };
        let ghost rs = head_refs(self@.parents);
        let ghost pv = *parents;
        proof {
            lemma_refs_view(parents@);
            lemma_refs_local(rs, slab.id);
            lemma_refs_descend(rs, memoref.id);
            assert(rs == refs_view(parents@));
            assert(decreases_to!(*self => pv));
        }
        let mut i: usize = 0;
        while i < parents.len()
            invariant
                i <= parents@.len(),
                rs == head_refs(self@.parents),
                rs.len() == parents@.len(),
                forall|j: int| 0 <= j < rs.len() ==> #[trigger] rs[j] == parents@[j]@,
                forall|j: int| 0 <= j < i ==> (#[trigger] rs[j]).id != memoref.id,
                refs_descend(rs, memoref.id) <==> exists|j: int| 0 <= j < rs.len() && ((#[trigger] rs[j]).id == memoref.id || ref_descends(rs[j], memoref.id)),
            decreases parents@.len() - i,
        {
            if parents[i].id == memoref.id {
                assert(rs[i as int].id == memoref.id);
                return true;
            }
            i += 1;
        }
        let mut i: usize = 0;
        while i < parents.len()
            invariant
                i <= parents@.len(),
                rs == head_refs(self@.parents),
                rs.len() == parents@.len(),
                forall|j: int| 0 <= j < rs.len() ==> #[trigger] rs[j] == parents@[j]@,
                forall|j: int| 0 <= j < rs.len() ==> lineage_local(#[trigger] rs[j], slab.id),
                forall|j: int| 0 <= j < rs.len() ==> (#[trigger] rs[j]).id != memoref.id,
                forall|j: int| 0 <= j < i ==> !ref_descends(#[trigger] rs[j], memoref.id),
                refs_descend(rs, memoref.id) <==> exists|j: int| 0 <= j < rs.len() && ((#[trigger] rs[j]).id == memoref.id || ref_descends(rs[j], memoref.id)),
                decreases_to!(*self => pv),
                pv == *parents,
            decreases parents@.len() - i,
        {
            assert(rs[i as int] == parents@[i as int]@);
            proof {
                broadcast use vstd::std_specs::vec::axiom_vec_index_decreases;
                assert(decreases_to!(pv => pv[i as int]));
            }
            if parents[i].descends_resident(memoref, slab) {
                return true;
            }
            i += 1;
        }
        false
    }
}

impl MemoRef {
    /// Whether this memo has the memo `memoref` among its ancestors.  The walk reads every
    /// memo of the lineage: when one cannot be read on the slab (not resident, or owned by
    /// another slab), that memo's reference is returned instead, for the caller to retrieve
    /// it (`get_memo`), put it in place (`installed`) and ask again.
    pub fn descends(&self, memoref: &MemoRef, slab: &Slab) -> (res: Result<bool, MemoRef>)
        requires
            self.owning_slab_id == slab.id,
        ensures
            ref_gap(self@, slab.id) is None ==> res == Ok::<bool, MemoRef>(ref_descends(self@, memoref.id)),
            ref_gap(self@, slab.id) is Some ==> res is Err && Some(res->Err_0@) == ref_gap(self@, slab.id),
    {
        match self.first_gap(slab.id) {
            Some(g) => Err(g),
            None => {
                proof {
                    lemma_ref_gap(self@, slab.id);
                }
                Ok(self.descends_resident(memoref, slab))
            },
        }
    }
}

impl Memo {
    /// Whether this memo has the memo `memoref` among its ancestors, or the first reference
    /// of its parents' lineages that cannot be read on the slab.
    pub fn descends(&self, memoref: &MemoRef, slab: &Slab) -> (res: Result<bool, MemoRef>)
        ensures
            refs_gap(head_refs(self@.parents), slab.id) is None ==> res == Ok::<bool, MemoRef>(
                refs_descend(head_refs(self@.parents), memoref.id),
            ),
            refs_gap(head_refs(self@.parents), slab.id) is Some ==> res is Err && Some(res->Err_0@)
                == refs_gap(head_refs(self@.parents), slab.id),
    {
        match self.parents.first_gap(slab.id) {
            Some(g) => Err(g),
            None => {
                proof {
                    lemma_refs_gap(head_refs(self@.parents), slab.id);
                }
                Ok(self.descends_resident(memoref, slab))
            },
        }
    }
}

impl PartialEq for MemoRef {
    /// Two references are equal when they name the same memo.
    fn eq(&self, other: &MemoRef) -> (r: bool) {
        self.id == other.id
    }
}

impl PartialEqSpecImpl for MemoRef {
    open spec fn obeys_eq_spec() -> bool {
        true
    }

    open spec fn eq_spec(&self, other: &MemoRef) -> bool {
        self.id == other.id
    }
}

} // verus!
