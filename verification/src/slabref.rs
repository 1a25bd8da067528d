//! References from one slab to another, and the memos they carry.
use vstd::prelude::*;
use crate::types::{SlabId, SlabPresence, TransportAddress, copy_vec};
use crate::memo::{Memo, MemoView};

verus! {

/// A slab's handle on some slab of the network (possibly itself): whom it points to,
/// which slab holds the handle, and how the target can be reached.
#[derive(Debug)]
pub struct SlabRef {
    pub owning_slab_id: SlabId,
    pub to_slab_id: SlabId,
    pub presence: Vec<SlabPresence>,
    pub return_address: TransportAddress,
}

pub struct SlabRefView {
    pub owning_slab_id: SlabId,
    pub to_slab_id: SlabId,
    pub presence: Seq<SlabPresence>,
    pub return_address: TransportAddress,
}

impl View for SlabRef {
    type V = SlabRefView;

    open spec fn view(&self) -> SlabRefView {
        SlabRefView {
            owning_slab_id: self.owning_slab_id,
            to_slab_id: self.to_slab_id,
            presence: self.presence@,
            return_address: self.return_address,
        }
    }
}

impl Clone for SlabRef {
    fn clone(&self) -> (res: Self)
        ensures
            res@ == self@,
    {
        SlabRef {
            owning_slab_id: self.owning_slab_id,
            to_slab_id: self.to_slab_id,
            presence: copy_vec(&self.presence),
            return_address: self.return_address,
        }
    }
}

impl SlabRef {
    /// The presences this handle knows of its target slab.
    pub fn get_presence(&self) -> (res: Vec<SlabPresence>)
        ensures
            res@ == self.presence@,
    {
        copy_vec(&self.presence)
    }

    /// The address at which the target slab can be reached.
    pub fn get_return_address(&self) -> (res: TransportAddress)
        ensures
            res == self.return_address,
    {
        self.return_address
    }

    /// A handle on the same target slab, held by `to_slab`.
    pub fn clone_for_slab(&self, to_slab: &crate::slab::Slab) -> (res: SlabRef)
        ensures
            res@ == (SlabRefView { owning_slab_id: to_slab.id, ..self@ }),
    {
        SlabRef {
            owning_slab_id: to_slab.id,
            to_slab_id: self.to_slab_id,
            presence: copy_vec(&self.presence),
            return_address: self.return_address,
        }
    }

    /// Hands `memo` to the transport towards the target slab, on behalf of `from`.
    pub fn send_memo(&self, from: &SlabRef, memo: Memo, outbox: &mut Vec<Transmission>)
        ensures
            final(outbox)@.len() == old(outbox)@.len() + 1,
            final(outbox)@.subrange(0, old(outbox)@.len() as int) == old(outbox)@,
            final(outbox)@.last()@ == (TransmissionView {
                to_slab_id: self.to_slab_id,
                from: from@,
                memo: memo@,
            }),
    {
        outbox.push(Transmission { to_slab_id: self.to_slab_id, from: from.clone(), memo });
        assert(outbox@.subrange(0, old(outbox)@.len() as int) =~= old(outbox)@);
    }
}

/// A memo handed to the transport, addressed to a slab.
#[derive(Debug)]
pub struct Transmission {
    pub to_slab_id: SlabId,
    pub from: SlabRef,
    pub memo: Memo,
}

pub struct TransmissionView {
    pub to_slab_id: SlabId,
    pub from: SlabRefView,
    pub memo: MemoView,
}

impl View for Transmission {
    type V = TransmissionView;

    open spec fn view(&self) -> TransmissionView {
        TransmissionView { to_slab_id: self.to_slab_id, from: self.from@, memo: self.memo@ }
    }
}

impl Clone for Transmission {
    fn clone(&self) -> (res: Self)
        ensures
            res@ == self@,
    {
        Transmission { to_slab_id: self.to_slab_id, from: self.from.clone(), memo: self.memo.clone() }
    }
}

} // verus!
