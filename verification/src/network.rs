//! The network: numbers slabs, knows which are local, and holds the seed of the root index.
use vstd::prelude::*;
use std::collections::HashMap;
use crate::types::{spec_compose_id, MemoId, SlabId, SubjectId, SubjectType, TransportAddress};
use crate::slabref::{SlabRef, SlabRefView};
use crate::slab::{Slab, SlabCounters, fresh_ref, memo_spec, table_view};
use crate::memo::{
    BodyView, EdgeSet, HeadView, MemoBody, MemoRefHead, RefView, RelationSet, head_from_ref, head_refs, refs_view,
};
use crate::memorefhead::head_for_slab;

verus! {

/// The head of the root index, and a handle on the slab that created it.
#[derive(Debug)]
pub struct RootIndexSeed {
    pub head: MemoRefHead,
    pub from: SlabRef,
}

#[derive(Debug)]
pub struct Network {
    pub next_slab_id: SlabId,
    pub next_context_id: u64,
    pub slabs: Vec<SlabId>,
    pub root_index_seed: Option<RootIndexSeed>,
    pub create_new_system_environment: bool,
}

/// The head of the root index that `slab` creates: one materialized index node memo,
/// without parents, for a new index-node subject.
pub open spec fn root_seed_head(slab: Slab) -> HeadView {
    head_from_ref(fresh_ref(memo_spec(
        slab.next_memo_id(),
        slab.id,
        Some(SubjectId {
            id: spec_compose_id(slab.id, (slab.counters.last_subject_id + 1) as u32),
            stype: SubjectType::IndexNode,
        }),
        HeadView::Null,
        BodyView::FullyMaterialized { v: Seq::empty(), r: Seq::empty(), e: Seq::empty(), t: SubjectType::IndexNode },
    )))
}

impl Network {
    /// A network with no slab yet; `create_new_system_environment` says whether its first
    /// slab creates a new system (and so the root index seed).
    pub fn new(create_new_system_environment: bool) -> (net: Network)
        ensures
            net.next_slab_id == 0,
            net.next_context_id == 0,
            net.slabs@ == Seq::<SlabId>::empty(),
            net.root_index_seed is None,
            net.create_new_system_environment == create_new_system_environment,
    {
        Network { next_slab_id: 0, next_context_id: 0, slabs: Vec::new(), root_index_seed: None, create_new_system_environment }
    }

    /// A network for a new system.
    pub fn create_new_system() -> (net: Network)
        ensures
            net.next_slab_id == 0,
            net.next_context_id == 0,
            net.slabs@ == Seq::<SlabId>::empty(),
            net.root_index_seed is None,
            net.create_new_system_environment,
    {
        Network::new(true)
    }

    /// Numbers a new slab.
    pub fn generate_slab_id(&mut self) -> (id: SlabId)
        requires
            old(self).next_slab_id < u32::MAX,
        ensures
            id == old(self).next_slab_id,
            final(self).next_slab_id == old(self).next_slab_id + 1,
            final(self).next_context_id == old(self).next_context_id,
            final(self).slabs == old(self).slabs,
            final(self).root_index_seed == old(self).root_index_seed,
            final(self).create_new_system_environment == old(self).create_new_system_environment,
    {
        let id = self.next_slab_id;
        self.next_slab_id = self.next_slab_id + 1;
        id
    }

    /// Hands out the id of a new context: ids of the contexts of one network never repeat.
    pub fn generate_context_id(&mut self) -> (id: u64)
        requires
            old(self).next_context_id < u64::MAX,
        ensures
            id == old(self).next_context_id,
            final(self).next_context_id == old(self).next_context_id + 1,
            final(self).next_slab_id == old(self).next_slab_id,
            final(self).slabs == old(self).slabs,
            final(self).root_index_seed == old(self).root_index_seed,
            final(self).create_new_system_environment == old(self).create_new_system_environment,
    {
        let id = self.next_context_id;
        self.next_context_id = self.next_context_id + 1;
        id
    }

    /// Records `slab` as a slab of this process.
    pub fn register_local_slab(&mut self, slab: &Slab)
        ensures
            final(self).slabs@ == old(self).slabs@.push(slab.id),
            final(self).next_slab_id == old(self).next_slab_id,
            final(self).next_context_id == old(self).next_context_id,
            final(self).root_index_seed == old(self).root_index_seed,
            final(self).create_new_system_environment == old(self).create_new_system_environment,
    {
        self.slabs.push(slab.id);
    }

    /// Creates the root index seed in `slab`, unless there is one already or this network
    /// does not create a new system.  Returns whether it did.
    pub fn conditionally_generate_root_index_seed(&mut self, slab: &mut Slab) -> (generated: bool)
        requires
            old(slab).counters.last_memo_id < u32::MAX,
            old(slab).counters.last_subject_id < u32::MAX,
        ensures
            generated == (old(self).root_index_seed is None && old(self).create_new_system_environment),
            final(self).next_slab_id == old(self).next_slab_id,
            final(self).next_context_id == old(self).next_context_id,
            final(self).slabs == old(self).slabs,
            final(self).create_new_system_environment == old(self).create_new_system_environment,
            !generated ==> final(self).root_index_seed == old(self).root_index_seed && *final(slab) == *old(slab),
            generated ==> {
                &&& final(self).root_index_seed is Some
                &&& final(self).root_index_seed->Some_0.head@ == root_seed_head(*old(slab))
                &&& final(self).root_index_seed->Some_0.from@ == old(slab).my_ref@
                &&& final(slab).counters == (SlabCounters {
                    last_memo_id: (old(slab).counters.last_memo_id + 1) as u32,
                    last_subject_id: (old(slab).counters.last_subject_id + 1) as u32,
                    ..old(slab).counters
                })
                &&& table_view(final(slab).memorefs_by_id@) == table_view(old(slab).memorefs_by_id@).insert(
                    head_refs(root_seed_head(*old(slab)))[0].id,
                    head_refs(root_seed_head(*old(slab)))[0],
                )
                &&& final(slab).id == old(slab).id
                &&& final(slab).my_ref == old(slab).my_ref
                &&& final(slab).memo_wait_channels == old(slab).memo_wait_channels
                &&& final(slab).outbox == old(slab).outbox
            },
    {
        if self.root_index_seed.is_some() {
            return false;
        }
        if self.create_new_system_environment {
            let sid = slab.generate_subject_id(SubjectType::IndexNode);
            let memoref = slab.new_memo_basic_noparent(
                Some(sid),
                MemoBody::FullyMaterialized {
                    v: Vec::new(),
                    r: RelationSet::empty(),
                    e: EdgeSet::empty(),
                    t: SubjectType::IndexNode,
                },
            );
            let seed = memoref.to_head();
            self.root_index_seed = Some(RootIndexSeed { head: seed, from: slab.my_ref.clone() });
            return true;
        }
        false
    }

    /// The root index seed as known to `slab`, or the null head when there is none.
    pub fn get_root_index_seed(&self, slab: &Slab) -> (h: MemoRefHead)
        ensures
            h@ == match self.root_index_seed {
                Some(s) => head_for_slab(s.head@, SlabRefView { owning_slab_id: slab.id, ..s.from@ }, slab.id, true),
                None => HeadView::Null,
            },
    {
        match &self.root_index_seed {
            Some(seed) => {
                let local_slabref = seed.from.clone_for_slab(slab);
                seed.head.clone_for_slab(&local_slabref, slab, true)
            },
            None => MemoRefHead::Null,
        }
    }
}

impl Slab {
    /// A new slab on `net`: it gets the next slab id, a handle on itself reachable locally,
    /// fresh counters, and registers with the network; the first slab of a new system also
    /// creates the root index seed.
    pub fn new(net: &mut Network) -> (slab: Slab)
        requires
            old(net).next_slab_id < u32::MAX,
        ensures
            slab.id == old(net).next_slab_id,
            slab.my_ref@ == (SlabRefView {
                owning_slab_id: slab.id,
                to_slab_id: slab.id,
                presence: Seq::empty(),
                return_address: TransportAddress::Local,
            }),
            final(net).next_slab_id == old(net).next_slab_id + 1,
            final(net).next_context_id == old(net).next_context_id,
            final(net).slabs@ == old(net).slabs@.push(slab.id),
            final(net).create_new_system_environment == old(net).create_new_system_environment,
            slab.memo_wait_channels@ == Map::<MemoId, usize>::empty(),
            slab.outbox@ == Seq::<crate::slabref::Transmission>::empty(),
            ({
                let fresh = Slab {
                    counters: SlabCounters {
                        last_memo_id: 5000,
                        last_subject_id: 9000,
                        memos_received: 0,
                        memos_redundantly_received: 0,
                    },
                    ..slab
                };
                if old(net).root_index_seed is None && old(net).create_new_system_environment {
                    &&& final(net).root_index_seed is Some
                    &&& final(net).root_index_seed->Some_0.head@ == root_seed_head(fresh)
                    &&& final(net).root_index_seed->Some_0.from@ == slab.my_ref@
                    &&& slab.counters == (SlabCounters { last_memo_id: 5001, last_subject_id: 9001, ..fresh.counters })
                    &&& table_view(slab.memorefs_by_id@) == Map::<MemoId, RefView>::empty().insert(
                        head_refs(root_seed_head(fresh))[0].id,
                        head_refs(root_seed_head(fresh))[0],
                    )
                } else {
                    &&& final(net).root_index_seed == old(net).root_index_seed
                    &&& slab.counters == fresh.counters
                    &&& slab.memorefs_by_id@ == Map::<MemoId, crate::memo::MemoRef>::empty()
                }
            }),
    {
        let slab_id = net.generate_slab_id();
        let my_ref = SlabRef {
            owning_slab_id: slab_id,
            to_slab_id: slab_id,
            presence: Vec::new(),
            return_address: TransportAddress::Local,
        };
        let mut me = Slab {
            id: slab_id,
            my_ref,
            counters: SlabCounters {
                last_memo_id: 5000,
                last_subject_id: 9000,
                memos_received: 0,
                memos_redundantly_received: 0,
            },
            memorefs_by_id: HashMap::new(),
            memo_wait_channels: HashMap::new(),
            outbox: Vec::new(),
        };
        let ghost fresh = me;
        net.register_local_slab(&me);
        net.conditionally_generate_root_index_seed(&mut me);
        proof {
            assert(table_view(fresh.memorefs_by_id@) =~= Map::<MemoId, RefView>::empty());
        }
        me
    }

    /// The root index seed as known to this slab.
    pub fn get_root_index_seed(&self, net: &Network) -> (h: MemoRefHead)
        ensures
            h@ == match net.root_index_seed {
                Some(s) => head_for_slab(s.head@, SlabRefView { owning_slab_id: self.id, ..s.from@ }, self.id, true),
                None => HeadView::Null,
            },
    {
        net.get_root_index_seed(self)
    }
}

} // verus!
