//! Making lineages readable on a slab.  Walking a lineage (to tell whether one memo descends
//! from another, to apply memos to a head, to project edges) reads every memo on the way;
//! a memo that is not resident must first be retrieved from a peer.  `first_gap` names the
//! first memo a walk could not read, and `install` puts a retrieved memo in every place of a
//! lineage that refers to it, so that the retrieval and the walk can take turns.
use std::sync::Arc;
use vstd::prelude::*;
use crate::types::{MemoId, SlabId};
use crate::slabref::{SlabRef, SlabRefView};
use crate::slab::Slab;
use crate::memo::{
    HeadView, Memo, MemoRef, MemoRefHead, MemoRefPtr, MemoRefShared, MemoView, RefView,
    head_refs, lemma_refs_view, lemma_refs_view_push, lineage_local, refs_local, refs_view,
};
use crate::memorefhead::head_for_slab;

verus! {

/// The first reference met, walking `r`'s lineage (each memo before its parents, parents in
/// order), that cannot be read on slab `slab_id`: one the slab does not own, or one whose
/// memo is not resident.
pub open spec fn ref_gap(r: RefView, slab_id: SlabId) -> Option<RefView>
    decreases r, 1nat,
{
    if r.owning_slab_id != slab_id {
        Some(r)
    } else {
        match r.memo {
            None => Some(r),
            Some(m) => match m.parents {
                HeadView::Null => None,
                HeadView::Subject { refs, .. } => refs_gap(refs, slab_id),
                HeadView::Anonymous { refs } => refs_gap(refs, slab_id),
            },
        }
    }
}

/// The first gap in the lineages of `rs`, taken in order.
pub open spec fn refs_gap(rs: Seq<RefView>, slab_id: SlabId) -> Option<RefView>
    decreases rs, 0nat,
{
    if rs.len() == 0 {
        None
    } else {
        match refs_gap(rs.drop_last(), slab_id) {
            Some(g) => Some(g),
            None => ref_gap(rs.last(), slab_id),
        }
    }
}

/// The reference `r` with the memo `m` put wherever its lineage refers to `m` without
/// holding it.
pub open spec fn install_ref(r: RefView, m: MemoView) -> RefView
    decreases r, 1nat,
{
    match r.memo {
        None => if r.id == m.id {
            RefView { memo: Some(m), ..r }
        } else {
            r
        },
        Some(mm) => RefView {
            memo: Some(
                MemoView {
                    parents: match mm.parents {
                        HeadView::Null => HeadView::Null,
                        HeadView::Subject { subject_id, refs } => HeadView::Subject {
                            subject_id,
                            refs: install_refs(refs, m),
                        },
                        HeadView::Anonymous { refs } => HeadView::Anonymous { refs: install_refs(refs, m) },
                    },
                    ..mm
                },
            ),
            ..r
        },
    }
}

pub open spec fn install_refs(rs: Seq<RefView>, m: MemoView) -> Seq<RefView>
    decreases rs, 0nat,
{
    if rs.len() == 0 {
        Seq::empty()
    } else {
        install_refs(rs.drop_last(), m).push(install_ref(rs.last(), m))
    }
}

/// The head `h` with the memo `m` put wherever its lineage refers to `m` without holding it.
pub open spec fn install_head(h: HeadView, m: MemoView) -> HeadView {
    match h {
        HeadView::Null => HeadView::Null,
        HeadView::Subject { subject_id, refs } => HeadView::Subject { subject_id, refs: install_refs(refs, m) },
        HeadView::Anonymous { refs } => HeadView::Anonymous { refs: install_refs(refs, m) },
    }
}

/// The memo `m`, sent by the slab `from` points to, as slab `slab_id` keeps it: owned by
/// the slab, with its parents known as remote memos held by that peer.
pub open spec fn received_memo(m: MemoView, from: SlabRefView, slab_id: SlabId) -> MemoView {
    MemoView { owning_slab_id: slab_id, parents: head_for_slab(m.parents, from, slab_id, false), ..m }
}

/// Whether the lineage of `r` refers to the memo `id` without holding it.
pub open spec fn lacks(r: RefView, id: MemoId) -> bool
    decreases r, 1nat,
{
    match r.memo {
        None => r.id == id,
        Some(m) => match m.parents {
            HeadView::Null => false,
            HeadView::Subject { refs, .. } => refs_lack(refs, id),
            HeadView::Anonymous { refs } => refs_lack(refs, id),
        },
    }
}

pub open spec fn refs_lack(rs: Seq<RefView>, id: MemoId) -> bool
    decreases rs, 0nat,
{
    rs.len() > 0 && (refs_lack(rs.drop_last(), id) || lacks(rs.last(), id))
}

/// A lineage without gaps is one that can be walked on the slab.
pub proof fn lemma_ref_gap(r: RefView, slab_id: SlabId)
    ensures
        (ref_gap(r, slab_id) is None) == lineage_local(r, slab_id),
    decreases r, 1nat,
{
    if r.owning_slab_id == slab_id {
        match r.memo {
            Some(m) => match m.parents {
                HeadView::Null => {},
                HeadView::Subject { refs, .. } => lemma_refs_gap(refs, slab_id),
                HeadView::Anonymous { refs } => lemma_refs_gap(refs, slab_id),
            },
            None => {},
        }
    }
}

pub proof fn lemma_refs_gap(rs: Seq<RefView>, slab_id: SlabId)
    ensures
        (refs_gap(rs, slab_id) is None) == refs_local(rs, slab_id),
    decreases rs, 0nat,
{
    if rs.len() > 0 {
        lemma_refs_gap(rs.drop_last(), slab_id);
        lemma_ref_gap(rs.last(), slab_id);
    }
}

/// Installing keeps a reference's identity: its memo id, owner, subject and peers.
pub proof fn lemma_install_ref_keeps(r: RefView, m: MemoView)
    ensures
        install_ref(r, m).id == r.id,
        install_ref(r, m).owning_slab_id == r.owning_slab_id,
        install_ref(r, m).subject_id == r.subject_id,
        install_ref(r, m).peers == r.peers,
        r.memo is Some ==> install_ref(r, m).memo is Some,
{
}

impl MemoRef {
    /// The first reference in this memo's lineage that cannot be read on slab `slab_id`.
    pub fn first_gap(&self, slab_id: SlabId) -> (g: Option<MemoRef>)
        ensures
            g is None ==> ref_gap(self@, slab_id) is None,
            g is Some ==> ref_gap(self@, slab_id) == Some(g->Some_0@),
        decreases self,
    {
        if self.owning_slab_id != slab_id {
            return Some(self.clone());
        }
        match &self.shared.ptr {
            MemoRefPtr::Remote => Some(self.clone()),
            MemoRefPtr::Resident(m) => {
                let mm: &Memo = &**m;
                let parents: &Vec<MemoRef> = match &mm.parents {
                    MemoRefHead::Null => {
                        return None;
                    },
                    MemoRefHead::Subject { head, .. } => head,
                    MemoRefHead::Anonymous { head } => head,
                };
                proof {
                    assert(refs_view(parents@) == head_refs(mm@.parents));
                }
                refs_first_gap(parents, slab_id)
            },
        }
    }

    /// This reference with the memo `memo` put wherever its lineage refers to it without
    /// holding it.
    pub fn installed(&self, memo: &Memo) -> (r: MemoRef)
        ensures
            r@ == install_ref(self@, memo@),
            r.shared.id == self.shared.id,
        decreases self,
    {
        match &self.shared.ptr {
            MemoRefPtr::Remote => {
                if self.id == memo.id {
                    let r = MemoRef {
                        id: self.id,
                        owning_slab_id: self.owning_slab_id,
                        subject_id: self.subject_id,
                        shared: MemoRefShared {
                            id: self.shared.id,
                            peers: self.shared.peers.clone(),
                            ptr: MemoRefPtr::Resident(Arc::new(memo.clone())),
                        },
                    };
                    r
                } else {
                    self.clone()
                }
            },
            MemoRefPtr::Resident(m) => {
                let mm: &Memo = &**m;
                let parents = match &mm.parents {
                    MemoRefHead::Null => MemoRefHead::Null,
                    MemoRefHead::Subject { subject_id, head } => MemoRefHead::Subject {
                        subject_id: *subject_id,
                        head: refs_installed(head, memo),
                    },
                    MemoRefHead::Anonymous { head } => MemoRefHead::Anonymous {
                        head: refs_installed(head, memo),
                    },
                };
                let inner = Memo {
                    id: mm.id,
                    owning_slab_id: mm.owning_slab_id,
                    subject_id: mm.subject_id,
                    parents,
                    body: mm.body.clone(),
                };
                let r = MemoRef {
                    id: self.id,
                    owning_slab_id: self.owning_slab_id,
                    subject_id: self.subject_id,
                    shared: MemoRefShared {
                        id: self.shared.id,
                        peers: self.shared.peers.clone(),
                        ptr: MemoRefPtr::Resident(Arc::new(inner)),
                    },
                };
                assert(r@.memo->Some_0.parents == install_ref(self@, memo@).memo->Some_0.parents);
                r
            },
        }
    }
}

/// The first gap in the lineages of `v`, taken in order.
pub fn refs_first_gap(v: &Vec<MemoRef>, slab_id: SlabId) -> (g: Option<MemoRef>)
    ensures
        g is None ==> refs_gap(refs_view(v@), slab_id) is None,
        g is Some ==> refs_gap(refs_view(v@), slab_id) == Some(g->Some_0@),
    decreases v,
{
    let ghost rs = refs_view(v@);
    proof {
        lemma_refs_view(v@);
    }
    let mut i: usize = 0;
    while i < v.len()
        invariant
            i <= v@.len(),
            rs == refs_view(v@),
            rs.len() == v@.len(),
            forall|j: int| 0 <= j < rs.len() ==> #[trigger] rs[j] == v@[j]@,
            refs_gap(rs.subrange(0, i as int), slab_id) is None,
        decreases v@.len() - i,
    {
        proof {
            assert(rs.subrange(0, i + 1).drop_last() =~= rs.subrange(0, i as int));
            assert(rs.subrange(0, i + 1).last() == rs[i as int]);
            broadcast use vstd::std_specs::vec::axiom_vec_index_decreases;
            assert(decreases_to!(*v => v[i as int]));
        }
        let g = v[i].first_gap(slab_id);
        if g.is_some() {
            proof {
                lemma_refs_gap_prefix(rs, slab_id, i + 1);
            }
            return g;
        }
        i += 1;
    }
    assert(rs.subrange(0, v@.len() as int) =~= rs);
    None
}

/// A gap in a prefix is the gap of the whole sequence.
proof fn lemma_refs_gap_prefix(rs: Seq<RefView>, slab_id: SlabId, i: int)
    requires
        0 <= i <= rs.len(),
        refs_gap(rs.subrange(0, i), slab_id) is Some,
    ensures
        refs_gap(rs, slab_id) == refs_gap(rs.subrange(0, i), slab_id),
    decreases rs.len() - i,
{
    if i < rs.len() {
        assert(rs.subrange(0, i + 1).drop_last() =~= rs.subrange(0, i));
        lemma_refs_gap_prefix(rs, slab_id, i + 1);
    } else {
        assert(rs.subrange(0, i) =~= rs);
    }
}

/// The references `v` with the memo `memo` installed in their lineages.
pub fn refs_installed(v: &Vec<MemoRef>, memo: &Memo) -> (res: Vec<MemoRef>)
    ensures
        refs_view(res@) == install_refs(refs_view(v@), memo@),
    decreases v,
{
    let ghost rs = refs_view(v@);
    proof {
        lemma_refs_view(v@);
    }
    let mut res: Vec<MemoRef> = Vec::new();
    let mut i: usize = 0;
    while i < v.len()
        invariant
            i <= v@.len(),
            rs == refs_view(v@),
            rs.len() == v@.len(),
            forall|j: int| 0 <= j < rs.len() ==> #[trigger] rs[j] == v@[j]@,
            refs_view(res@) == install_refs(rs.subrange(0, i as int), memo@),
        decreases v@.len() - i,
    {
        proof {
            assert(rs.subrange(0, i + 1).drop_last() =~= rs.subrange(0, i as int));
            assert(rs.subrange(0, i + 1).last() == rs[i as int]);
            broadcast use vstd::std_specs::vec::axiom_vec_index_decreases;
            assert(decreases_to!(*v => v[i as int]));
        }
        let r = v[i].installed(memo);
        proof {
            lemma_refs_view_push(res@, r);
        }
        res.push(r);
        i += 1;
    }
    assert(rs.subrange(0, v@.len() as int) =~= rs);
    res
}

impl MemoRefHead {
    /// The first reference in this head's lineage that cannot be read on slab `slab_id`:
    /// `None` exactly when the lineage can be walked there.
    pub fn first_gap(&self, slab_id: SlabId) -> (g: Option<MemoRef>)
        ensures
            g is None <==> refs_local(head_refs(self@), slab_id),
            g is Some ==> refs_gap(head_refs(self@), slab_id) == Some(g->Some_0@),
    {
        proof {
            lemma_refs_gap(head_refs(self@), slab_id);
        }
        match self {
            MemoRefHead::Null => {
                proof {
                    assert(head_refs(self@) =~= Seq::<RefView>::empty());
                }
                None
            },
            MemoRefHead::Subject { head, .. } => refs_first_gap(head, slab_id),
            MemoRefHead::Anonymous { head } => refs_first_gap(head, slab_id),
        }
    }

    /// Puts the memo `memo`, retrieved from the slab `from` points to, wherever this head's
    /// lineage refers to it without holding it.
    pub fn install(&mut self, memo: &Memo, from: &SlabRef, slab: &Slab)
        ensures
            final(self)@ == install_head(old(self)@, received_memo(memo@, from@, slab.id)),
    {
        let received = receive_memo(memo, from, slab);
        let h = match &*self {
            MemoRefHead::Null => MemoRefHead::Null,
            MemoRefHead::Subject { subject_id, head } => MemoRefHead::Subject {
                subject_id: *subject_id,
                head: refs_installed(head, &received),
            },
            MemoRefHead::Anonymous { head } => MemoRefHead::Anonymous { head: refs_installed(head, &received) },
        };
        *self = h;
    }
}

/// The memo `memo`, sent by the slab `from` points to, as `slab` keeps it.
pub fn receive_memo(memo: &Memo, from: &SlabRef, slab: &Slab) -> (m: Memo)
    ensures
        m@ == received_memo(memo@, from@, slab.id),
{
    Memo {
        id: memo.id,
        owning_slab_id: slab.id,
        subject_id: memo.subject_id,
        parents: memo.parents.clone_for_slab(from, slab, false),
        body: memo.body.clone(),
    }
}

} // verus!
