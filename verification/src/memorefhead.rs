//! Heads: the most recent memos of a subject, how they merge, and what they project.
use vstd::prelude::*;
use crate::types::{MemoId, RelationSlotId, SlabId, SubjectId};
use crate::slab::Slab;
use crate::slabref::{SlabRef, SlabRefView};
use crate::memo::{
    BodyView, EdgeEntry, EdgeView, HeadView, MemoBody, MemoRef, MemoRefHead, MemoRefPtr, RefView,
    edges_view, head_from_ref, head_refs, head_subject, lemma_edges_view, lemma_edges_view_push,
    lemma_refs_local, lemma_refs_view, lemma_refs_view_push, lineage_local, ref_descends,
    refs_local, refs_view,
};
use crate::memoref::ref_for_slab;
use crate::lineage::{lemma_ref_gap, lemma_refs_gap, ref_gap, refs_gap};

verus! {

/// Whether every memo of `a` equals or descends from every memo of `b` (both non-empty).
pub open spec fn head_descends_or_contains(a: HeadView, b: HeadView) -> bool {
    let ra = head_refs(a);
    let rb = head_refs(b);
    &&& ra.len() > 0
    &&& rb.len() > 0
    &&& forall|i: int, j: int|
        0 <= i < ra.len() && 0 <= j < rb.len() ==> (#[trigger] ra[i]).id == (#[trigger] rb[j]).id
            || ref_descends(ra[i], rb[j].id)
}

/// Whether `new` adds nothing to `refs`: it is already there, or some memo there descends
/// from it.
pub open spec fn absorbs(refs: Seq<RefView>, new: RefView) -> bool {
    exists|i: int| 0 <= i < refs.len() && ((#[trigger] refs[i]).id == new.id || ref_descends(refs[i], new.id))
}

/// The memos of `refs` that `new` does not descend from, in order.
pub open spec fn keep_undescended(refs: Seq<RefView>, new: RefView) -> Seq<RefView>
    decreases refs.len(),
{
    if refs.len() == 0 {
        Seq::empty()
    } else {
        let p = keep_undescended(refs.drop_last(), new);
        if ref_descends(new, refs.last().id) {
            p
        } else {
            p.push(refs.last())
        }
    }
}

/// The memos of a head after `new` is applied: unchanged when it adds nothing; otherwise
/// the memos it descends from leave and it joins at the end.
pub open spec fn apply_ref(refs: Seq<RefView>, new: RefView) -> Seq<RefView> {
    if absorbs(refs, new) {
        refs
    } else {
        keep_undescended(refs, new).push(new)
    }
}

/// A head after `new` is applied; a null head becomes the head of `new` alone.
pub open spec fn apply_ref_head(h: HeadView, new: RefView) -> HeadView {
    match h {
        HeadView::Null => head_from_ref(new),
        HeadView::Subject { subject_id, refs } => HeadView::Subject { subject_id, refs: apply_ref(refs, new) },
        HeadView::Anonymous { refs } => HeadView::Anonymous { refs: apply_ref(refs, new) },
    }
}

/// Whether applying `new` to `h` changes it.
pub open spec fn ref_applies(h: HeadView, new: RefView) -> bool {
    h is Null || !absorbs(head_refs(h), new)
}

/// A head after each of `news` is applied in turn.
pub open spec fn apply_refs_head(h: HeadView, news: Seq<RefView>) -> HeadView
    decreases news.len(),
{
    if news.len() == 0 {
        h
    } else {
        apply_ref_head(apply_refs_head(h, news.drop_last()), news.last())
    }
}

/// Whether one of `news` changed the head when applied in turn.
pub open spec fn refs_apply(h: HeadView, news: Seq<RefView>) -> bool
    decreases news.len(),
{
    if news.len() == 0 {
        false
    } else {
        refs_apply(h, news.drop_last()) || ref_applies(apply_refs_head(h, news.drop_last()), news.last())
    }
}

/// A head as known to the slab `to_slab_id`, learnt from the slab `from` points to.
pub open spec fn head_for_slab(h: HeadView, from: SlabRefView, to_slab_id: SlabId, include_memos: bool) -> HeadView {
    match h {
        HeadView::Null => HeadView::Null,
        HeadView::Subject { subject_id, refs } => HeadView::Subject {
            subject_id,
            refs: refs.map_values(|r: RefView| ref_for_slab(r, from, to_slab_id, include_memos)),
        },
        HeadView::Anonymous { refs } => HeadView::Anonymous {
            refs: refs.map_values(|r: RefView| ref_for_slab(r, from, to_slab_id, include_memos)),
        },
    }
}

/// The edges a memo contributes, newest first: a materialized memo gives its own edges and
/// ends the walk; an edge memo gives its edges and then those of its parents; any other memo
/// gives those of its parents.  A memo that is not resident gives none.
pub open spec fn ref_edges(r: RefView) -> Seq<EdgeView>
    decreases r, 1nat,
{
    match r.memo {
        Some(m) => {
            let pe = match m.parents {
                HeadView::Null => Seq::empty(),
                HeadView::Subject { refs, .. } => refs_edges(refs),
                HeadView::Anonymous { refs } => refs_edges(refs),
            };
            match m.body {
                BodyView::FullyMaterialized { e, .. } => e,
                BodyView::Edge(e) => e + pe,
                _ => pe,
            }
        },
        None => Seq::empty(),
    }
}

/// The edges of the memos `rs`, one memo after the other.
pub open spec fn refs_edges(rs: Seq<RefView>) -> Seq<EdgeView>
    decreases rs, 0nat,
{
    if rs.len() == 0 {
        Seq::empty()
    } else {
        refs_edges(rs.drop_last()) + ref_edges(rs.last())
    }
}

pub open spec fn slot_taken(es: Seq<EdgeView>, slot_id: RelationSlotId) -> bool {
    exists|k: int| 0 <= k < es.len() && (#[trigger] es[k]).slot_id == slot_id
}

/// The first edge found for each slot, in the order found.
pub open spec fn first_per_slot(es: Seq<EdgeView>) -> Seq<EdgeView>
    decreases es.len(),
{
    if es.len() == 0 {
        Seq::empty()
    } else {
        let p = first_per_slot(es.drop_last());
        if slot_taken(p, es.last().slot_id) {
            p
        } else {
            p.push(es.last())
        }
    }
}

/// The occupied edges of a head, projected from its history.
pub open spec fn projected_edges(h: HeadView) -> Seq<EdgeView> {
    first_per_slot(refs_edges(head_refs(h)))
}

/// An edge slot of a subject, and the head it holds when occupied.
#[derive(Debug)]
pub enum EdgeLink {
    Vacant { slot_id: RelationSlotId },
    Occupied { slot_id: RelationSlotId, head: MemoRefHead },
}

pub proof fn lemma_keep_undescended(refs: Seq<RefView>, new: RefView)
    ensures
        forall|i: int| 0 <= i < keep_undescended(refs, new).len() ==> exists|j: int|
            0 <= j < refs.len() && refs[j] == #[trigger] keep_undescended(refs, new)[i],
    decreases refs.len(),
{
    if refs.len() > 0 {
        lemma_keep_undescended(refs.drop_last(), new);
        let p = keep_undescended(refs.drop_last(), new);
        assert forall|i: int| 0 <= i < keep_undescended(refs, new).len() implies exists|j: int|
            0 <= j < refs.len() && refs[j] == #[trigger] keep_undescended(refs, new)[i] by {
            if i < p.len() {
                let j = choose|j: int| 0 <= j < refs.drop_last().len() && refs.drop_last()[j] == #[trigger] p[i];
                assert(refs[j] == refs.drop_last()[j]);
            } else {
                assert(refs[refs.len() - 1] == keep_undescended(refs, new)[i]);
            }
        }
    }
}

/// Applying a memo whose lineage is local to a head whose memos all have local lineage
/// gives a head whose memos all have local lineage.
pub proof fn lemma_apply_ref_head_local(h: HeadView, new: RefView, slab_id: SlabId)
    requires
        refs_local(head_refs(h), slab_id),
        lineage_local(new, slab_id),
    ensures
        refs_local(head_refs(apply_ref_head(h, new)), slab_id),
        head_subject(apply_ref_head(h, new)) == if h is Null { new.subject_id } else { head_subject(h) },
{
    lemma_refs_local(head_refs(h), slab_id);
    let r = head_refs(apply_ref_head(h, new));
    lemma_refs_local(r, slab_id);
    if !(h is Null) && !absorbs(head_refs(h), new) {
        lemma_keep_undescended(head_refs(h), new);
        let k = keep_undescended(head_refs(h), new);
        assert forall|i: int| 0 <= i < r.len() implies lineage_local(#[trigger] r[i], slab_id) by {
            if i < k.len() {
                let j = choose|j: int| 0 <= j < head_refs(h).len() && head_refs(h)[j] == #[trigger] k[i];
                assert(lineage_local(head_refs(h)[j], slab_id));
            }
        }
    }
    if h is Null {
        assert(r =~= seq![new]);
    }
}

pub proof fn lemma_apply_refs_head_local(h: HeadView, news: Seq<RefView>, slab_id: SlabId)
    requires
        refs_local(head_refs(h), slab_id),
        refs_local(news, slab_id),
    ensures
        refs_local(head_refs(apply_refs_head(h, news)), slab_id),
    decreases news.len(),
{
    if news.len() > 0 {
        lemma_apply_refs_head_local(h, news.drop_last(), slab_id);
        lemma_apply_ref_head_local(apply_refs_head(h, news.drop_last()), news.last(), slab_id);
    }
}

pub proof fn lemma_apply_refs_head_subject(h: HeadView, news: Seq<RefView>)
    requires
        h is Subject,
    ensures
        apply_refs_head(h, news) is Subject,
        head_subject(apply_refs_head(h, news)) == head_subject(h),
    decreases news.len(),
{
    if news.len() > 0 {
        lemma_apply_refs_head_subject(h, news.drop_last());
    }
}

impl MemoRefHead {
    /// The null head.
    pub fn new() -> (h: MemoRefHead)
        ensures
            h@ == HeadView::Null,
    {
        MemoRefHead::Null
    }

    /// The head made of `memoref` alone: a subject head when the memo belongs to a subject.
    pub fn from_memoref(memoref: MemoRef) -> (h: MemoRefHead)
        ensures
            h@ == head_from_ref(memoref@),
    {
        let ghost r = memoref@;
        let mut v: Vec<MemoRef> = Vec::new();
        proof {
            lemma_refs_view_push(v@, memoref);
        }
        let s = memoref.subject_id;
        v.push(memoref);
        assert(refs_view(v@) =~= seq![r]);
        match s {
            Some(subject_id) => MemoRefHead::Subject { subject_id, head: v },
            None => MemoRefHead::Anonymous { head: v },
        }
    }

    /// Whether this is the head of a subject.
    pub fn is_subject(&self) -> (b: bool)
        ensures
            b == self@ is Subject,
    {
        match self {
            MemoRefHead::Subject { .. } => true,
            _ => false,
        }
    }

    /// The number of memos in the head.
    pub fn len(&self) -> (n: usize)
        ensures
            n == head_refs(self@).len(),
    {
        match self {
            MemoRefHead::Null => 0,
            MemoRefHead::Subject { head, .. } => {
                proof { lemma_refs_view(head@); }
                head.len()
            },
            MemoRefHead::Anonymous { head } => {
                proof { lemma_refs_view(head@); }
                head.len()
            },
        }
    }

    /// The subject this head belongs to.
    pub fn subject_id(&self) -> (s: Option<SubjectId>)
        ensures
            s == head_subject(self@),
    {
        match self {
            MemoRefHead::Subject { subject_id, .. } => Some(*subject_id),
            _ => None,
        }
    }

    /// The ids of the memos in the head, in order.
    pub fn memo_ids(&self) -> (ids: Vec<MemoId>)
        ensures
            ids@ == head_refs(self@).map_values(|r: RefView| r.id),
    {
        let mut ids: Vec<MemoId> = Vec::new();
        let refs: &Vec<MemoRef> = match self {
            MemoRefHead::Null => {
                assert(ids@ =~= head_refs(self@).map_values(|r: RefView| r.id));
                return ids;
            },
            MemoRefHead::Subject { head, .. } => head,
            MemoRefHead::Anonymous { head } => head,
        };
        let ghost rs = head_refs(self@);
        proof {
            lemma_refs_view(refs@);
        }
        let mut i: usize = 0;
        while i < refs.len()
            invariant
                i <= refs@.len(),
                rs == refs_view(refs@),
                rs.len() == refs@.len(),
                forall|j: int| 0 <= j < rs.len() ==> #[trigger] rs[j] == refs@[j]@,
                ids@ == rs.subrange(0, i as int).map_values(|r: RefView| r.id),
            decreases refs@.len() - i,
        {
            assert(rs[i as int] == refs@[i as int]@);
            ids.push(refs[i].id);
            i += 1;
            assert(ids@ =~= rs.subrange(0, i as int).map_values(|r: RefView| r.id));
        }
        assert(rs.subrange(0, refs@.len() as int) =~= rs);
        ids
    }
}

/// The memo references held by a head, as a slice of the head's vector (none for null).
fn head_vec(h: &MemoRefHead) -> (v: &[MemoRef])
    ensures
        refs_view(v@) == head_refs(h@),
{
    match h {
        MemoRefHead::Null => {
            let e: &[MemoRef] = &[];
            assert(refs_view(e@) =~= Seq::empty());
            e
        },
        MemoRefHead::Subject { head, .. } => head.as_slice(),
        MemoRefHead::Anonymous { head } => head.as_slice(),
    }
}

/// The memo references of `refs` after `new` is applied, or `None` when `new` adds nothing.
fn apply_ref_vec(refs: &[MemoRef], new: &MemoRef, slab: &Slab) -> (res: Option<Vec<MemoRef>>)
    requires
        refs_local(refs_view(refs@), slab.id),
        refs@.len() > 0 ==> lineage_local(new@, slab.id),
    ensures
        res is None <==> absorbs(refs_view(refs@), new@),
        res is Some ==> refs_view(res.unwrap()@) == apply_ref(refs_view(refs@), new@),
{
    let ghost rs = refs_view(refs@);
    proof {
        lemma_refs_view(refs@);
        lemma_refs_local(rs, slab.id);
    }
    let mut i: usize = 0;
    while i < refs.len()
        invariant
            i <= refs@.len(),
            rs == refs_view(refs@),
            rs.len() == refs@.len(),
            forall|j: int| 0 <= j < rs.len() ==> #[trigger] rs[j] == refs@[j]@,
            forall|j: int| 0 <= j < rs.len() ==> lineage_local(#[trigger] rs[j], slab.id),
            forall|j: int| 0 <= j < i ==> !((#[trigger] rs[j]).id == new.id || ref_descends(rs[j], new.id)),
        decreases refs@.len() - i,
    {
        assert(rs[i as int] == refs@[i as int]@);
        if refs[i].id == new.id || refs[i].descends_resident(new, slab) {
            assert(rs[i as int].id == new@.id || ref_descends(rs[i as int], new@.id));
            return None;
        }
        i += 1;
    }
    let mut kept: Vec<MemoRef> = Vec::new();
    let mut i: usize = 0;
    while i < refs.len()
        invariant
            i <= refs@.len(),
            rs == refs_view(refs@),
            rs.len() == refs@.len(),
            forall|j: int| 0 <= j < rs.len() ==> #[trigger] rs[j] == refs@[j]@,
            refs@.len() > 0 ==> lineage_local(new@, slab.id),
            refs_view(kept@) == keep_undescended(rs.subrange(0, i as int), new@),
        decreases refs@.len() - i,
    {
        assert(rs.subrange(0, i + 1).drop_last() =~= rs.subrange(0, i as int));
        assert(rs.subrange(0, i + 1).last() == refs@[i as int]@);
        if !new.descends_resident(&refs[i], slab) {
            let c = refs[i].clone();
            proof {
                lemma_refs_view_push(kept@, c);
            }
            kept.push(c);
        }
        i += 1;
    }
    assert(rs.subrange(0, refs@.len() as int) =~= rs);
    let c = new.clone();
    proof {
        lemma_refs_view_push(kept@, c);
    }
    kept.push(c);
    Some(kept)
}

impl MemoRefHead {
    /// Whether every memo of this head equals or descends from every memo of `other`.
    /// The walk reads the memos of the lineages involved, which must be readable on the slab:
    /// `first_gap` names a memo a lineage lacks, and `install` puts that memo in once
    /// retrieved.
    pub fn descends_or_contains_resident(&self, other: &MemoRefHead, slab: &Slab) -> (b: bool)
        requires
            refs_local(head_refs(self@), slab.id),
        ensures
            b == head_descends_or_contains(self@, other@),
    {
        let mine = head_vec(self);
        let theirs = head_vec(other);
        if mine.len() == 0 || theirs.len() == 0 {
            proof {
                lemma_refs_view(mine@);
                lemma_refs_view(theirs@);
            }
            return false;
        }
        let ghost ra = head_refs(self@);
        let ghost rb = head_refs(other@);
        proof {
            lemma_refs_view(mine@);
            lemma_refs_view(theirs@);
            lemma_refs_local(ra, slab.id);
        }
        let mut i: usize = 0;
        while i < mine.len()
            invariant
                i <= mine@.len(),
                ra == head_refs(self@),
                rb == head_refs(other@),
                ra.len() == mine@.len() > 0,
                rb.len() == theirs@.len() > 0,
                forall|k: int| 0 <= k < ra.len() ==> #[trigger] ra[k] == mine@[k]@,
                forall|k: int| 0 <= k < rb.len() ==> #[trigger] rb[k] == theirs@[k]@,
                forall|k: int| 0 <= k < ra.len() ==> lineage_local(#[trigger] ra[k], slab.id),
                forall|k: int, l: int|
                    0 <= k < i && 0 <= l < rb.len() ==> (#[trigger] ra[k]).id == (#[trigger] rb[l]).id
                        || ref_descends(ra[k], rb[l].id),
            decreases mine@.len() - i,
        {
            let mut j: usize = 0;
            while j < theirs.len()
                invariant
                    i < mine@.len(),
                    j <= theirs@.len(),
                    ra == head_refs(self@),
                    rb == head_refs(other@),
                    ra.len() == mine@.len() > 0,
                    rb.len() == theirs@.len() > 0,
                    forall|k: int| 0 <= k < ra.len() ==> #[trigger] ra[k] == mine@[k]@,
                    forall|k: int| 0 <= k < rb.len() ==> #[trigger] rb[k] == theirs@[k]@,
                    forall|k: int| 0 <= k < ra.len() ==> lineage_local(#[trigger] ra[k], slab.id),
                    forall|l: int|
                        0 <= l < j ==> ra[i as int].id == (#[trigger] rb[l]).id
                            || ref_descends(ra[i as int], rb[l].id),
                decreases theirs@.len() - j,
            {
                assert(ra[i as int] == mine@[i as int]@);
                assert(rb[j as int] == theirs@[j as int]@);
                if mine[i].id == theirs[j].id {
                } else if !mine[i].descends_resident(&theirs[j], slab) {
                    assert(!(ra[i as int].id == rb[j as int].id || ref_descends(ra[i as int], rb[j as int].id)));
                    return false;
                }
                j += 1;
            }
            i += 1;
        }
        true
    }

    /// Applies `new` to this head: a null head becomes the head of `new`; otherwise `new`
    /// is left out when it is already there or some memo of the head descends from it, and
    /// else joins the head, replacing the memos it descends from.  Returns whether the head
    /// changed.
    /// The walk reads the memos of the lineages involved, which must be readable on the slab:
    /// `first_gap` names a memo a lineage lacks, and `install` puts that memo in once
    /// retrieved.
    pub fn apply_memoref_resident(&mut self, new: &MemoRef, slab: &Slab) -> (applied: bool)
        requires
            refs_local(head_refs(old(self)@), slab.id),
            head_refs(old(self)@).len() > 0 ==> lineage_local(new@, slab.id),
        ensures
            final(self)@ == apply_ref_head(old(self)@, new@),
            applied == ref_applies(old(self)@, new@),
    {
        match self {
            MemoRefHead::Null => {
                *self = MemoRefHead::from_memoref(new.clone());
                true
            },
            MemoRefHead::Subject { subject_id, head } => {
                let sid = *subject_id;
                match apply_ref_vec(head.as_slice(), new, slab) {
                    Some(v) => {
                        *self = MemoRefHead::Subject { subject_id: sid, head: v };
                        true
                    },
                    None => false,
                }
            },
            MemoRefHead::Anonymous { head } => {
                match apply_ref_vec(head.as_slice(), new, slab) {
                    Some(v) => {
                        *self = MemoRefHead::Anonymous { head: v };
                        true
                    },
                    None => false,
                }
            },
        }
    }

    /// Applies each memo of `other` in turn; returns whether any of them changed the head.
    /// The walk reads the memos of the lineages involved, which must be readable on the slab:
    /// `first_gap` names a memo a lineage lacks, and `install` puts that memo in once
    /// retrieved.
    pub fn apply_resident(&mut self, other: &MemoRefHead, slab: &Slab) -> (applied: bool)
        requires
            refs_local(head_refs(old(self)@), slab.id),
            refs_local(head_refs(other@), slab.id),
        ensures
            final(self)@ == apply_refs_head(old(self)@, head_refs(other@)),
            applied == refs_apply(old(self)@, head_refs(other@)),
    {
        let theirs = head_vec(other);
        let ghost rb = head_refs(other@);
        proof {
            lemma_refs_view(theirs@);
            lemma_refs_local(rb, slab.id);
        }
        let mut applied = false;
        let mut i: usize = 0;
        while i < theirs.len()
            invariant
                i <= theirs@.len(),
                rb == head_refs(other@),
                rb.len() == theirs@.len(),
                forall|k: int| 0 <= k < rb.len() ==> #[trigger] rb[k] == theirs@[k]@,
                forall|k: int| 0 <= k < rb.len() ==> lineage_local(#[trigger] rb[k], slab.id),
                refs_local(head_refs(old(self)@), slab.id),
                self@ == apply_refs_head(old(self)@, rb.subrange(0, i as int)),
                applied == refs_apply(old(self)@, rb.subrange(0, i as int)),
            decreases theirs@.len() - i,
        {
            proof {
                assert(rb.subrange(0, i + 1).drop_last() =~= rb.subrange(0, i as int));
                assert(rb.subrange(0, i + 1).last() == theirs@[i as int]@);
                lemma_refs_local(rb.subrange(0, i as int), slab.id);
                lemma_apply_refs_head_local(old(self)@, rb.subrange(0, i as int), slab.id);
            }
            if self.apply_memoref_resident(&theirs[i], slab) {
                applied = true;
            }
            i += 1;
        }
        assert(rb.subrange(0, theirs@.len() as int) =~= rb);
        applied
    }

    /// This head as known to the slab `to_slab`, learnt from the slab `from_slabref` points
    /// to.
    pub fn clone_for_slab(&self, from_slabref: &SlabRef, to_slab: &Slab, include_memos: bool) -> (h: MemoRefHead)
        ensures
            h@ == head_for_slab(self@, from_slabref@, to_slab.id, include_memos),
    {
        let mine = head_vec(self);
        let ghost ra = head_refs(self@);
        proof {
            lemma_refs_view(mine@);
        }
        let mut v: Vec<MemoRef> = Vec::new();
        let mut i: usize = 0;
        while i < mine.len()
            invariant
                i <= mine@.len(),
                ra == head_refs(self@),
                ra.len() == mine@.len(),
                forall|k: int| 0 <= k < ra.len() ==> #[trigger] ra[k] == mine@[k]@,
                refs_view(v@) == ra.subrange(0, i as int).map_values(
                    |r: RefView| ref_for_slab(r, from_slabref@, to_slab.id, include_memos),
                ),
            decreases mine@.len() - i,
        {
            let c = mine[i].clone_for_slab(from_slabref, to_slab, include_memos);
            proof {
                lemma_refs_view_push(v@, c);
                assert(ra[i as int] == mine@[i as int]@);
            }
            v.push(c);
            i += 1;
            assert(refs_view(v@) =~= ra.subrange(0, i as int).map_values(
                |r: RefView| ref_for_slab(r, from_slabref@, to_slab.id, include_memos),
            ));
        }
        assert(ra.subrange(0, mine@.len() as int) =~= ra);
        match self {
            MemoRefHead::Null => MemoRefHead::Null,
            MemoRefHead::Subject { subject_id, .. } => MemoRefHead::Subject { subject_id: *subject_id, head: v },
            MemoRefHead::Anonymous { .. } => MemoRefHead::Anonymous { head: v },
        }
    }
}

pub proof fn lemma_refs_edges_push(s: Seq<RefView>, r: RefView)
    ensures
        refs_edges(s.push(r)) == refs_edges(s) + ref_edges(r),
{
    assert(s.push(r).drop_last() =~= s);
}

/// Appends copies of `es` to `out`.
fn append_edges(es: &Vec<EdgeEntry>, out: &mut Vec<EdgeEntry>)
    ensures
        edges_view(final(out)@) == edges_view(old(out)@) + edges_view(es@),
{
    let mut i: usize = 0;
    while i < es.len()
        invariant
            i <= es@.len(),
            edges_view(out@) == edges_view(old(out)@) + edges_view(es@.subrange(0, i as int)),
        decreases es@.len() - i,
    {
        let c = es[i].clone();
        proof {
            lemma_edges_view_push(out@, c);
            lemma_edges_view_push(es@.subrange(0, i as int), es@[i as int]);
            assert(es@.subrange(0, i as int).push(es@[i as int]) =~= es@.subrange(0, i + 1));
        }
        out.push(c);
        i += 1;
        assert(edges_view(out@) =~= edges_view(old(out)@) + edges_view(es@.subrange(0, i as int)));
    }
    assert(es@.subrange(0, es@.len() as int) =~= es@);
}

/// Appends the edges the memo `r` contributes (see `ref_edges`).
fn collect_ref_edges(r: &MemoRef, out: &mut Vec<EdgeEntry>)
    ensures
        edges_view(final(out)@) == edges_view(old(out)@) + ref_edges(r@),
    decreases r, 1nat,
{
    match &r.shared.ptr {
        MemoRefPtr::Remote => {
            assert(edges_view(out@) =~= edges_view(old(out)@) + ref_edges(r@));
        },
        MemoRefPtr::Resident(m) => {
            let memo: &crate::memo::Memo = &**m;
            let parents: Option<&Vec<MemoRef>> = match &memo.parents {
                MemoRefHead::Null => None,
                MemoRefHead::Subject { head, .. } => Some(head),
                MemoRefHead::Anonymous { head } => Some(head),
            };
            let ghost pe = match memo@.parents {
                HeadView::Null => Seq::<EdgeView>::empty(),
                HeadView::Subject { refs, .. } => refs_edges(refs),
                HeadView::Anonymous { refs } => refs_edges(refs),
            };
            proof {
                if let Some(v) = parents {
                    assert(decreases_to!(*r => *v));
                    assert(pe == refs_edges(refs_view(v@)));
                } else {
                    assert(pe =~= Seq::<EdgeView>::empty());
                }
            }
            match &memo.body {
                MemoBody::FullyMaterialized { e, .. } => {
                    append_edges(&e.edges, out);
                },
                MemoBody::Edge(e) => {
                    append_edges(&e.edges, out);
                    if let Some(v) = parents {
                        collect_refs_edges(v, out);
                    }
                    assert(edges_view(out@) =~= edges_view(old(out)@) + ref_edges(r@));
                },
                _ => {
                    if let Some(v) = parents {
                        collect_refs_edges(v, out);
                    }
                    assert(edges_view(out@) =~= edges_view(old(out)@) + ref_edges(r@));
                },
            }
        },
    }
}

/// Appends the edges the memos `refs` contribute, one memo after the other.
fn collect_refs_edges(refs: &Vec<MemoRef>, out: &mut Vec<EdgeEntry>)
    ensures
        edges_view(final(out)@) == edges_view(old(out)@) + refs_edges(refs_view(refs@)),
    decreases refs, 0nat,
{
    let ghost rv = *refs;
    let mut i: usize = 0;
    while i < refs.len()
        invariant
            i <= refs@.len(),
            rv == *refs,
            edges_view(out@) == edges_view(old(out)@) + refs_edges(refs_view(refs@.subrange(0, i as int))),
        decreases refs@.len() - i,
    {
        proof {
            broadcast use vstd::std_specs::vec::axiom_vec_index_decreases;
            assert(decreases_to!(rv => rv[i as int]));
            lemma_refs_view_push(refs@.subrange(0, i as int), refs@[i as int]);
            assert(refs@.subrange(0, i as int).push(refs@[i as int]) =~= refs@.subrange(0, i + 1));
            lemma_refs_edges_push(refs_view(refs@.subrange(0, i as int)), refs@[i as int]@);
        }
        collect_ref_edges(&refs[i], out);
        i += 1;
        assert(edges_view(out@) =~= edges_view(old(out)@) + refs_edges(refs_view(refs@.subrange(0, i as int))));
    }
    assert(refs@.subrange(0, refs@.len() as int) =~= refs@);
}

/// Whether some edge of `es` has slot `slot_id`.
fn slot_in(es: &Vec<EdgeEntry>, slot_id: RelationSlotId) -> (b: bool)
    ensures
        b == slot_taken(edges_view(es@), slot_id),
{
    proof {
        lemma_edges_view(es@);
    }
    let mut i: usize = 0;
    while i < es.len()
        invariant
            i <= es@.len(),
            edges_view(es@).len() == es@.len(),
            forall|k: int| 0 <= k < es@.len() ==> #[trigger] edges_view(es@)[k] == es@[k]@,
            forall|k: int| 0 <= k < i ==> (#[trigger] edges_view(es@)[k]).slot_id != slot_id,
        decreases es@.len() - i,
    {
        if es[i].slot_id == slot_id {
            assert(edges_view(es@)[i as int].slot_id == slot_id);
            return true;
        }
        i += 1;
    }
    false
}

impl MemoRefHead {
    /// The occupied edges of this head, projected from its history without regard to any
    /// context: for each slot, the first edge met walking the memos newest first.
    /// The walk reads the memos of the lineages involved, which must be readable on the slab:
    /// `first_gap` names a memo a lineage lacks, and `install` puts that memo in once
    /// retrieved.
    pub fn project_occupied_edges_resident(&self, slab: &Slab) -> (links: Vec<EdgeLink>)
        requires
            refs_local(head_refs(self@), slab.id),
        ensures
            links@.len() == projected_edges(self@).len(),
            forall|i: int|
                0 <= i < links@.len() ==> (#[trigger] links@[i]) is Occupied
                    && links@[i]->Occupied_slot_id == projected_edges(self@)[i].slot_id
                    && links@[i]->Occupied_head@ == projected_edges(self@)[i].head,
    {
        let mut all: Vec<EdgeEntry> = Vec::new();
        match self {
            MemoRefHead::Null => {},
            MemoRefHead::Subject { head, .. } => collect_refs_edges(head, &mut all),
            MemoRefHead::Anonymous { head } => collect_refs_edges(head, &mut all),
        }
        let ghost ev = refs_edges(head_refs(self@));
        assert(edges_view(all@) =~= ev);
        proof {
            lemma_edges_view(all@);
        }
        let mut kept: Vec<EdgeEntry> = Vec::new();
        let mut i: usize = 0;
        while i < all.len()
            invariant
                i <= all@.len(),
                ev.len() == all@.len(),
                forall|k: int| 0 <= k < ev.len() ==> #[trigger] ev[k] == all@[k]@,
                edges_view(kept@) == first_per_slot(ev.subrange(0, i as int)),
            decreases all@.len() - i,
        {
            proof {
                assert(ev.subrange(0, i + 1).drop_last() =~= ev.subrange(0, i as int));
                assert(ev.subrange(0, i + 1).last() == all@[i as int]@);
            }
            if !slot_in(&kept, all[i].slot_id) {
                let c = all[i].clone();
                proof {
                    lemma_edges_view_push(kept@, c);
                }
                kept.push(c);
            }
            i += 1;
        }
        assert(ev.subrange(0, all@.len() as int) =~= ev);
        let ghost p = projected_edges(self@);
        proof {
            lemma_edges_view(kept@);
        }
        let mut links: Vec<EdgeLink> = Vec::new();
        let mut i: usize = 0;
        while i < kept.len()
            invariant
                i <= kept@.len(),
                p.len() == kept@.len(),
                forall|k: int| 0 <= k < p.len() ==> #[trigger] p[k] == kept@[k]@,
                links@.len() == i,
                forall|k: int|
                    0 <= k < i ==> (#[trigger] links@[k]) is Occupied
                        && links@[k]->Occupied_slot_id == p[k].slot_id
                        && links@[k]->Occupied_head@ == p[k].head,
            decreases kept@.len() - i,
        {
            assert(p[i as int] == kept@[i as int]@);
            links.push(EdgeLink::Occupied { slot_id: kept[i].slot_id, head: kept[i].head.clone() });
            i += 1;
        }
        links
    }
}

/// The first reference that applying `new` to `h` would need to read and cannot on slab
/// `slab_id`: in the head's lineages, then (when the head has memos) in `new`'s.
pub open spec fn apply_gap(h: HeadView, new: RefView, slab_id: SlabId) -> Option<RefView> {
    match refs_gap(head_refs(h), slab_id) {
        Some(g) => Some(g),
        None => if head_refs(h).len() > 0 {
            ref_gap(new, slab_id)
        } else {
            None
        },
    }
}

/// The first reference that applying the memos `news` to `h` would need to read and cannot
/// on slab `slab_id`: in the head's lineages, then in those of `news`.
pub open spec fn apply_all_gap(h: HeadView, news: Seq<RefView>, slab_id: SlabId) -> Option<RefView> {
    match refs_gap(head_refs(h), slab_id) {
        Some(g) => Some(g),
        None => refs_gap(news, slab_id),
    }
}

impl MemoRefHead {
    /// Whether every memo of this head equals or descends from every memo of `other`, or,
    /// when the walk meets a memo of this head's lineage that cannot be read on the slab,
    /// that memo's reference, for the caller to retrieve and `install`.
    pub fn descends_or_contains(&self, other: &MemoRefHead, slab: &Slab) -> (res: Result<bool, MemoRef>)
        ensures
            refs_gap(head_refs(self@), slab.id) is None ==> res == Ok::<bool, MemoRef>(
                head_descends_or_contains(self@, other@),
            ),
            refs_gap(head_refs(self@), slab.id) is Some ==> res is Err && Some(res->Err_0@) == refs_gap(
                head_refs(self@),
                slab.id,
            ),
    {
        proof {
            lemma_refs_gap(head_refs(self@), slab.id);
        }
        match self.first_gap(slab.id) {
            Some(g) => Err(g),
            None => Ok(self.descends_or_contains_resident(other, slab)),
        }
    }

    /// Applies `new` to this head (see `apply_memoref_resident`) and returns whether the head
    /// changed; when the walk needs a memo that cannot be read on the slab, the head is left
    /// as it is and that memo's reference is returned.
    pub fn apply_memoref(&mut self, new: &MemoRef, slab: &Slab) -> (res: Result<bool, MemoRef>)
        ensures
            apply_gap(old(self)@, new@, slab.id) is None ==> {
                &&& final(self)@ == apply_ref_head(old(self)@, new@)
                &&& res == Ok::<bool, MemoRef>(ref_applies(old(self)@, new@))
            },
            apply_gap(old(self)@, new@, slab.id) is Some ==> {
                &&& *final(self) == *old(self)
                &&& res is Err
                &&& Some(res->Err_0@) == apply_gap(old(self)@, new@, slab.id)
            },
    {
        proof {
            lemma_refs_gap(head_refs(self@), slab.id);
            lemma_ref_gap(new@, slab.id);
        }
        if let Some(g) = self.first_gap(slab.id) {
            return Err(g);
        }
        if self.len() > 0 {
            if let Some(g) = new.first_gap(slab.id) {
                return Err(g);
            }
        }
        Ok(self.apply_memoref_resident(new, slab))
    }

    /// Applies each memo of `other` in turn and returns whether any changed the head; when
    /// the walk needs a memo that cannot be read on the slab, the head is left as it is and
    /// that memo's reference is returned.
    pub fn apply(&mut self, other: &MemoRefHead, slab: &Slab) -> (res: Result<bool, MemoRef>)
        ensures
            apply_all_gap(old(self)@, head_refs(other@), slab.id) is None ==> {
                &&& final(self)@ == apply_refs_head(old(self)@, head_refs(other@))
                &&& res == Ok::<bool, MemoRef>(refs_apply(old(self)@, head_refs(other@)))
            },
            apply_all_gap(old(self)@, head_refs(other@), slab.id) is Some ==> {
                &&& *final(self) == *old(self)
                &&& res is Err
                &&& Some(res->Err_0@) == apply_all_gap(old(self)@, head_refs(other@), slab.id)
            },
    {
        proof {
            lemma_refs_gap(head_refs(self@), slab.id);
            lemma_refs_gap(head_refs(other@), slab.id);
        }
        if let Some(g) = self.first_gap(slab.id) {
            return Err(g);
        }
        if let Some(g) = other.first_gap(slab.id) {
            return Err(g);
        }
        Ok(self.apply_resident(other, slab))
    }

    /// The occupied edges of this head, projected from its history without regard to any
    /// context (see `project_occupied_edges_resident`); or, when the walk meets a memo that
    /// cannot be read on the slab, that memo's reference.
    pub fn project_occupied_edges_noncontextualized(&self, slab: &Slab) -> (res: Result<Vec<EdgeLink>, MemoRef>)
        ensures
            refs_gap(head_refs(self@), slab.id) is None ==> res is Ok && {
                let links = res->Ok_0;
                &&& links@.len() == projected_edges(self@).len()
                &&& forall|i: int|
                    0 <= i < links@.len() ==> (#[trigger] links@[i]) is Occupied
                        && links@[i]->Occupied_slot_id == projected_edges(self@)[i].slot_id
                        && links@[i]->Occupied_head@ == projected_edges(self@)[i].head
            },
            refs_gap(head_refs(self@), slab.id) is Some ==> res is Err && Some(res->Err_0@) == refs_gap(
                head_refs(self@),
                slab.id,
            ),
    {
        proof {
            lemma_refs_gap(head_refs(self@), slab.id);
        }
        match self.first_gap(slab.id) {
            Some(g) => Err(g),
            None => Ok(self.project_occupied_edges_resident(slab)),
        }
    }
}

} // verus!
