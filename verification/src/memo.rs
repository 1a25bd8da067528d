//! Memos, memo references and heads: the immutable history of every subject.
//!
//! A memo is an immutable record; a memo reference names a memo and says whether this slab
//! holds it (resident) or only knows which peers do (remote); a head is the set of most
//! recent memos of a subject.  Each type has a view over mathematical sequences, and the
//! contracts of the library speak of those views.
use vstd::prelude::*;
use std::sync::Arc;
use crate::types::{MemoId, MemoPeeringStatus, RelationSlotId, SlabId, SlabPresence, SubjectId, SubjectType};
use crate::slabref::{SlabRef, SlabRefView};
use crate::types::copy_vec;

verus! {

/// A subject that a subject points to, in a given relation slot.
#[derive(Clone, Copy, PartialEq, Eq, Structural, Debug)]
pub struct Relation {
    pub slot_id: RelationSlotId,
    pub subject_id: SubjectId,
}

#[derive(Debug)]
pub struct RelationSet {
    pub relations: Vec<Relation>,
}

/// The head of another subject, held in an edge slot.
#[derive(Debug)]
pub struct EdgeEntry {
    pub slot_id: RelationSlotId,
    pub head: MemoRefHead,
}

/// Edge slots and the heads they hold; a slot occurs at most once.
#[derive(Debug)]
pub struct EdgeSet {
    pub edges: Vec<EdgeEntry>,
}

/// What a memo says.  A materialized memo holds the subject's values (name and value
/// pairs), relations and edges.
#[derive(Debug)]
pub enum MemoBody {
    FullyMaterialized { v: Vec<(String, String)>, r: RelationSet, e: EdgeSet, t: SubjectType },
    Edge(EdgeSet),
    Peering(MemoId, Vec<SlabPresence>, MemoPeeringStatus),
    MemoRequest(Vec<MemoId>, SlabRef),
}

/// An immutable record in the history of a subject (or of the slab itself).
#[derive(Debug)]
pub struct Memo {
    pub id: MemoId,
    pub owning_slab_id: SlabId,
    pub subject_id: Option<SubjectId>,
    pub parents: MemoRefHead,
    pub body: MemoBody,
}

/// The most recent memos of a subject (or of an anonymous history).
#[derive(Debug)]
pub enum MemoRefHead {
    Null,
    Subject { subject_id: SubjectId, head: Vec<MemoRef> },
    Anonymous { head: Vec<MemoRef> },
}

/// A peer slab and what it holds of a memo.
#[derive(Debug)]
pub struct MemoPeer {
    pub slabref: SlabRef,
    pub status: MemoPeeringStatus,
}

#[derive(Debug)]
pub struct MemoPeerList(pub Vec<MemoPeer>);

/// Whether this slab holds the memo itself.
#[derive(Debug)]
pub enum MemoRefPtr {
    Resident(Arc<Memo>),
    Remote,
}

/// The mutable part of a memo reference: its peers and whether the memo is resident.
#[derive(Debug)]
pub struct MemoRefShared {
    pub id: MemoId,
    pub peers: MemoPeerList,
    pub ptr: MemoRefPtr,
}

/// A slab's reference to a memo.  A reference is a value: a clone is a copy with its own
/// peers and residency.  What every reference to a memo on a slab shares is the slab's memo
/// table entry: `update_peer`, `residentize` and `remotize` write to it, and the queries
/// (`get_memo`, `get_memo_if_resident`, `is_peered_with_slabref`, `get_presence_for_peer`)
/// read from it when the slab holds the memo.
#[derive(Debug)]
pub struct MemoRef {
    pub id: MemoId,
    pub owning_slab_id: SlabId,
    pub subject_id: Option<SubjectId>,
    pub shared: MemoRefShared,
}

// ---------------------------------------------------------------------------------------
// Views
// ---------------------------------------------------------------------------------------

pub struct PeerView {
    pub slabref: SlabRefView,
    pub status: MemoPeeringStatus,
}

pub struct EdgeView {
    pub slot_id: RelationSlotId,
    pub head: HeadView,
}

pub enum BodyView {
    FullyMaterialized { v: Seq<(String, String)>, r: Seq<Relation>, e: Seq<EdgeView>, t: SubjectType },
    Edge(Seq<EdgeView>),
    Peering(MemoId, Seq<SlabPresence>, MemoPeeringStatus),
    MemoRequest(Seq<MemoId>, SlabRefView),
}

pub struct MemoView {
    pub id: MemoId,
    pub owning_slab_id: SlabId,
    pub subject_id: Option<SubjectId>,
    pub parents: HeadView,
    pub body: BodyView,
}

pub enum HeadView {
    Null,
    Subject { subject_id: SubjectId, refs: Seq<RefView> },
    Anonymous { refs: Seq<RefView> },
}

/// A memo reference as a value: `memo` is `Some` exactly when the memo is resident.
pub struct RefView {
    pub id: MemoId,
    pub owning_slab_id: SlabId,
    pub subject_id: Option<SubjectId>,
    pub peers: Seq<PeerView>,
    pub memo: Option<MemoView>,
}

impl View for MemoPeer {
    type V = PeerView;

    open spec fn view(&self) -> PeerView {
        PeerView { slabref: self.slabref@, status: self.status }
    }
}

pub open spec fn peers_view(s: Seq<MemoPeer>) -> Seq<PeerView> {
    s.map_values(|p: MemoPeer| p@)
}

pub open spec fn ref_view(r: MemoRef) -> RefView
    decreases r, 0nat,
{
    RefView {
        id: r.id,
        owning_slab_id: r.owning_slab_id,
        subject_id: r.subject_id,
        peers: peers_view(r.shared.peers.0@),
        memo: match r.shared.ptr {
            MemoRefPtr::Resident(m) => Some(memo_view(*m)),
            MemoRefPtr::Remote => None,
        },
    }
}

pub open spec fn memo_view(m: Memo) -> MemoView
    decreases m, 0nat,
{
    MemoView {
        id: m.id,
        owning_slab_id: m.owning_slab_id,
        subject_id: m.subject_id,
        parents: head_view(m.parents),
        body: body_view(m.body),
    }
}

pub open spec fn head_view(h: MemoRefHead) -> HeadView
    decreases h, 0nat,
{
    match h {
        MemoRefHead::Null => HeadView::Null,
        MemoRefHead::Subject { subject_id, head } => HeadView::Subject {
            subject_id,
            refs: refs_view(head@),
        },
        MemoRefHead::Anonymous { head } => HeadView::Anonymous { refs: refs_view(head@) },
    }
}

pub open spec fn refs_view(s: Seq<MemoRef>) -> Seq<RefView>
    decreases s, 0nat,
{
    if s.len() == 0 {
        Seq::empty()
    } else {
        refs_view(s.drop_last()).push(ref_view(s.last()))
    }
}

pub open spec fn body_view(b: MemoBody) -> BodyView
    decreases b, 0nat,
{
    match b {
        MemoBody::FullyMaterialized { v, r, e, t } => BodyView::FullyMaterialized {
            v: v@,
            r: r.relations@,
            e: edges_view(e.edges@),
            t,
        },
        MemoBody::Edge(e) => BodyView::Edge(edges_view(e.edges@)),
        MemoBody::Peering(id, p, s) => BodyView::Peering(id, p@, s),
        MemoBody::MemoRequest(ids, sr) => BodyView::MemoRequest(ids@, sr@),
    }
}

pub open spec fn edges_view(s: Seq<EdgeEntry>) -> Seq<EdgeView>
    decreases s, 0nat,
{
    if s.len() == 0 {
        Seq::empty()
    } else {
        edges_view(s.drop_last()).push(EdgeView { slot_id: s.last().slot_id, head: head_view(s.last().head) })
    }
}

impl View for MemoRef {
    type V = RefView;

    open spec fn view(&self) -> RefView {
        ref_view(*self)
    }
}

impl View for Memo {
    type V = MemoView;

    open spec fn view(&self) -> MemoView {
        memo_view(*self)
    }
}

impl View for MemoRefHead {
    type V = HeadView;

    open spec fn view(&self) -> HeadView {
        head_view(*self)
    }
}

impl View for MemoBody {
    type V = BodyView;

    open spec fn view(&self) -> BodyView {
        body_view(*self)
    }
}

impl View for EdgeEntry {
    type V = EdgeView;

    open spec fn view(&self) -> EdgeView {
        EdgeView { slot_id: self.slot_id, head: head_view(self.head) }
    }
}

pub proof fn lemma_refs_view(s: Seq<MemoRef>)
    ensures
        refs_view(s).len() == s.len(),
        forall|i: int| 0 <= i < s.len() ==> #[trigger] refs_view(s)[i] == s[i]@,
    decreases s.len(),
{
    if s.len() > 0 {
        lemma_refs_view(s.drop_last());
    }
}

pub proof fn lemma_edges_view(s: Seq<EdgeEntry>)
    ensures
        edges_view(s).len() == s.len(),
        forall|i: int| 0 <= i < s.len() ==> #[trigger] edges_view(s)[i] == s[i]@,
    decreases s.len(),
{
    if s.len() > 0 {
        lemma_edges_view(s.drop_last());
    }
}

// ---------------------------------------------------------------------------------------
// Lineage
// ---------------------------------------------------------------------------------------

/// The memo references a head holds (none for the null head).
pub open spec fn head_refs(h: HeadView) -> Seq<RefView> {
    match h {
        HeadView::Null => Seq::empty(),
        HeadView::Subject { refs, .. } => refs,
        HeadView::Anonymous { refs } => refs,
    }
}

/// The subject a head belongs to, if any.
pub open spec fn head_subject(h: HeadView) -> Option<SubjectId> {
    match h {
        HeadView::Subject { subject_id, .. } => Some(subject_id),
        _ => None,
    }
}

/// The head made of the single reference `r`.
pub open spec fn head_from_ref(r: RefView) -> HeadView {
    match r.subject_id {
        Some(s) => HeadView::Subject { subject_id: s, refs: seq![r] },
        None => HeadView::Anonymous { refs: seq![r] },
    }
}

/// Whether the memo `r` refers to has the memo `t` among its ancestors (as far as the memos
/// on the way are resident).
pub open spec fn ref_descends(r: RefView, t: MemoId) -> bool
    decreases r, 1nat,
{
    match r.memo {
        Some(m) => match m.parents {
            HeadView::Null => false,
            HeadView::Subject { refs, .. } => refs_descend(refs, t),
            HeadView::Anonymous { refs } => refs_descend(refs, t),
        },
        None => false,
    }
}

/// Whether one of `rs` is `t` or descends from `t`.
pub open spec fn refs_descend(rs: Seq<RefView>, t: MemoId) -> bool
    decreases rs, 0nat,
{
    if rs.len() == 0 {
        false
    } else {
        rs.last().id == t || ref_descends(rs.last(), t) || refs_descend(rs.drop_last(), t)
    }
}

/// Whether `r` and all of its ancestors are resident memos owned by the slab `slab_id`:
/// the lineage can then be walked without asking any peer.
pub open spec fn lineage_local(r: RefView, slab_id: SlabId) -> bool
    decreases r, 1nat,
{
    r.owning_slab_id == slab_id && match r.memo {
        Some(m) => match m.parents {
            HeadView::Null => true,
            HeadView::Subject { refs, .. } => refs_local(refs, slab_id),
            HeadView::Anonymous { refs } => refs_local(refs, slab_id),
        },
        None => false,
    }
}

pub open spec fn refs_local(rs: Seq<RefView>, slab_id: SlabId) -> bool
    decreases rs, 0nat,
{
    rs.len() == 0 || (lineage_local(rs.last(), slab_id) && refs_local(rs.drop_last(), slab_id))
}

pub proof fn lemma_refs_local(rs: Seq<RefView>, slab_id: SlabId)
    ensures
        refs_local(rs, slab_id) <==> forall|i: int| 0 <= i < rs.len() ==> lineage_local(#[trigger] rs[i], slab_id),
    decreases rs.len(),
{
    if rs.len() > 0 {
        lemma_refs_local(rs.drop_last(), slab_id);
        assert forall|i: int| 0 <= i < rs.len() - 1 implies rs.drop_last()[i] == rs[i] by {}
    }
}

pub proof fn lemma_refs_descend(rs: Seq<RefView>, t: MemoId)
    ensures
        refs_descend(rs, t) <==> exists|i: int| 0 <= i < rs.len() && ((#[trigger] rs[i]).id == t || ref_descends(rs[i], t)),
    decreases rs.len(),
{
    if rs.len() > 0 {
        lemma_refs_descend(rs.drop_last(), t);
        assert forall|i: int| 0 <= i < rs.len() - 1 implies rs.drop_last()[i] == rs[i] by {}
        if refs_descend(rs.drop_last(), t) {
            let i = choose|i: int| 0 <= i < rs.drop_last().len() && ((#[trigger] rs.drop_last()[i]).id == t || ref_descends(rs.drop_last()[i], t));
            assert(rs[i] == rs.drop_last()[i]);
        }
        if exists|i: int| 0 <= i < rs.len() && ((#[trigger] rs[i]).id == t || ref_descends(rs[i], t)) {
            let i = choose|i: int| 0 <= i < rs.len() && ((#[trigger] rs[i]).id == t || ref_descends(rs[i], t));
            if i < rs.len() - 1 {
                assert(rs.drop_last()[i] == rs[i]);
            }
        }
    }
}

// ---------------------------------------------------------------------------------------
// Copies
// ---------------------------------------------------------------------------------------

impl Clone for MemoPeer {
    fn clone(&self) -> (res: Self)
        ensures
            res@ == self@,
    {
        MemoPeer { slabref: self.slabref.clone(), status: self.status }
    }
}

pub fn clone_peers(v: &Vec<MemoPeer>) -> (res: Vec<MemoPeer>)
    ensures
        peers_view(res@) == peers_view(v@),
{
    let mut res: Vec<MemoPeer> = Vec::new();
    let mut i: usize = 0;
    while i < v.len()
        invariant
            i <= v.len(),
            res@.len() == i,
            forall|j: int| 0 <= j < i ==> #[trigger] res@[j]@ == v@[j]@,
        decreases v.len() - i,
    {
        res.push(v[i].clone());
        i += 1;
    }
    assert(peers_view(res@) =~= peers_view(v@));
    res
}

impl Clone for MemoPeerList {
    fn clone(&self) -> (res: Self)
        ensures
            peers_view(res.0@) == peers_view(self.0@),
    {
        MemoPeerList(clone_peers(&self.0))
    }
}

impl Clone for MemoRef {
    fn clone(&self) -> (res: Self)
        ensures
            res@ == self@,
            res.shared.id == self.shared.id,
    {
        let ptr = match &self.shared.ptr {
            MemoRefPtr::Resident(m) => MemoRefPtr::Resident(m.clone()),
            MemoRefPtr::Remote => MemoRefPtr::Remote,
        };
        MemoRef {
            id: self.id,
            owning_slab_id: self.owning_slab_id,
            subject_id: self.subject_id,
            shared: MemoRefShared { id: self.shared.id, peers: self.shared.peers.clone(), ptr },
        }
    }
}

pub proof fn lemma_refs_view_push(s: Seq<MemoRef>, r: MemoRef)
    ensures
        refs_view(s.push(r)) == refs_view(s).push(r@),
{
    assert(s.push(r).drop_last() =~= s);
}

pub proof fn lemma_edges_view_push(s: Seq<EdgeEntry>, e: EdgeEntry)
    ensures
        edges_view(s.push(e)) == edges_view(s).push(e@),
{
    assert(s.push(e).drop_last() =~= s);
}

/// Copies a list of memo references.
pub fn clone_refs(v: &Vec<MemoRef>) -> (res: Vec<MemoRef>)
    ensures
        refs_view(res@) == refs_view(v@),
        res@.len() == v@.len(),
{
    let mut res: Vec<MemoRef> = Vec::new();
    let mut i: usize = 0;
    while i < v.len()
        invariant
            i <= v.len(),
            res@.len() == i,
            refs_view(res@) == refs_view(v@.subrange(0, i as int)),
        decreases v.len() - i,
    {
        let r = v[i].clone();
        proof {
            lemma_refs_view_push(res@, r);
            lemma_refs_view_push(v@.subrange(0, i as int), v@[i as int]);
            assert(v@.subrange(0, i as int).push(v@[i as int]) =~= v@.subrange(0, i + 1));
        }
        res.push(r);
        i += 1;
    }
    assert(v@.subrange(0, v.len() as int) =~= v@);
    res
}

impl Clone for MemoRefHead {
    fn clone(&self) -> (res: Self)
        ensures
            res@ == self@,
    {
        match self {
            MemoRefHead::Null => MemoRefHead::Null,
            MemoRefHead::Subject { subject_id, head } => MemoRefHead::Subject {
                subject_id: *subject_id,
                head: clone_refs(head),
            },
            MemoRefHead::Anonymous { head } => MemoRefHead::Anonymous { head: clone_refs(head) },
        }
    }
}

impl Clone for EdgeEntry {
    fn clone(&self) -> (res: Self)
        ensures
            res@ == self@,
    {
        EdgeEntry { slot_id: self.slot_id, head: self.head.clone() }
    }
}

/// Copies a list of edges.
pub fn clone_edges(v: &Vec<EdgeEntry>) -> (res: Vec<EdgeEntry>)
    ensures
        edges_view(res@) == edges_view(v@),
{
    let mut res: Vec<EdgeEntry> = Vec::new();
    let mut i: usize = 0;
    while i < v.len()
        invariant
            i <= v.len(),
            res@.len() == i,
            edges_view(res@) == edges_view(v@.subrange(0, i as int)),
        decreases v.len() - i,
    {
        let e = v[i].clone();
        proof {
            lemma_edges_view_push(res@, e);
            lemma_edges_view_push(v@.subrange(0, i as int), v@[i as int]);
            assert(v@.subrange(0, i as int).push(v@[i as int]) =~= v@.subrange(0, i + 1));
        }
        res.push(e);
        i += 1;
    }
    assert(v@.subrange(0, v.len() as int) =~= v@);
    res
}

impl Clone for EdgeSet {
    fn clone(&self) -> (res: Self)
        ensures
            edges_view(res.edges@) == edges_view(self.edges@),
    {
        EdgeSet { edges: clone_edges(&self.edges) }
    }
}

/// A copy of the name and value pairs `v`.
fn clone_values(v: &Vec<(String, String)>) -> (res: Vec<(String, String)>)
    ensures
        res@ == v@,
{
    let mut res: Vec<(String, String)> = Vec::new();
    let mut i: usize = 0;
    while i < v.len()
        invariant
            i <= v.len(),
            res@ == v@.subrange(0, i as int),
        decreases v.len() - i,
    {
        let pair = (v[i].0.clone(), v[i].1.clone());
        res.push(pair);
        i += 1;
        assert(res@ =~= v@.subrange(0, i as int));
    }
    assert(v@.subrange(0, v.len() as int) =~= v@);
    res
}

impl Clone for MemoBody {
    fn clone(&self) -> (res: Self)
        ensures
            res@ == self@,
    {
        match self {
            MemoBody::FullyMaterialized { v, r, e, t } => MemoBody::FullyMaterialized {
                v: clone_values(v),
                r: RelationSet { relations: copy_vec(&r.relations) },
                e: e.clone(),
                t: *t,
            },
            MemoBody::Edge(e) => MemoBody::Edge(e.clone()),
            MemoBody::Peering(id, p, st) => MemoBody::Peering(*id, copy_vec(p), *st),
            MemoBody::MemoRequest(ids, sr) => MemoBody::MemoRequest(copy_vec(ids), sr.clone()),
        }
    }
}

impl Clone for Memo {
    fn clone(&self) -> (res: Self)
        ensures
            res@ == self@,
    {
        Memo {
            id: self.id,
            owning_slab_id: self.owning_slab_id,
            subject_id: self.subject_id,
            parents: self.parents.clone(),
            body: self.body.clone(),
        }
    }
}

/// The index of the edge for `slot_id` in `es`, or -1.
pub open spec fn edge_index(es: Seq<EdgeView>, slot_id: RelationSlotId) -> int
    decreases es.len(),
{
    if es.len() == 0 {
        -1
    } else if es.last().slot_id == slot_id {
        es.len() - 1
    } else {
        edge_index(es.drop_last(), slot_id)
    }
}

/// The edges after `slot_id` is set to `head`: an edge for that slot is replaced, otherwise
/// a new edge is appended.
pub open spec fn edge_insert(es: Seq<EdgeView>, slot_id: RelationSlotId, head: HeadView) -> Seq<EdgeView> {
    let i = edge_index(es, slot_id);
    if i < 0 {
        es.push(EdgeView { slot_id, head })
    } else {
        es.update(i, EdgeView { slot_id, head })
    }
}

pub proof fn lemma_edge_index(es: Seq<EdgeView>, slot_id: RelationSlotId)
    ensures
        -1 <= edge_index(es, slot_id) < es.len(),
        edge_index(es, slot_id) >= 0 ==> es[edge_index(es, slot_id)].slot_id == slot_id,
        edge_index(es, slot_id) < 0 ==> forall|i: int| 0 <= i < es.len() ==> (#[trigger] es[i]).slot_id != slot_id,
    decreases es.len(),
{
    if es.len() > 0 {
        lemma_edge_index(es.drop_last(), slot_id);
        assert forall|i: int| 0 <= i < es.len() - 1 implies es.drop_last()[i] == es[i] by {}
    }
}

proof fn lemma_edge_index_last_match(es: Seq<EdgeView>, slot_id: RelationSlotId, i: int)
    requires
        0 < i <= es.len(),
        es[i - 1].slot_id == slot_id,
        forall|j: int| i <= j < es.len() ==> (#[trigger] es[j]).slot_id != slot_id,
    ensures
        edge_index(es, slot_id) == i - 1,
    decreases es.len(),
{
    if es.len() > i {
        assert(es[es.len() - 1].slot_id != slot_id);
        lemma_edge_index_last_match(es.drop_last(), slot_id, i);
    }
}

impl EdgeSet {
    /// The empty edge set.
    pub fn empty() -> (es: EdgeSet)
        ensures
            edges_view(es.edges@) == Seq::<EdgeView>::empty(),
    {
        EdgeSet { edges: Vec::new() }
    }

    /// The number of occupied slots.
    pub fn len(&self) -> (n: usize)
        ensures
            n == edges_view(self.edges@).len(),
    {
        proof {
            lemma_edges_view(self.edges@);
        }
        self.edges.len()
    }

    /// Sets the edge of slot `slot_id` to `head`.
    pub fn insert(&mut self, slot_id: RelationSlotId, head: MemoRefHead)
        ensures
            edges_view(final(self).edges@) == edge_insert(edges_view(old(self).edges@), slot_id, head@),
    {
        let ghost ev = edges_view(self.edges@);
        proof {
            lemma_edges_view(self.edges@);
            lemma_edge_index(ev, slot_id);
        }
        let mut i: usize = self.edges.len();
        while i > 0
            invariant
                i <= self.edges@.len(),
                self.edges == old(self).edges,
                ev == edges_view(self.edges@),
                ev.len() == self.edges@.len(),
                forall|k: int| 0 <= k < ev.len() ==> #[trigger] ev[k] == self.edges@[k]@,
                forall|j: int| i <= j < ev.len() ==> (#[trigger] ev[j]).slot_id != slot_id,
            decreases i,
        {
            assert(ev[i - 1] == self.edges@[i - 1]@);
            if self.edges[i - 1].slot_id == slot_id {
                proof {
                    lemma_edge_index_last_match(ev, slot_id, i as int);
                }
                let e = EdgeEntry { slot_id, head };
                self.edges.set(i - 1, e);
                proof {
                    lemma_edges_view(self.edges@);
                    assert(edges_view(self.edges@) =~= edge_insert(ev, slot_id, e.head@));
                }
                return;
            }
            i -= 1;
        }
        let e = EdgeEntry { slot_id, head };
        proof {
            lemma_edges_view_push(self.edges@, e);
        }
        self.edges.push(e);
    }
}

impl RelationSet {
    /// The empty relation set.
    pub fn empty() -> (rs: RelationSet)
        ensures
            rs.relations@ == Seq::<Relation>::empty(),
    {
        RelationSet { relations: Vec::new() }
    }
}

impl Memo {
    /// A memo of `slab` with the given parts.
    pub fn new_basic(
        id: MemoId,
        subject_id: Option<SubjectId>,
        parents: MemoRefHead,
        body: MemoBody,
        slab: &crate::slab::Slab,
    ) -> (m: Memo)
        ensures
            m@ == crate::slab::memo_spec(id, slab.id, subject_id, parents@, body@),
    {
        Memo { id, owning_slab_id: slab.id, subject_id, parents, body }
    }
}

} // verus!
