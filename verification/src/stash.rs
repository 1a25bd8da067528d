//! The stash of a context: the current head of every subject the context holds.
use vstd::prelude::*;
use crate::types::{SlabId, SubjectId};
use crate::slab::Slab;
use crate::memo::{HeadView, MemoRefHead, head_refs, head_subject, refs_local};
use crate::memorefhead::{
    apply_refs_head, lemma_apply_refs_head_local, lemma_apply_refs_head_subject,
};

verus! {

pub open spec fn heads_view(s: Seq<MemoRefHead>) -> Seq<HeadView> {
    s.map_values(|h: MemoRefHead| h@)
}

/// The position of the head of subject `sid` in `s`, or -1.
pub open spec fn stash_index(s: Seq<HeadView>, sid: SubjectId) -> int
    decreases s.len(),
{
    if s.len() == 0 {
        -1
    } else if head_subject(s.last()) == Some(sid) {
        s.len() - 1
    } else {
        stash_index(s.drop_last(), sid)
    }
}

/// The head of subject `sid`, or the null head.
pub open spec fn stash_get(s: Seq<HeadView>, sid: SubjectId) -> HeadView {
    let i = stash_index(s, sid);
    if i < 0 {
        HeadView::Null
    } else {
        s[i]
    }
}

/// The heads after the subject head `h` is applied: a subject not yet held is added with
/// `h` as its head; otherwise the memos of `h` are applied to the held head.
pub open spec fn stash_apply(s: Seq<HeadView>, h: HeadView) -> Seq<HeadView> {
    let sid = head_subject(h)->Some_0;
    let i = stash_index(s, sid);
    if i < 0 {
        s.push(h)
    } else {
        s.update(i, apply_refs_head(s[i], head_refs(h)))
    }
}

/// Every head is a subject head, and no subject has two.
pub open spec fn stash_wf(s: Seq<HeadView>) -> bool {
    &&& forall|i: int| 0 <= i < s.len() ==> (#[trigger] s[i]) is Subject
    &&& forall|i: int, j: int|
        0 <= i < s.len() && 0 <= j < s.len() && i != j ==> head_subject(#[trigger] s[i])
            != head_subject(#[trigger] s[j])
}

/// The lineage of every held memo is resident on slab `slab_id`.
pub open spec fn stash_local(s: Seq<HeadView>, slab_id: SlabId) -> bool {
    forall|i: int| 0 <= i < s.len() ==> refs_local(head_refs(#[trigger] s[i]), slab_id)
}

pub proof fn lemma_stash_index(s: Seq<HeadView>, sid: SubjectId)
    ensures
        -1 <= stash_index(s, sid) < s.len(),
        stash_index(s, sid) >= 0 ==> head_subject(s[stash_index(s, sid)]) == Some(sid),
        stash_index(s, sid) < 0 ==> forall|i: int| 0 <= i < s.len() ==> head_subject(#[trigger] s[i]) != Some(sid),
    decreases s.len(),
{
    if s.len() > 0 {
        lemma_stash_index(s.drop_last(), sid);
        assert forall|i: int| 0 <= i < s.len() - 1 implies s.drop_last()[i] == s[i] by {}
    }
}

pub proof fn lemma_stash_index_of(s: Seq<HeadView>, sid: SubjectId, i: int)
    requires
        stash_wf(s),
        0 <= i < s.len(),
        head_subject(s[i]) == Some(sid),
    ensures
        stash_index(s, sid) == i,
{
    lemma_stash_index(s, sid);
    let k = stash_index(s, sid);
    if k != i {
        assert(head_subject(s[k]) != head_subject(s[i]));
    }
}

/// Applying a subject head keeps every subject with a single head, and keeps lineages local
/// when the applied head's are.
pub proof fn lemma_stash_apply(s: Seq<HeadView>, h: HeadView, slab_id: SlabId)
    requires
        stash_wf(s),
        h is Subject,
    ensures
        stash_wf(stash_apply(s, h)),
        stash_apply(s, h).len() == s.len() + if stash_index(s, head_subject(h)->Some_0) < 0 { 1int } else { 0int },
        forall|i: int| 0 <= i < s.len() ==> head_subject(#[trigger] stash_apply(s, h)[i]) == head_subject(s[i]),
        stash_local(s, slab_id) && refs_local(head_refs(h), slab_id) ==> stash_local(stash_apply(s, h), slab_id),
        stash_get(stash_apply(s, h), head_subject(h)->Some_0) == if stash_index(s, head_subject(h)->Some_0) < 0 {
            h
        } else {
            apply_refs_head(stash_get(s, head_subject(h)->Some_0), head_refs(h))
        },
{
    let sid = head_subject(h)->Some_0;
    lemma_stash_index(s, sid);
    let i = stash_index(s, sid);
    let t = stash_apply(s, h);
    if i < 0 {
        assert forall|a: int, b: int|
            0 <= a < t.len() && 0 <= b < t.len() && a != b implies head_subject(#[trigger] t[a])
                != head_subject(#[trigger] t[b]) by {
            if a < s.len() && b < s.len() {
                assert(t[a] == s[a] && t[b] == s[b]);
            }
        }
        lemma_stash_index_of(t, sid, s.len() as int);
    } else {
        lemma_apply_refs_head_subject(s[i], head_refs(h));
        assert forall|a: int, b: int|
            0 <= a < t.len() && 0 <= b < t.len() && a != b implies head_subject(#[trigger] t[a])
                != head_subject(#[trigger] t[b]) by {
            assert(head_subject(t[a]) == head_subject(s[a]));
            assert(head_subject(t[b]) == head_subject(s[b]));
        }
        if stash_local(s, slab_id) && refs_local(head_refs(h), slab_id) {
            lemma_apply_refs_head_local(s[i], head_refs(h), slab_id);
        }
        lemma_stash_index_of(t, sid, i);
    }
}

/// The heads a context holds.
#[derive(Debug)]
pub struct Stash {
    pub items: Vec<MemoRefHead>,
}

impl Stash {
    pub open spec fn view_heads(&self) -> Seq<HeadView> {
        heads_view(self.items@)
    }

    /// An empty stash.
    pub fn new() -> (s: Stash)
        ensures
            s.view_heads() == Seq::<HeadView>::empty(),
    {
        let s = Stash { items: Vec::new() };
        assert(s.view_heads() =~= Seq::<HeadView>::empty());
        s
    }

    /// The head of subject `subject_id`, or the null head.
    pub fn get_head(&self, subject_id: SubjectId) -> (h: MemoRefHead)
        ensures
            h@ == stash_get(self.view_heads(), subject_id),
    {
        let ghost hs = self.view_heads();
        proof {
            lemma_stash_index(hs, subject_id);
        }
        let mut i: usize = self.items.len();
        while i > 0
            invariant
                i <= self.items@.len(),
                hs == self.view_heads(),
                hs.len() == self.items@.len(),
                forall|j: int| i <= j < hs.len() ==> head_subject(#[trigger] hs[j]) != Some(subject_id),
            decreases i,
        {
            assert(hs[i - 1] == self.items@[i - 1]@);
            if self.items[i - 1].subject_id() == Some(subject_id) {
                proof {
                    lemma_stash_index_last_match(hs, subject_id, i as int);
                }
                return self.items[i - 1].clone();
            }
            i -= 1;
        }
        proof {
            if stash_index(hs, subject_id) >= 0 {
                assert(head_subject(hs[stash_index(hs, subject_id)]) != Some(subject_id));
            }
        }
        MemoRefHead::Null
    }

    /// A copy of every head, in stash order.
    pub fn iter(&self) -> (heads: Vec<MemoRefHead>)
        ensures
            heads_view(heads@) == self.view_heads(),
    {
        let mut heads: Vec<MemoRefHead> = Vec::new();
        let mut i: usize = 0;
        while i < self.items.len()
            invariant
                i <= self.items@.len(),
                heads@.len() == i,
                forall|j: int| 0 <= j < i ==> #[trigger] heads@[j]@ == self.items@[j]@,
            decreases self.items@.len() - i,
        {
            heads.push(self.items[i].clone());
            i += 1;
        }
        assert(heads_view(heads@) =~= self.view_heads());
        heads
    }

    /// The subjects held, in stash order.
    pub fn subject_ids(&self) -> (ids: Vec<Option<SubjectId>>)
        ensures
            ids@ == self.view_heads().map_values(|h: HeadView| head_subject(h)),
    {
        let mut ids: Vec<Option<SubjectId>> = Vec::new();
        let mut i: usize = 0;
        while i < self.items.len()
            invariant
                i <= self.items@.len(),
                ids@.len() == i,
                forall|j: int| 0 <= j < i ==> #[trigger] ids@[j] == head_subject(self.items@[j]@),
            decreases self.items@.len() - i,
        {
            ids.push(self.items[i].subject_id());
            i += 1;
        }
        assert(ids@ =~= self.view_heads().map_values(|h: HeadView| head_subject(h)));
        ids
    }

    /// Applies the subject head `head` and returns the subject's resulting head.
    pub fn apply_head_resident(&mut self, slab: &Slab, head: &MemoRefHead) -> (res: MemoRefHead)
        requires
            head@ is Subject,
            stash_index(old(self).view_heads(), head_subject(head@)->Some_0) >= 0 ==> {
                &&& refs_local(head_refs(stash_get(old(self).view_heads(), head_subject(head@)->Some_0)), slab.id)
                &&& refs_local(head_refs(head@), slab.id)
            },
        ensures
            final(self).view_heads() == stash_apply(old(self).view_heads(), head@),
            res@ == stash_get(final(self).view_heads(), head_subject(head@)->Some_0),
    {
        let ghost hs = self.view_heads();
        let sid = match head.subject_id() {
            Some(s) => s,
            None => {
                assert(false);
                return MemoRefHead::Null;
            },
        };
        proof {
            lemma_stash_index(hs, sid);
        }
        let mut i: usize = self.items.len();
        while i > 0
            invariant
                i <= self.items@.len(),
                self.items == old(self).items,
                hs == self.view_heads(),
                hs.len() == self.items@.len(),
                Some(sid) == head_subject(head@),
                stash_index(hs, sid) >= 0 ==> refs_local(head_refs(stash_get(hs, sid)), slab.id)
                    && refs_local(head_refs(head@), slab.id),
                forall|j: int| i <= j < hs.len() ==> head_subject(#[trigger] hs[j]) != Some(sid),
            decreases i,
        {
            assert(hs[i - 1] == self.items@[i - 1]@);
            if self.items[i - 1].subject_id() == Some(sid) {
                proof {
                    lemma_stash_index_last_match(hs, sid, i as int);
                }
                let mut merged = self.items[i - 1].clone();
                merged.apply_resident(head, slab);
                let res = merged.clone();
                self.items.set(i - 1, merged);
                assert forall|j: int| 0 <= j < hs.len() implies #[trigger] self.view_heads()[j] == stash_apply(hs, head@)[j] by {
                    if j == i - 1 {
                        assert(self.items@[j] == merged);
                    }
                }
                assert(self.view_heads() =~= stash_apply(hs, head@));
                proof {
                    lemma_apply_refs_head_subject(hs[i - 1], head_refs(head@));
                    assert(self.view_heads()[i - 1] == apply_refs_head(hs[i - 1], head_refs(head@)));
                    lemma_stash_index_last_match(self.view_heads(), sid, i as int);
                }
                return res;
            }
            i -= 1;
        }
        proof {
            if stash_index(hs, sid) >= 0 {
                assert(head_subject(hs[stash_index(hs, sid)]) != Some(sid));
            }
        }
        let res = head.clone();
        self.items.push(head.clone());
        assert(self.view_heads() =~= stash_apply(hs, head@));
        proof {
            lemma_stash_index_last_match(self.view_heads(), sid, (hs.len() + 1) as int);
        }
        res
    }
}

proof fn lemma_stash_index_last_match(s: Seq<HeadView>, sid: SubjectId, i: int)
    requires
        0 < i <= s.len(),
        head_subject(s[i - 1]) == Some(sid),
        forall|j: int| i <= j < s.len() ==> head_subject(#[trigger] s[j]) != Some(sid),
    ensures
        stash_index(s, sid) == i - 1,
    decreases s.len(),
{
    if s.len() > i {
        assert(head_subject(s[s.len() - 1]) != Some(sid));
        lemma_stash_index_last_match(s.drop_last(), sid, i);
    }
}

impl Clone for Stash {
    fn clone(&self) -> (res: Self)
        ensures
            res.view_heads() == self.view_heads(),
    {
        Stash { items: self.iter() }
    }
}

} // verus!
