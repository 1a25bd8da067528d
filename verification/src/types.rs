//! Identifiers and small plain-value types shared by slabs, memos and contexts.
use vstd::prelude::*;

verus! {

/// Identifier of a memo; the owning slab's id sits in the high 32 bits.
pub type MemoId = u64;

/// Identifier of a slab on the network.
pub type SlabId = u32;

/// Index of a relation / edge slot of a subject.
pub type RelationSlotId = u8;

#[derive(Clone, Copy, PartialEq, Eq, Structural, Debug)]
pub enum SubjectType {
    IndexNode,
    Record,
}

#[derive(Clone, Copy, PartialEq, Eq, Structural, Debug)]
pub struct SubjectId {
    pub id: u64,
    pub stype: SubjectType,
}

#[derive(Clone, Copy, PartialEq, Eq, Structural, Debug)]
pub enum TransportAddress {
    Blackhole,
    Local,
    Simulator,
    Udp { ip: u32, port: u16 },
}

#[derive(Clone, Copy, PartialEq, Eq, Structural, Debug)]
pub enum SlabAnticipatedLifetime {
    Ephmeral,
    SessionLong,
    Long,
    VeryLong,
    Unknown,
}

/// Where a slab can be reached, and for how long it expects to stay there.
#[derive(Clone, Copy, PartialEq, Eq, Structural, Debug)]
pub struct SlabPresence {
    pub slab_id: SlabId,
    pub address: TransportAddress,
    pub lifetime: SlabAnticipatedLifetime,
}

/// What a peer slab holds of a given memo.
#[derive(Clone, Copy, PartialEq, Eq, Structural, Debug)]
pub enum MemoPeeringStatus {
    Resident,
    Participating,
    NonParticipating,
    Unknown,
}

/// Ways in which retrieving a memo or a subject can fail.
#[derive(Clone, Copy, PartialEq, Eq, Structural, Debug)]
pub enum RetrieveError {
    NotFound,
    NotFoundByDeadline,
    SlabError,
    IndexNotInitialized,
}

/// The 64-bit identifier made of a slab id (high half) and a per-slab counter (low half).
pub open spec fn spec_compose_id(slab_id: SlabId, counter: u32) -> u64 {
    (slab_id as u64 * 0x1_0000_0000 + counter as u64) as u64
}

/// `x.rotate_left(32)` on a 64-bit word: the two 32-bit halves swap places.
pub fn rotate_left_32(x: u64) -> (r: u64)
    ensures
        r == ((x << 32u64) | (x >> 32u64)),
{
    (x << 32u64) | (x >> 32u64)
}

/// Builds a slab-scoped identifier the way a slab numbers its memos and subjects:
/// `(slab_id as u64).rotate_left(32) | counter as u64`.
pub fn compose_id(slab_id: SlabId, counter: u32) -> (id: u64)
    ensures
        id == spec_compose_id(slab_id, counter),
{
    let hi = rotate_left_32(slab_id as u64);
    let id = hi | counter as u64;
    let s = slab_id as u64;
    let c = counter as u64;
    assert(((s << 32u64) | (s >> 32u64)) | c == s * 0x1_0000_0000 + c) by (bit_vector)
        requires
            s < 0x1_0000_0000,
            c < 0x1_0000_0000,
    ;
    id
}

/// Two slab-scoped identifiers are equal exactly when both their slab ids and their
/// counters are equal.
pub proof fn lemma_compose_id_injective(s1: SlabId, c1: u32, s2: SlabId, c2: u32)
    ensures
        (spec_compose_id(s1, c1) == spec_compose_id(s2, c2)) <==> (s1 == s2 && c1 == c2),
{
    assert(s1 as u64 * 0x1_0000_0000 + c1 as u64 <= u64::MAX) by (nonlinear_arith)
        requires s1 <= u32::MAX, c1 <= u32::MAX;
    assert(s2 as u64 * 0x1_0000_0000 + c2 as u64 <= u64::MAX) by (nonlinear_arith)
        requires s2 <= u32::MAX, c2 <= u32::MAX;
    if s1 != s2 {
        assert(s1 as u64 * 0x1_0000_0000 + c1 as u64 != s2 as u64 * 0x1_0000_0000 + c2 as u64)
            by (nonlinear_arith)
            requires s1 != s2, c1 <= u32::MAX, c2 <= u32::MAX;
    }
}

/// A memo id names its slab in its high half and the slab's count in its low half: both
/// can be read back from it.
pub proof fn law_compose_id_parts(s: SlabId, c: u32)
    ensures
        spec_compose_id(s, c) >> 32u64 == s as u64,
        spec_compose_id(s, c) & 0xffff_ffffu64 == c as u64,
{
    let x = s as u64;
    let y = c as u64;
    assert(x * 0x1_0000_0000 + y <= u64::MAX) by (nonlinear_arith)
        requires x <= u32::MAX, y <= u32::MAX;
    let id = spec_compose_id(s, c);
    assert(id == x * 0x1_0000_0000 + y);
    assert(((x * 0x1_0000_0000 + y) as u64) >> 32u64 == x && ((x * 0x1_0000_0000 + y) as u64) & 0xffff_ffffu64 == y) by (bit_vector)
        requires x < 0x1_0000_0000, y < 0x1_0000_0000;
}

/// A copy of `v`, element for element.
pub fn copy_vec<T: Copy>(v: &Vec<T>) -> (res: Vec<T>)
    ensures
        res@ == v@,
{
    let mut res: Vec<T> = Vec::new();
    let mut i: usize = 0;
    while i < v.len()
        invariant
            i <= v.len(),
            res@ == v@.subrange(0, i as int),
        decreases v.len() - i,
    {
        res.push(v[i]);
        i += 1;
        assert(res@ =~= v@.subrange(0, i as int));
    }
    assert(v@.subrange(0, v.len() as int) =~= v@);
    res
}

} // verus!
