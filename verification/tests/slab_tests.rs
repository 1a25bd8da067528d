use lib::types::{
    compose_id, rotate_left_32, MemoPeeringStatus, RetrieveError, SlabAnticipatedLifetime,
    SlabPresence, SubjectId, SubjectType, TransportAddress,
};
use lib::network::Network;
use lib::slab::Slab;
use lib::slabref::SlabRef;
use lib::memo::{EdgeEntry, EdgeSet, MemoBody, MemoRef, MemoRefHead, RelationSet};
use lib::memoref::{MemoFetch, MemoWaitEvent};

fn new_system_slab() -> (Network, Slab) {
    let mut net = Network::create_new_system();
    let slab = Slab::new(&mut net);
    (net, slab)
}

fn peer_ref(owner: u32, to: u32) -> SlabRef {
    SlabRef {
        owning_slab_id: owner,
        to_slab_id: to,
        presence: vec![SlabPresence {
            slab_id: to,
            address: TransportAddress::Simulator,
            lifetime: SlabAnticipatedLifetime::Long,
        }],
        return_address: TransportAddress::Udp { ip: 0x7f00_0001, port: 9000 + to as u16 },
    }
}

fn materialized(stype: SubjectType) -> MemoBody {
    MemoBody::FullyMaterialized { v: Vec::new(), r: RelationSet::empty(), e: EdgeSet::empty(), t: stype }
}

fn remote_ref(slab: &mut Slab) -> MemoRef {
    let mut r = slab.new_memo_basic_noparent(None, materialized(SubjectType::Record));
    r.shared.ptr = lib::memo::MemoRefPtr::Remote;
    slab.memorefs_by_id.get_mut(&r.id).unwrap().shared.ptr = lib::memo::MemoRefPtr::Remote;
    r
}

/// A remote copy of a memo whose table entry stays resident.
fn remote_copy(slab: &mut Slab) -> MemoRef {
    let mut r = slab.new_memo_basic_noparent(None, materialized(SubjectType::Record));
    r.shared.ptr = lib::memo::MemoRefPtr::Remote;
    r
}

#[test]
fn rotate_and_compose_ids() {
    assert_eq!(rotate_left_32(1), 1u64 << 32);
    assert_eq!(rotate_left_32(0x1234_5678_0000_0001), 0x0000_0001_1234_5678);
    assert_eq!(compose_id(0, 9001), 9001);
    assert_eq!(compose_id(1, 9001), (1u64 << 32) | 9001);
    assert_eq!(compose_id(3, 7), 3u64.rotate_left(32) | 7);
}

#[test]
fn first_slab_of_new_system_creates_root_seed() {
    let (net, slab) = new_system_slab();
    assert_eq!(slab.id, 0);
    assert_eq!(net.next_slab_id, 1);
    assert_eq!(net.slabs, vec![0]);
    assert_eq!(slab.counters.last_memo_id, 5001);
    assert_eq!(slab.counters.last_subject_id, 9001);
    assert_eq!(slab.memorefs_by_id.len(), 1);
    let seed = net.root_index_seed.as_ref().unwrap();
    assert_eq!(seed.head.memo_ids(), vec![5001]);
    assert_eq!(seed.head.subject_id(), Some(SubjectId { id: 9001, stype: SubjectType::IndexNode }));
    assert_eq!(seed.from.to_slab_id, 0);
    assert_eq!(slab.my_ref.return_address, TransportAddress::Local);
}

#[test]
fn second_slab_does_not_create_seed() {
    let (mut net, _first) = new_system_slab();
    let second = Slab::new(&mut net);
    assert_eq!(second.id, 1);
    assert_eq!(net.slabs, vec![0, 1]);
    assert_eq!(second.counters.last_memo_id, 5000);
    assert_eq!(second.counters.last_subject_id, 9000);
    assert!(second.memorefs_by_id.is_empty());
    assert_eq!(net.root_index_seed.as_ref().unwrap().head.memo_ids(), vec![5001]);
}

#[test]
fn existing_system_creates_no_seed() {
    let mut net = Network::new(false);
    let slab = Slab::new(&mut net);
    assert!(net.root_index_seed.is_none());
    assert_eq!(slab.counters.last_memo_id, 5000);
    let seed = slab.get_root_index_seed(&net);
    assert!(matches!(seed, MemoRefHead::Null));
}

#[test]
fn generate_subject_id_uses_slab_and_counter() {
    let mut net = Network::new(false);
    let _s0 = Slab::new(&mut net);
    let mut s1 = Slab::new(&mut net);
    let a = s1.generate_subject_id(SubjectType::Record);
    let b = s1.generate_subject_id(SubjectType::IndexNode);
    assert_eq!(a, SubjectId { id: (1u64 << 32) | 9001, stype: SubjectType::Record });
    assert_eq!(b, SubjectId { id: (1u64 << 32) | 9002, stype: SubjectType::IndexNode });
    assert_ne!(a.id, b.id);
    assert_eq!(a.id >> 32, 1);
}

#[test]
fn gen_memo_id_counts_up() {
    let mut net = Network::new(false);
    let mut slab = Slab::new(&mut net);
    assert_eq!(slab.gen_memo_id(), 5001);
    assert_eq!(slab.gen_memo_id(), 5002);
    assert_eq!(slab.counters.last_memo_id, 5002);
}

#[test]
fn memo_wait_channel_counts_waiters() {
    let mut net = Network::new(false);
    let mut slab = Slab::new(&mut net);
    assert_eq!(slab.memo_wait_channel(42), 1);
    assert_eq!(slab.memo_wait_channel(42), 2);
    assert_eq!(slab.memo_wait_channel(7), 1);
    assert_eq!(slab.memo_wait_channels.len(), 2);
    assert_eq!(slab.memo_wait_channels[&42], 2);
    assert_eq!(slab.memo_wait_channels[&7], 1);
}

#[test]
fn root_seed_seen_from_other_slab_is_resident_copy() {
    let (mut net, _first) = new_system_slab();
    let second = Slab::new(&mut net);
    let seed = second.get_root_index_seed(&net);
    match &seed {
        MemoRefHead::Subject { head, .. } => {
            assert_eq!(head.len(), 1);
            assert_eq!(head[0].owning_slab_id, 1);
            assert!(head[0].is_resident());
            assert_eq!(head[0].shared.peers.0.len(), 1);
            assert_eq!(head[0].shared.peers.0[0].slabref.to_slab_id, 0);
            assert_eq!(head[0].shared.peers.0[0].slabref.owning_slab_id, 1);
            assert_eq!(head[0].shared.peers.0[0].status, MemoPeeringStatus::Resident);
        }
        _ => panic!("expected a subject head"),
    }
}

#[test]
fn from_memo_then_resident_memo() {
    let mut net = Network::new(false);
    let mut slab = Slab::new(&mut net);
    let r = slab.new_memo_basic_noparent(None, materialized(SubjectType::Record));
    let memo = r.get_memo_if_resident(&slab).unwrap();
    let copy = MemoRef::from_memo(&slab, &memo);
    assert_eq!(copy.id, 5001);
    assert_eq!(copy.owning_slab_id, slab.id);
    assert!(copy.get_memo_if_resident(&slab).is_some());
    assert!(copy == r);
    assert!(copy.shared.peers.0.is_empty());
}

#[test]
fn update_peer_adds_then_replaces() {
    let mut net = Network::new(false);
    let mut slab = Slab::new(&mut net);
    let mut r = slab.new_memo_basic_noparent(None, materialized(SubjectType::Record));
    let p1 = peer_ref(0, 1);
    let p2 = peer_ref(0, 2);
    assert!(!r.is_peered_with_slabref(&slab, &p1));
    r.update_peer(&mut slab, &p1, MemoPeeringStatus::Resident);
    r.update_peer(&mut slab, &p2, MemoPeeringStatus::Participating);
    assert_eq!(r.shared.peers.0.len(), 2);
    assert!(r.is_peered_with_slabref(&slab, &p1));
    r.update_peer(&mut slab, &p1, MemoPeeringStatus::NonParticipating);
    assert_eq!(r.shared.peers.0.len(), 2);
    assert_eq!(r.shared.peers.0[0].status, MemoPeeringStatus::NonParticipating);
    assert!(!r.is_peered_with_slabref(&slab, &p1));
    assert!(r.is_peered_with_slabref(&slab, &p2));
    r.update_peer(&mut slab, &p1, MemoPeeringStatus::NonParticipating);
    assert_eq!(r.shared.peers.0.len(), 2);
}

#[test]
fn presence_for_peer_skips_receiver_and_non_resident() {
    let mut net = Network::new(false);
    let mut slab = Slab::new(&mut net);
    let mut r = slab.new_memo_basic_noparent(None, materialized(SubjectType::Record));
    r.update_peer(&mut slab, &peer_ref(0, 1), MemoPeeringStatus::Resident);
    r.update_peer(&mut slab, &peer_ref(0, 2), MemoPeeringStatus::Resident);
    r.update_peer(&mut slab, &peer_ref(0, 3), MemoPeeringStatus::Participating);
    let to = peer_ref(0, 2);
    let presence = r.get_presence_for_peer(&slab, &to);
    assert_eq!(presence.len(), 2);
    assert_eq!(presence[0].slab_id, 0);
    assert_eq!(presence[0].address, to.return_address);
    assert_eq!(presence[0].lifetime, SlabAnticipatedLifetime::Unknown);
    assert_eq!(presence[1].slab_id, 1);
}

#[test]
fn send_memo_requests_asks_at_most_five() {
    let mut net = Network::new(false);
    let mut slab = Slab::new(&mut net);
    let mut r = remote_ref(&mut slab);
    assert_eq!(r.shared.send_memo_requests(&r.id, &mut slab), 0);
    assert!(slab.outbox.is_empty());
    for to in 1..=7u32 {
        r.update_peer(&mut slab, &peer_ref(0, to), MemoPeeringStatus::Resident);
    }
    let before = slab.counters.last_memo_id;
    assert_eq!(r.shared.send_memo_requests(&r.id, &mut slab), 5);
    assert_eq!(slab.counters.last_memo_id, before + 1);
    assert_eq!(slab.outbox.len(), 5);
    let targets: Vec<u32> = slab.outbox.iter().map(|t| t.to_slab_id).collect();
    assert_eq!(targets, vec![1, 2, 3, 4, 5]);
    match &slab.outbox[0].memo.body {
        MemoBody::MemoRequest(ids, from) => {
            assert_eq!(ids, &vec![r.id]);
            assert_eq!(from.to_slab_id, 0);
        }
        _ => panic!("expected a memo request"),
    }
    assert_eq!(slab.outbox[0].memo.id, compose_id(0, before + 1));
}

#[test]
fn get_memo_of_resident_memo_is_ready() {
    let mut net = Network::new(false);
    let mut slab = Slab::new(&mut net);
    let r = slab.new_memo_basic_noparent(None, materialized(SubjectType::Record));
    match r.get_memo(&mut slab) {
        MemoFetch::Ready(m) => assert_eq!(m.id, r.id),
        _ => panic!("expected the memo"),
    }
    assert!(slab.outbox.is_empty());
}

#[test]
fn get_memo_without_peers_is_not_found() {
    let mut net = Network::new(false);
    let mut slab = Slab::new(&mut net);
    let r = remote_ref(&mut slab);
    assert!(matches!(r.get_memo(&mut slab), MemoFetch::Failed(RetrieveError::NotFound)));
    assert!(slab.memo_wait_channels.is_empty());
}

#[test]
fn get_memo_gives_up_after_three_timeouts() {
    let mut net = Network::new(false);
    let mut slab = Slab::new(&mut net);
    let mut r = remote_ref(&mut slab);
    r.update_peer(&mut slab, &peer_ref(0, 1), MemoPeeringStatus::Resident);
    let st = r.get_memo(&mut slab);
    assert!(matches!(st, MemoFetch::Waiting { attempt: 0 }));
    assert_eq!(slab.memo_wait_channels.len(), 1);
    let st = r.get_memo_resume(&mut slab, 0, MemoWaitEvent::Timeout);
    assert!(matches!(st, MemoFetch::Waiting { attempt: 1 }));
    let st = r.get_memo_resume(&mut slab, 1, MemoWaitEvent::Timeout);
    assert!(matches!(st, MemoFetch::Waiting { attempt: 2 }));
    let st = r.get_memo_resume(&mut slab, 2, MemoWaitEvent::Timeout);
    assert!(matches!(st, MemoFetch::Failed(RetrieveError::NotFoundByDeadline)));
    assert_eq!(slab.outbox.len(), 4);
}

#[test]
fn get_memo_resume_received_and_disconnected() {
    let mut net = Network::new(false);
    let mut slab = Slab::new(&mut net);
    let resident = slab.new_memo_basic_noparent(None, materialized(SubjectType::Record));
    let memo = resident.get_memo_if_resident(&slab).unwrap();
    let mut r = remote_ref(&mut slab);
    r.update_peer(&mut slab, &peer_ref(0, 1), MemoPeeringStatus::Resident);
    match r.get_memo_resume(&mut slab, 0, MemoWaitEvent::Received(memo)) {
        MemoFetch::Ready(m) => assert_eq!(m.id, resident.id),
        _ => panic!("expected the memo"),
    }
    assert!(matches!(
        r.get_memo_resume(&mut slab, 1, MemoWaitEvent::Disconnected),
        MemoFetch::Failed(RetrieveError::SlabError)
    ));
}

#[test]
fn residentize_and_remotize_announce_to_peers() {
    let mut net = Network::new(false);
    let mut slab = Slab::new(&mut net);
    let mut r = slab.new_memo_basic_noparent(None, materialized(SubjectType::Record));
    let memo = r.get_memo_if_resident(&slab).unwrap();
    r.update_peer(&mut slab, &peer_ref(0, 1), MemoPeeringStatus::Resident);
    r.update_peer(&mut slab, &peer_ref(0, 2), MemoPeeringStatus::Participating);
    assert!(!r.residentize(&mut slab, &memo));
    assert!(slab.outbox.is_empty());
    r.remotize(&mut slab);
    assert!(!r.is_resident());
    assert_eq!(slab.outbox.len(), 2);
    match &slab.outbox[1].memo.body {
        MemoBody::Peering(id, _, status) => {
            assert_eq!(*id, r.id);
            assert_eq!(*status, MemoPeeringStatus::Participating);
        }
        _ => panic!("expected a peering memo"),
    }
    assert!(r.residentize(&mut slab, &memo));
    assert!(r.is_resident());
    assert_eq!(slab.outbox.len(), 4);
    match &slab.outbox[3].memo.body {
        MemoBody::Peering(_, _, status) => assert_eq!(*status, MemoPeeringStatus::Resident),
        _ => panic!("expected a peering memo"),
    }
    assert_eq!(slab.outbox[3].to_slab_id, 2);
}

#[test]
fn descends_follows_lineage() {
    let mut net = Network::new(false);
    let mut slab = Slab::new(&mut net);
    let sid = slab.generate_subject_id(SubjectType::Record);
    let m1 = slab.new_memo_basic_noparent(Some(sid), materialized(SubjectType::Record));
    let m2 = slab.new_memo_basic(Some(sid), m1.to_head(), MemoBody::Edge(EdgeSet::empty()));
    let m3 = slab.new_memo_basic(Some(sid), m2.to_head(), MemoBody::Edge(EdgeSet::empty()));
    assert!(m3.descends(&m1, &slab).unwrap());
    assert!(m3.descends(&m2, &slab).unwrap());
    assert!(!m1.descends(&m3, &slab).unwrap());
    assert!(!m2.descends(&m2, &slab).unwrap());
}

#[test]
fn apply_memoref_replaces_descended_and_is_idempotent() {
    let mut net = Network::new(false);
    let mut slab = Slab::new(&mut net);
    let sid = slab.generate_subject_id(SubjectType::Record);
    let m1 = slab.new_memo_basic_noparent(Some(sid), materialized(SubjectType::Record));
    let m2 = slab.new_memo_basic(Some(sid), m1.to_head(), MemoBody::Edge(EdgeSet::empty()));
    let other = slab.new_memo_basic_noparent(Some(sid), materialized(SubjectType::Record));
    let mut head = MemoRefHead::new();
    assert!(head.apply_memoref(&m1, &slab).unwrap());
    assert!(head.apply_memoref(&other, &slab).unwrap());
    assert_eq!(head.memo_ids(), vec![m1.id, other.id]);
    assert!(head.apply_memoref(&m2, &slab).unwrap());
    assert_eq!(head.memo_ids(), vec![other.id, m2.id]);
    assert!(!head.apply_memoref(&m2, &slab).unwrap());
    assert!(!head.apply_memoref(&m1, &slab).unwrap());
    assert_eq!(head.memo_ids(), vec![other.id, m2.id]);
    assert_eq!(head.len(), 2);
}

#[test]
fn descends_or_contains_checks_every_pair() {
    let mut net = Network::new(false);
    let mut slab = Slab::new(&mut net);
    let sid = slab.generate_subject_id(SubjectType::Record);
    let m1 = slab.new_memo_basic_noparent(Some(sid), materialized(SubjectType::Record));
    let m2 = slab.new_memo_basic(Some(sid), m1.to_head(), MemoBody::Edge(EdgeSet::empty()));
    let h1 = m1.to_head();
    let h2 = m2.to_head();
    assert!(h2.descends_or_contains(&h1, &slab).unwrap());
    assert!(h2.descends_or_contains(&h2, &slab).unwrap());
    assert!(!h1.descends_or_contains(&h2, &slab).unwrap());
    assert!(!MemoRefHead::new().descends_or_contains(&h1, &slab).unwrap());
    assert!(!h1.descends_or_contains(&MemoRefHead::new(), &slab).unwrap());
}

#[test]
fn projection_prefers_newest_edge_per_slot() {
    let mut net = Network::new(false);
    let mut slab = Slab::new(&mut net);
    let a = slab.generate_subject_id(SubjectType::Record);
    let b = slab.generate_subject_id(SubjectType::Record);
    let target = slab.generate_subject_id(SubjectType::Record);
    let ha = slab.new_memo_basic_noparent(Some(a), materialized(SubjectType::Record)).to_head();
    let hb = slab.new_memo_basic_noparent(Some(b), materialized(SubjectType::Record)).to_head();
    let mut e1 = EdgeSet::empty();
    e1.insert(0, ha.clone());
    e1.insert(1, ha.clone());
    let base = slab.new_memo_basic_noparent(
        Some(target),
        MemoBody::FullyMaterialized { v: vec![("name".to_string(), "alpha".to_string())], r: RelationSet::empty(), e: e1, t: SubjectType::Record },
    );
    let mut e2 = EdgeSet::empty();
    e2.insert(1, hb.clone());
    let top = slab.new_memo_basic(Some(target), base.to_head(), MemoBody::Edge(e2));
    let links = top.to_head().project_occupied_edges_noncontextualized(&slab).unwrap();
    assert_eq!(links.len(), 2);
    match &links[0] {
        lib::memorefhead::EdgeLink::Occupied { slot_id, head } => {
            assert_eq!(*slot_id, 1);
            assert_eq!(head.subject_id(), Some(b));
        }
        _ => panic!("expected an occupied edge"),
    }
    match &links[1] {
        lib::memorefhead::EdgeLink::Occupied { slot_id, head } => {
            assert_eq!(*slot_id, 0);
            assert_eq!(head.subject_id(), Some(a));
        }
        _ => panic!("expected an occupied edge"),
    }
}

#[test]
fn edge_set_insert_replaces_slot() {
    let mut es = EdgeSet::empty();
    es.insert(3, MemoRefHead::new());
    es.insert(5, MemoRefHead::new());
    es.insert(3, MemoRefHead::new());
    assert_eq!(es.len(), 2);
    let slots: Vec<u8> = es.edges.iter().map(|e: &EdgeEntry| e.slot_id).collect();
    assert_eq!(slots, vec![3, 5]);
}

#[test]
fn materialized_values_are_kept() {
    let mut net = Network::new(false);
    let mut slab = Slab::new(&mut net);
    let a = slab.generate_subject_id(SubjectType::Record);
    let body = MemoBody::FullyMaterialized {
        v: vec![("name".to_string(), "alpha".to_string()), ("size".to_string(), "3".to_string())],
        r: RelationSet::empty(),
        e: EdgeSet::empty(),
        t: SubjectType::Record,
    };
    let r = slab.new_memo_basic_noparent(Some(a), body);
    let memo = match r.get_memo(&mut slab) {
        lib::memoref::MemoFetch::Ready(m) => m,
        _ => panic!("a new memo is resident"),
    };
    match memo.clone().body {
        MemoBody::FullyMaterialized { v, .. } => {
            assert_eq!(v, vec![("name".to_string(), "alpha".to_string()), ("size".to_string(), "3".to_string())]);
        }
        _ => panic!("expected a materialized body"),
    }
}

#[test]
fn walks_name_the_memo_they_cannot_read() {
    let mut net = Network::new(false);
    let mut s0 = Slab::new(&mut net);
    let s1 = Slab::new(&mut net);
    let sid = s0.generate_subject_id(SubjectType::Record);
    let m1 = s0.new_memo_basic_noparent(Some(sid), materialized(SubjectType::Record));
    let m2 = s0.new_memo_basic(Some(sid), m1.to_head(), MemoBody::Edge(EdgeSet::empty()));
    let from = s0.my_ref.clone_for_slab(&s1);
    // as known to s1: remote, with s0 as peer
    let r2 = m2.clone_for_slab(&from, &s1, false);
    match r2.descends(&m1, &s1) {
        Err(g) => assert_eq!(g.id, m2.id),
        Ok(_) => panic!("the memo is not resident on s1"),
    }
    // a memo s1 does not own cannot be read there either
    match m2.descends(&m1, &s1) {
        Err(g) => assert_eq!(g.id, m2.id),
        Ok(_) => panic!("the memo belongs to s0"),
    }
    let h2 = r2.to_head();
    assert_eq!(h2.descends_or_contains(&m1.to_head(), &s1).unwrap_err().id, m2.id);
    assert_eq!(h2.project_occupied_edges_noncontextualized(&s1).unwrap_err().id, m2.id);
    // applying to a head with a gap leaves it unchanged
    let mut h = h2.clone();
    let local = MemoRefHead::new();
    assert_eq!(h.apply_memoref(&m1, &s1).unwrap_err().id, m2.id);
    assert_eq!(h.memo_ids(), vec![m2.id]);
    assert_eq!(h.apply(&local, &s1).unwrap_err().id, m2.id);
    // a null head needs no walk
    let mut empty = MemoRefHead::new();
    assert!(empty.apply_memoref(&r2, &s1).unwrap());
    assert_eq!(empty.memo_ids(), vec![m2.id]);
    // once retrieved and installed, the walk runs
    let memo2 = r2.clone();
    let installed = memo2.installed(&lib::lineage::receive_memo(&m2.get_memo_if_resident(&s0).unwrap(), &from, &s1));
    match installed.descends(&m1, &s1) {
        Err(g) => assert_eq!(g.id, m1.id),
        Ok(_) => panic!("the parent is still remote"),
    }
    let installed = installed.installed(&lib::lineage::receive_memo(&m1.get_memo_if_resident(&s0).unwrap(), &from, &s1));
    assert!(installed.descends(&m1, &s1).unwrap());
}

#[test]
fn memo_table_is_keyed_by_memo_id() {
    let mut net = Network::new(false);
    let mut slab = Slab::new(&mut net);
    let sid = slab.generate_subject_id(SubjectType::Record);
    let m1 = slab.new_memo_basic_noparent(Some(sid), materialized(SubjectType::Record));
    let m2 = slab.new_memo_basic(Some(sid), m1.to_head(), MemoBody::Edge(EdgeSet::empty()));
    assert_eq!(slab.memorefs_by_id.len(), 2);
    assert_eq!(slab.memorefs_by_id[&m1.id].id, m1.id);
    assert_eq!(slab.memorefs_by_id[&m2.id].id, m2.id);
    assert!(slab.memorefs_by_id[&m2.id].is_resident());
}

#[test]
fn peers_and_residency_are_shared_through_the_memo_table() {
    let mut net = Network::new(false);
    let mut slab = Slab::new(&mut net);
    let mut r = slab.new_memo_basic_noparent(None, materialized(SubjectType::Record));
    let other_handle = r.clone();
    let p1 = peer_ref(0, 1);
    r.update_peer(&mut slab, &p1, MemoPeeringStatus::Resident);
    // every reference to the memo on the slab sees the peer added through one of them
    assert!(other_handle.is_peered_with_slabref(&slab, &p1));
    assert!(r.is_peered_with_slabref(&slab, &p1));
    assert_eq!(other_handle.get_presence_for_peer(&slab, &peer_ref(0, 2)).len(), 2);
    let memo = r.get_memo_if_resident(&slab).unwrap();
    r.remotize(&mut slab);
    assert!(other_handle.get_memo_if_resident(&slab).is_none());
    assert!(r.residentize(&mut slab, &memo));
    assert_eq!(other_handle.get_memo_if_resident(&slab).unwrap().id, memo.id);
}

#[test]
fn references_of_a_memo_the_slab_does_not_hold_are_independent() {
    let mut net = Network::new(false);
    let mut s0 = Slab::new(&mut net);
    let mut s1 = Slab::new(&mut net);
    let m = s0.new_memo_basic_noparent(None, materialized(SubjectType::Record));
    let from = s0.my_ref.clone_for_slab(&s1);
    let mut r = m.clone_for_slab(&from, &s1, false);
    let copy = r.clone();
    let p = peer_ref(1, 7);
    r.update_peer(&mut s1, &p, MemoPeeringStatus::Resident);
    assert!(r.is_peered_with_slabref(&s1, &p));
    assert!(!copy.is_peered_with_slabref(&s1, &p));
}

#[test]
fn get_memo_reads_the_memo_table_first() {
    let mut net = Network::new(false);
    let mut slab = Slab::new(&mut net);
    let r = remote_copy(&mut slab);
    // this copy is remote, but the slab's table holds the memo resident
    assert!(!r.is_resident());
    let before = slab.counters.last_memo_id;
    match r.get_memo(&mut slab) {
        MemoFetch::Ready(m) => assert_eq!(m.id, r.id),
        _ => panic!("the table holds the memo"),
    }
    assert_eq!(slab.counters.last_memo_id, before);
    assert!(slab.outbox.is_empty());
}
