use lib::types::{RetrieveError, SubjectId, SubjectType};
use lib::network::Network;
use lib::slab::Slab;
use lib::memo::{EdgeSet, MemoBody, MemoRefHead, RelationSet};
use lib::memorefhead::EdgeLink;
use lib::context::{Context, IndexEntry, RootIndex};
use lib::memoref::MemoFetch;

fn context_on(net: &mut Network) -> Context {
    let slab = Slab::new(net);
    slab.create_context(net)
}

fn edge_slot_subject(links: &[EdgeLink], slot: u8) -> Option<(Option<SubjectId>, Vec<u64>)> {
    for l in links {
        if let EdgeLink::Occupied { slot_id, head } = l {
            if *slot_id == slot {
                return Some((head.subject_id(), head.memo_ids()));
            }
        }
    }
    None
}

#[test]
fn context_ids_and_cmp() {
    let mut net = Network::new(false);
    let c0 = context_on(&mut net);
    let c1 = context_on(&mut net);
    assert_eq!(c0.id, 0);
    assert_eq!(c1.id, 1);
    assert_eq!(net.next_context_id, 2);
    assert!(c0.cmp(&c1));
    assert!(c1.cmp(&c0));
    assert!(!c0.cmp(&c0));
}

#[test]
fn subject_lookup_needs_root_index() {
    let mut net = Network::new(false);
    let ctx = context_on(&mut net);
    assert!(ctx.root_index.is_none());
    let sid = SubjectId { id: 1, stype: SubjectType::Record };
    assert!(matches!(ctx.get_subject_by_id(sid), Err(RetrieveError::IndexNotInitialized)));
}

#[test]
fn subject_lookup_in_root_index() {
    let mut net = Network::create_new_system();
    let mut ctx = context_on(&mut net);
    assert!(ctx.root_index.is_some());
    let sid = SubjectId { id: 77, stype: SubjectType::Record };
    assert!(matches!(ctx.get_subject_by_id(sid), Err(RetrieveError::NotFound)));
    let head = ctx.add_test_subject(sid, vec![]).unwrap();
    ctx.root_index.as_mut().unwrap().entries.push(IndexEntry { key: 77, head });
    match ctx.get_subject_by_id(sid) {
        Ok(handle) => {
            assert_eq!(handle.id, sid);
            assert_eq!(handle.context_id, ctx.id);
            assert_eq!(handle.head.memo_ids().len(), 1);
        }
        Err(_) => panic!("expected the subject"),
    }
}

#[test]
fn root_index_get_last_entry_wins() {
    let index = RootIndex {
        seed: MemoRefHead::new(),
        entries: vec![
            IndexEntry { key: 5, head: MemoRefHead::new() },
            IndexEntry { key: 6, head: MemoRefHead::new() },
        ],
    };
    assert!(index.get(5).is_ok());
    assert!(matches!(index.get(9), Err(RetrieveError::NotFound)));
}

#[test]
fn add_test_subject_records_subject_edges() {
    let mut net = Network::new(false);
    let mut ctx = context_on(&mut net);
    let a = ctx.slab.generate_subject_id(SubjectType::Record);
    let b = ctx.slab.generate_subject_id(SubjectType::Record);
    let ha = ctx.add_test_subject(a, vec![]).unwrap();
    assert_eq!(ha.memo_ids(), vec![5001]);
    let hb = ctx.add_test_subject(b, vec![MemoRefHead::new(), ha.clone()]).unwrap();
    assert_eq!(hb.memo_ids(), vec![5002]);
    assert_eq!(ctx.get_resident_subject_head_memo_ids(a), vec![5001]);
    assert_eq!(ctx.get_resident_subject_head_memo_ids(b), vec![5002]);
    let links = hb.project_occupied_edges_noncontextualized(&ctx.slab).unwrap();
    assert_eq!(links.len(), 1);
    assert_eq!(edge_slot_subject(&links, 1), Some((Some(a), vec![5001])));
    let missing = SubjectId { id: 3, stype: SubjectType::Record };
    assert!(matches!(ctx.get_resident_subject_head(missing), MemoRefHead::Null));
    assert!(ctx.get_resident_subject_head_memo_ids(missing).is_empty());
    assert_eq!(ctx.stash.subject_ids(), vec![Some(a), Some(b)]);
}

#[test]
fn apply_head_merges_newer_memo() {
    let mut net = Network::new(false);
    let mut ctx = context_on(&mut net);
    let a = ctx.slab.generate_subject_id(SubjectType::Record);
    let ha = ctx.add_test_subject(a, vec![]).unwrap();
    let newer = ctx.slab.new_memo_basic(Some(a), ha.clone(), MemoBody::Edge(EdgeSet::empty())).to_head();
    let merged = ctx.apply_head(&newer).unwrap();
    assert_eq!(merged.memo_ids(), newer.memo_ids());
    let again = ctx.apply_head(&ha).unwrap();
    assert_eq!(again.memo_ids(), newer.memo_ids());
}

#[test]
fn compact_refreshes_stale_edges_and_drops_referenced_heads() {
    let mut net = Network::new(false);
    let mut ctx = context_on(&mut net);
    let a = ctx.slab.generate_subject_id(SubjectType::Record);
    let b = ctx.slab.generate_subject_id(SubjectType::Record);
    let ha_old = ctx.add_test_subject(a, vec![]).unwrap();
    let _hb = ctx.add_test_subject(b, vec![ha_old.clone()]).unwrap();
    let newer_a = ctx.slab.new_memo_basic(Some(a), ha_old.clone(), MemoBody::Edge(EdgeSet::empty())).to_head();
    ctx.apply_head(&newer_a).unwrap();
    let a_ids = ctx.get_resident_subject_head_memo_ids(a);
    assert_eq!(a_ids, newer_a.memo_ids());
    ctx.compact().unwrap();
    // b received an edge memo pointing to a's newest head
    let hb = ctx.get_resident_subject_head(b);
    assert_eq!(hb.memo_ids(), vec![5004]);
    let links = hb.project_occupied_edges_noncontextualized(&ctx.slab).unwrap();
    assert_eq!(edge_slot_subject(&links, 0), Some((Some(a), a_ids.clone())));
    // a's head is now referenced by b's edge, so the stash no longer holds it
    assert!(matches!(ctx.get_resident_subject_head(a), MemoRefHead::Null));
    assert_eq!(ctx.stash.subject_ids(), vec![Some(b)]);
    assert_eq!(ctx.slab.counters.last_memo_id, 5004);
    // nothing is left to compact
    ctx.compact().unwrap();
    assert_eq!(ctx.slab.counters.last_memo_id, 5004);
    assert_eq!(ctx.get_resident_subject_head_memo_ids(b), vec![5004]);
}

#[test]
fn compact_without_edges_changes_nothing() {
    let mut net = Network::new(false);
    let mut ctx = context_on(&mut net);
    let a = ctx.slab.generate_subject_id(SubjectType::Record);
    let b = ctx.slab.generate_subject_id(SubjectType::Record);
    ctx.add_test_subject(a, vec![]).unwrap();
    ctx.add_test_subject(b, vec![]).unwrap();
    ctx.compact().unwrap();
    assert_eq!(ctx.slab.counters.last_memo_id, 5002);
    assert_eq!(ctx.stash.subject_ids(), vec![Some(a), Some(b)]);
    assert_eq!(ctx.get_resident_subject_head_memo_ids(a), vec![5001]);
    assert_eq!(ctx.get_resident_subject_head_memo_ids(b), vec![5002]);
}

#[test]
fn compact_chain_is_removed_topologically() {
    let mut net = Network::new(false);
    let mut ctx = context_on(&mut net);
    let a = ctx.slab.generate_subject_id(SubjectType::Record);
    let b = ctx.slab.generate_subject_id(SubjectType::Record);
    let c = ctx.slab.generate_subject_id(SubjectType::Record);
    let ha = ctx.add_test_subject(a, vec![]).unwrap();
    let hb = ctx.add_test_subject(b, vec![ha]).unwrap();
    ctx.add_test_subject(c, vec![hb]).unwrap();
    ctx.compact().unwrap();
    // one pass: b refreshes its edge to a (5004), then c its edge to b's new head (5005);
    // both a and b are then referenced and removed.  The next pass finds nothing.
    assert_eq!(ctx.stash.subject_ids(), vec![Some(c)]);
    assert_eq!(ctx.get_resident_subject_head_memo_ids(c), vec![5005]);
    assert_eq!(ctx.slab.counters.last_memo_id, 5005);
    let links = ctx.get_resident_subject_head(c).project_occupied_edges_noncontextualized(&ctx.slab).unwrap();
    assert_eq!(edge_slot_subject(&links, 0), Some((Some(b), vec![5004])));
}

#[test]
fn hack_send_context_transfers_heads_as_remote() {
    let mut net = Network::new(false);
    let mut c0 = context_on(&mut net);
    let mut c1 = context_on(&mut net);
    let a = c0.slab.generate_subject_id(SubjectType::Record);
    let b = c0.slab.generate_subject_id(SubjectType::Record);
    let ha = c0.add_test_subject(a, vec![]).unwrap();
    c0.add_test_subject(b, vec![ha]).unwrap();
    let (count, pending) = c0.hack_send_context(&mut c1).unwrap();
    // compaction leaves b alone (a's head is referenced by b's new edge memo)
    assert_eq!(count, 1);
    assert!(pending.is_empty());
    assert_eq!(c0.stash.subject_ids(), vec![Some(b)]);
    assert!(matches!(c1.get_resident_subject_head(a), MemoRefHead::Null));
    assert_eq!(c1.get_resident_subject_head_memo_ids(b), c0.get_resident_subject_head_memo_ids(b));
    assert_eq!(c1.get_resident_subject_head_memo_ids(b), vec![5003]);
    match c1.get_resident_subject_head(b) {
        MemoRefHead::Subject { head, .. } => {
            assert_eq!(head[0].owning_slab_id, c1.slab.id);
            assert!(!head[0].is_resident());
            assert_eq!(head[0].shared.peers.0[0].slabref.to_slab_id, c0.slab.id);
        }
        _ => panic!("expected a subject head"),
    }
}

#[test]
fn materialized_body_relations_are_empty() {
    let rs = RelationSet::empty();
    assert!(rs.relations.is_empty());
}

fn resident_memo(head: &MemoRefHead, slab: &mut Slab) -> lib::memo::Memo {
    match head {
        MemoRefHead::Subject { head, .. } => match head[0].get_memo(slab) {
            MemoFetch::Ready(m) => m,
            _ => panic!("expected a resident memo"),
        },
        _ => panic!("expected a subject head"),
    }
}

#[test]
fn sent_heads_are_filled_in_from_the_sender() {
    let mut net = Network::new(false);
    let mut c0 = context_on(&mut net);
    let mut c1 = context_on(&mut net);
    let a = c0.slab.generate_subject_id(SubjectType::Record);
    let ha = c0.add_test_subject(a, vec![]).unwrap();
    let newer = c0.slab.new_memo_basic(Some(a), ha.clone(), MemoBody::Edge(EdgeSet::empty())).to_head();
    c0.apply_head(&newer).unwrap();
    assert!(c0.first_gap().is_none());
    assert_eq!(c0.hack_send_context(&mut c1).unwrap().0, 1);
    // the receiving context holds the memo as remote: its lineage has a gap
    let gap = c1.first_gap().expect("the sent memo is remote");
    assert_eq!(gap.id, 5002);
    assert!(!gap.is_resident());
    let from = c0.slab.my_ref.clone_for_slab(&c1.slab);
    let m2 = resident_memo(&newer, &mut c0.slab);
    c1.install_memo(&m2, &from);
    // the parent of the installed memo is the next gap
    let gap = c1.first_gap().expect("the parent is still remote");
    assert_eq!(gap.id, 5001);
    let m1 = resident_memo(&ha, &mut c0.slab);
    c1.install_memo(&m1, &from);
    assert!(c1.first_gap().is_none());
    // installing again changes nothing
    c1.install_memo(&m1, &from);
    assert!(c1.first_gap().is_none());
    assert_eq!(c1.get_resident_subject_head_memo_ids(a), vec![5002]);
    let h1 = c1.get_resident_subject_head(a);
    assert!(h1.descends_or_contains(&ha, &c1.slab).unwrap());
    // the walks now run on the receiving slab
    c1.compact().unwrap();
    assert_eq!(c1.get_resident_subject_head_memo_ids(a), vec![5002]);
}

#[test]
fn head_gaps_name_foreign_and_remote_memos() {
    let mut net = Network::new(false);
    let mut c0 = context_on(&mut net);
    let c1 = context_on(&mut net);
    let a = c0.slab.generate_subject_id(SubjectType::Record);
    let ha = c0.add_test_subject(a, vec![]).unwrap();
    assert!(ha.first_gap(c0.slab.id).is_none());
    // a memo another slab owns cannot be read here
    assert_eq!(ha.first_gap(c1.slab.id).map(|g| g.id), Some(5001));
    assert!(MemoRefHead::new().first_gap(c1.slab.id).is_none());
    let from = c0.slab.my_ref.clone_for_slab(&c1.slab);
    let mut remote = ha.clone_for_slab(&from, &c1.slab, false);
    let gap = remote.first_gap(c1.slab.id).expect("remote");
    assert_eq!(gap.id, 5001);
    assert!(!gap.is_resident());
    let m = resident_memo(&ha, &mut c0.slab);
    // a memo with another id fills nothing
    let mut other = m.clone();
    other.id = 9;
    remote.install(&other, &from, &c1.slab);
    assert_eq!(remote.first_gap(c1.slab.id).map(|g| g.id), Some(5001));
    remote.install(&m, &from, &c1.slab);
    assert!(remote.first_gap(c1.slab.id).is_none());
    assert_eq!(remote.memo_ids(), vec![5001]);
}

#[test]
fn hack_send_context_again_sets_held_subjects_aside() {
    let mut net = Network::new(false);
    let mut c0 = context_on(&mut net);
    let mut c1 = context_on(&mut net);
    let a = c0.slab.generate_subject_id(SubjectType::Record);
    let ha = c0.add_test_subject(a, vec![]).unwrap();
    let (count, pending) = c0.hack_send_context(&mut c1).unwrap();
    assert_eq!(count, 1);
    assert!(pending.is_empty());
    // a newer memo of a, and a new subject b
    let newer = c0.slab.new_memo_basic(Some(a), ha.clone(), MemoBody::Edge(EdgeSet::empty())).to_head();
    c0.apply_head(&newer).unwrap();
    let b = c0.slab.generate_subject_id(SubjectType::Record);
    c0.add_test_subject(b, vec![]).unwrap();
    let (count, pending) = c0.hack_send_context(&mut c1).unwrap();
    assert_eq!(count, 2);
    // b was new to c1 and is applied; a is held by c1, so its head waits for retrieval
    assert_eq!(c1.get_resident_subject_head_memo_ids(b), c0.get_resident_subject_head_memo_ids(b));
    assert_eq!(pending.len(), 1);
    assert_eq!(pending[0].subject_id(), Some(a));
    assert_eq!(pending[0].memo_ids(), newer.memo_ids());
    assert_eq!(c1.get_resident_subject_head_memo_ids(a), ha.memo_ids());
    // once both lineages are filled in from c0, the set-aside head applies
    let from = c0.slab.my_ref.clone_for_slab(&c1.slab);
    let m1 = resident_memo(&ha, &mut c0.slab);
    let m2 = resident_memo(&newer, &mut c0.slab);
    let hb = c0.get_resident_subject_head(b);
    let m3 = resident_memo(&hb, &mut c0.slab);
    c1.install_memo(&m1, &from);
    assert_eq!(c1.first_gap().map(|g| g.id), Some(hb.memo_ids()[0]));
    c1.install_memo(&m3, &from);
    let mut head = pending[0].clone();
    head.install(&m2, &from, &c1.slab);
    head.install(&m1, &from, &c1.slab);
    assert!(c1.first_gap().is_none());
    assert!(head.first_gap(c1.slab.id).is_none());
    let merged = c1.apply_head(&head).unwrap();
    assert_eq!(merged.memo_ids(), newer.memo_ids());
}

#[test]
fn context_walks_name_the_memo_they_cannot_read() {
    let mut net = Network::new(false);
    let mut c0 = context_on(&mut net);
    let mut c1 = context_on(&mut net);
    let a = c0.slab.generate_subject_id(SubjectType::Record);
    let ha = c0.add_test_subject(a, vec![]).unwrap();
    c0.hack_send_context(&mut c1).unwrap();
    let last = c1.slab.counters.last_memo_id;
    // c1 holds a's memo as remote: compaction, sending and adding to a need it first
    assert_eq!(c1.compact().unwrap_err().id, 5001);
    assert_eq!(c1.slab.counters.last_memo_id, last);
    let mut c2 = context_on(&mut net);
    assert_eq!(c1.hack_send_context(&mut c2).unwrap_err().id, 5001);
    assert!(c2.stash.items.is_empty());
    assert_eq!(c1.add_test_subject(a, vec![]).unwrap_err().id, 5001);
    assert_eq!(c1.slab.counters.last_memo_id, last);
    // a subject c1 does not hold can be added
    let b = c1.slab.generate_subject_id(SubjectType::Record);
    assert!(c1.add_test_subject(b, vec![]).is_ok());
    // applying a head of a held subject needs both lineages
    let from = c0.slab.my_ref.clone_for_slab(&c1.slab);
    let newer = c0.slab.new_memo_basic(Some(a), ha.clone(), MemoBody::Edge(EdgeSet::empty())).to_head();
    let sent = newer.clone_for_slab(&from, &c1.slab, false);
    assert_eq!(c1.apply_head(&sent).unwrap_err().id, 5001);
    let m1 = resident_memo(&ha, &mut c0.slab);
    c1.install_memo(&m1, &from);
    assert_eq!(c1.apply_head(&sent).unwrap_err().id, newer.memo_ids()[0]);
    assert_eq!(c1.get_resident_subject_head_memo_ids(a), vec![5001]);
}

#[test]
fn a_clone_is_the_same_context() {
    let mut net = Network::new(false);
    let mut c1 = context_on(&mut net);
    let a = c1.slab.generate_subject_id(SubjectType::Record);
    c1.add_test_subject(a, vec![]).unwrap();
    let copy = c1.clone();
    assert!(!c1.cmp(&copy));
    assert_eq!(copy.get_resident_subject_head_memo_ids(a), vec![5001]);
    let c2 = context_on(&mut net);
    assert!(c1.cmp(&c2));
}

#[test]
fn root_index_gives_back_what_was_inserted() {
    let mut net = Network::create_new_system();
    let mut ctx = context_on(&mut net);
    let sid = SubjectId { id: 9, stype: SubjectType::Record };
    assert!(matches!(ctx.get_subject_by_id(sid), Err(RetrieveError::NotFound)));
    let h1 = ctx.add_test_subject(sid, vec![]).unwrap();
    ctx.root_index.as_mut().unwrap().insert(9, h1.clone());
    assert_eq!(ctx.get_subject_by_id(sid).unwrap().head.memo_ids(), h1.memo_ids());
    let h2 = ctx.slab.new_memo_basic(Some(sid), h1.clone(), MemoBody::Edge(EdgeSet::empty())).to_head();
    ctx.root_index.as_mut().unwrap().insert(9, h2.clone());
    assert_eq!(ctx.get_subject_by_id(sid).unwrap().head.memo_ids(), h2.memo_ids());
    let other = SubjectId { id: 10, stype: SubjectType::Record };
    assert!(matches!(ctx.get_subject_by_id(other), Err(RetrieveError::NotFound)));
}

#[test]
fn compact_at_the_end_of_the_counter_when_nothing_is_created() {
    let mut net = Network::new(false);
    let mut ctx = context_on(&mut net);
    let a = ctx.slab.generate_subject_id(SubjectType::Record);
    let b = ctx.slab.generate_subject_id(SubjectType::Record);
    ctx.add_test_subject(a, vec![]).unwrap();
    ctx.add_test_subject(b, vec![]).unwrap();
    ctx.slab.counters.last_memo_id = u32::MAX;
    ctx.compact().unwrap();
    assert_eq!(ctx.slab.counters.last_memo_id, u32::MAX);
    assert_eq!(ctx.stash.subject_ids(), vec![Some(a), Some(b)]);
}
