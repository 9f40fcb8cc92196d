use votalizer::ancestry::AncestryTracker;
use votalizer::lockout::Lockout;
use votalizer::tower::{Tower, VoteBatch, VoteRecord};

fn s(text: &str) -> String {
    text.to_string()
}

#[test]
fn first_vote_builds_singleton_stack() {
    // A validator's first vote with no prior root: no incident, and the
    // stack becomes exactly that one slot.
    let mut tower = Tower::default();
    let tracker = AncestryTracker::new(16, 16);
    let incident = tower.process_vote_slot(&s("V"), 10, &s("sig1"), &tracker);
    assert!(incident.is_none());
    assert_eq!(tower.last_voted_slot(), Some(10));
    assert_eq!(tower.votes.len(), 1);
    assert_eq!(tower.votes[0].lockout.slot, 10);
    assert_eq!(tower.votes[0].lockout.confirmation_count, 1);
    assert!(tower.root_slot.is_none());
}

#[test]
fn second_vote_stacks_and_escalates() {
    // A later vote on the same fork, inside the first vote's lockout
    // window: no incident, the stack grows and the older entry gains
    // one confirmation.
    let mut tower = Tower::default();
    let mut tracker = AncestryTracker::new(16, 16);
    tracker.record_slot(10, 5);
    tracker.record_slot(11, 10);
    assert!(tower.process_vote_slot(&s("V"), 10, &s("sig1"), &tracker).is_none());
    assert!(tower.process_vote_slot(&s("V"), 11, &s("sig2"), &tracker).is_none());
    assert_eq!(tower.votes.len(), 2);
    assert_eq!(tower.votes[0].lockout.slot, 10);
    assert_eq!(tower.votes[0].lockout.confirmation_count, 2);
    assert_eq!(tower.votes[1].lockout.slot, 11);
    assert_eq!(tower.votes[1].lockout.confirmation_count, 1);
}

#[test]
fn descendant_vote_with_root_is_clean() {
    // Root known, ancestry known, and the locked slot is an ancestor of
    // the new vote: no incident.
    let mut tracker = AncestryTracker::new(16, 16);
    tracker.record_slot(5, 4);
    tracker.record_slot(10, 5);
    tracker.record_slot(20, 10);
    let mut tower = Tower {
        votes: vec![VoteRecord {
            lockout: Lockout { slot: 10, confirmation_count: 4 },
            signature: s("sigA"),
        }],
        root_slot: Some(5),
        vote_history: vec![],
    };
    let incident = tower.process_vote_slot(&s("V"), 20, &s("sigB"), &tracker);
    assert!(incident.is_none());
}

#[test]
fn conflicting_vote_produces_incident() {
    // Root known, the new slot is still inside the top entry's lockout,
    // and its lineage does not pass through that entry: an incident,
    // with the two fork paths split before any common ancestor at or
    // above the root.
    let mut tracker = AncestryTracker::new(16, 16);
    tracker.record_slot(5, 4);
    tracker.record_slot(10, 5);
    tracker.record_slot(20, 5);
    tracker.record_slot(21, 20);
    let mut tower = Tower {
        votes: vec![VoteRecord {
            lockout: Lockout { slot: 10, confirmation_count: 4 },
            signature: s("sigA"),
        }],
        root_slot: Some(5),
        vote_history: vec![VoteBatch { signature: s("sigA"), slots: vec![10] }],
    };
    let incident = tower
        .process_vote_slot(&s("V"), 21, &s("sigC"), &tracker)
        .expect("a lockout violation must be detected");
    assert_eq!(incident.validator, "V");
    assert_eq!(incident.signature, "sigC");
    assert_eq!(incident.vote_slot, 21);
    assert_eq!(incident.root_slot, 5);
    // 10 + 2^4
    assert_eq!(incident.last_lockout_slot, 26);
    assert_eq!(incident.tower.len(), 1);
    assert_eq!(incident.tower[0].slot, 10);
    assert_eq!(incident.tower[0].confirmation_count, 4);
    assert_eq!(incident.tower[0].last_locked_out_slot, 26);
    assert_eq!(incident.tower[0].signature, "sigA");
    // Ancestors of 21 at or above the root: {5, 20}; of 10: {5}.
    assert_eq!(incident.vote_fork, vec![20u64]);
    assert_eq!(incident.lockout_fork, Vec::<u64>::new());
    assert_eq!(incident.common_ancestors, vec![5u64]);
    assert_eq!(incident.vote_history.len(), 1);
    assert_eq!(incident.vote_history[0].signature, "sigA");
    assert_eq!(incident.vote_history[0].slots, vec![10u64]);
    // The conflicting vote still lands on the stack afterwards.
    assert_eq!(tower.votes.len(), 2);
    assert_eq!(tower.votes[1].lockout.slot, 21);
    assert_eq!(tower.root_slot, Some(5));
}

#[test]
fn unknown_ancestry_skips_the_check() {
    // The vote slot's ancestry is unknown: conservative skip, no
    // incident even though the lineage cannot be verified.
    let mut tracker = AncestryTracker::new(16, 16);
    tracker.record_slot(5, 4);
    tracker.record_slot(10, 5);
    let mut tower = Tower {
        votes: vec![VoteRecord {
            lockout: Lockout { slot: 10, confirmation_count: 4 },
            signature: s("sigA"),
        }],
        root_slot: Some(5),
        vote_history: vec![],
    };
    assert!(tower.process_vote_slot(&s("V"), 21, &s("sigC"), &tracker).is_none());
}

#[test]
fn expired_lockout_is_popped() {
    let mut tower = Tower::default();
    let tracker = AncestryTracker::new(16, 16);
    tower.process_vote_slot(&s("V"), 10, &s("sig1"), &tracker);
    // 10 is locked until 12; voting 13 expires it.
    tower.process_vote_slot(&s("V"), 13, &s("sig2"), &tracker);
    assert_eq!(tower.votes.len(), 1);
    assert_eq!(tower.votes[0].lockout.slot, 13);
    assert_eq!(tower.votes[0].lockout.confirmation_count, 1);
}

#[test]
fn consecutive_votes_escalate_bounded() {
    // After escalation every confirmation count stays within depth - i.
    let mut tower = Tower::default();
    let tracker = AncestryTracker::new(16, 16);
    tower.process_vote_slot(&s("V"), 10, &s("sig1"), &tracker);
    tower.process_vote_slot(&s("V"), 11, &s("sig2"), &tracker);
    tower.process_vote_slot(&s("V"), 12, &s("sig3"), &tracker);
    let confs: Vec<u32> = tower.votes.iter().map(|v| v.lockout.confirmation_count).collect();
    assert_eq!(confs, vec![3, 2, 1]);
    let depth = tower.votes.len();
    for (i, v) in tower.votes.iter().enumerate() {
        assert!(v.lockout.confirmation_count as usize <= depth - i);
    }
}

#[test]
fn root_set_when_stack_overflows() {
    let mut tower = Tower::default();
    let tracker = AncestryTracker::new(16, 16);
    for slot in 1..=31u64 {
        tower.process_vote_slot(&s("V"), slot, &s("sig"), &tracker);
    }
    assert_eq!(tower.votes.len(), 31);
    assert!(tower.root_slot.is_none());
    tower.process_vote_slot(&s("V"), 32, &s("sig"), &tracker);
    // The oldest entry was evicted into the root.
    assert_eq!(tower.votes.len(), 31);
    assert_eq!(tower.root_slot, Some(1));
    assert_eq!(tower.votes[0].lockout.slot, 2);
    assert_eq!(tower.last_voted_slot(), Some(32));
}

#[test]
fn root_never_moves_backward() {
    let mut tower = Tower::default();
    let tracker = AncestryTracker::new(16, 16);
    for slot in 1..=40u64 {
        tower.process_vote_slot(&s("V"), slot, &s("sig"), &tracker);
        if let Some(root) = tower.root_slot {
            assert!(root < tower.votes[0].lockout.slot);
        }
        assert!(tower.votes.len() <= 31);
    }
    assert_eq!(tower.root_slot, Some(9));
}

#[test]
fn vote_history_purged_up_to_oldest_stack_signature() {
    let mut tower = Tower::default();
    let tracker = AncestryTracker::new(16, 16);
    tower.process_vote_slot(&s("V"), 10, &s("sigB"), &tracker);
    // A signature that never reached the stack stays retained: no match.
    tower.record_vote_signature(s("sigA"), vec![8]);
    assert_eq!(tower.vote_history.len(), 1);
    // The oldest stack position owns sigB: everything before its entry
    // is purged.
    tower.record_vote_signature(s("sigB"), vec![10]);
    assert_eq!(tower.vote_history.len(), 1);
    assert_eq!(tower.vote_history[0].signature, "sigB");
    assert_eq!(tower.vote_history[0].slots, vec![10u64]);
}

#[test]
fn empty_tower_has_no_last_vote() {
    let tower = Tower::new();
    assert_eq!(tower.last_voted_slot(), None);
    assert!(tower.votes.is_empty());
    assert!(tower.vote_history.is_empty());
}
