use votalizer::coordinator::{EventCoordinator, ValidatorEntry};
use votalizer::lockout::Lockout;
use votalizer::notifier::Config;
use votalizer::tower::{Tower, VoteBatch, VoteRecord};

fn s(text: &str) -> String {
    text.to_string()
}

#[test]
fn vote_event_creates_tower_and_counts() {
    let mut c = EventCoordinator::new(64, 64);
    let incidents = c.on_vote_event(&s("V"), &s("sig1"), &vec![10]);
    assert!(incidents.is_empty());
    assert_eq!(c.tracked_validators(), 1);
    assert_eq!(c.votes_processed(), 1);
    assert_eq!(c.incidents_observed(), 0);
    assert_eq!(c.towers[0].address, "V");
    assert_eq!(c.towers[0].tower.last_voted_slot(), Some(10));
}

#[test]
fn stale_vote_event_registers_nothing() {
    // Every slot at or below the tower's last voted slot is dropped:
    // zero registrations, counters and stack untouched.
    let mut c = EventCoordinator::new(64, 64);
    c.on_vote_event(&s("V"), &s("sig1"), &vec![10]);
    let incidents = c.on_vote_event(&s("V"), &s("sig2"), &vec![5, 10]);
    assert!(incidents.is_empty());
    assert_eq!(c.votes_processed(), 1);
    assert_eq!(c.towers[0].tower.votes.len(), 1);
    assert_eq!(c.towers[0].tower.last_voted_slot(), Some(10));
    // The stale transaction is not retained either.
    assert_eq!(c.towers[0].tower.vote_history.len(), 1);
}

#[test]
fn vote_slots_are_sorted_and_deduplicated() {
    let mut c = EventCoordinator::new(64, 64);
    let incidents = c.on_vote_event(&s("W"), &s("sig3"), &vec![12, 10, 10, 12]);
    assert!(incidents.is_empty());
    assert_eq!(c.votes_processed(), 2);
    let tower = &c.towers[0].tower;
    assert_eq!(tower.votes.len(), 2);
    assert_eq!(tower.votes[0].lockout.slot, 10);
    assert_eq!(tower.votes[0].lockout.confirmation_count, 2);
    assert_eq!(tower.votes[1].lockout.slot, 12);
    assert_eq!(tower.votes[1].lockout.confirmation_count, 1);
}

#[test]
fn duplicate_slot_event_reports_a_warning() {
    let mut c = EventCoordinator::new(64, 64);
    assert!(!c.on_slot_event(500, 4));
    assert!(c.on_slot_event(500, 9));
    assert_eq!(c.tracker.ancestors_of(500), Some(&vec![4u64]));
}

#[test]
fn violation_flows_through_the_coordinator() {
    let mut c = EventCoordinator::new(64, 64);
    c.on_slot_event(5, 4);
    c.on_slot_event(10, 5);
    c.on_slot_event(20, 5);
    c.on_slot_event(21, 20);
    c.towers.push(ValidatorEntry {
        address: s("V"),
        tower: Tower {
            votes: vec![VoteRecord {
                lockout: Lockout { slot: 10, confirmation_count: 4 },
                signature: s("sigA"),
            }],
            root_slot: Some(5),
            vote_history: vec![VoteBatch { signature: s("sigA"), slots: vec![10] }],
        },
    });
    let incidents = c.on_vote_event(&s("V"), &s("sigC"), &vec![21]);
    assert_eq!(incidents.len(), 1);
    assert_eq!(c.incidents_observed(), 1);
    assert_eq!(c.votes_processed(), 1);
    let incident = &incidents[0];
    assert_eq!(incident.validator, "V");
    assert_eq!(incident.signature, "sigC");
    assert_eq!(incident.vote_slot, 21);
    assert_eq!(incident.root_slot, 5);
    assert_eq!(incident.vote_fork, vec![20u64]);
    assert_eq!(incident.common_ancestors, vec![5u64]);
}

#[test]
fn two_validators_get_separate_towers() {
    let mut c = EventCoordinator::new(64, 64);
    c.on_vote_event(&s("V"), &s("sig1"), &vec![10]);
    c.on_vote_event(&s("W"), &s("sig2"), &vec![15]);
    c.on_vote_event(&s("V"), &s("sig3"), &vec![11]);
    assert_eq!(c.tracked_validators(), 2);
    assert_eq!(c.towers[0].address, "V");
    assert_eq!(c.towers[0].tower.last_voted_slot(), Some(11));
    assert_eq!(c.towers[1].address, "W");
    assert_eq!(c.towers[1].tower.last_voted_slot(), Some(15));
    assert_eq!(c.votes_processed(), 3);
}

#[test]
fn empty_vote_event_only_creates_the_tower() {
    let mut c = EventCoordinator::new(64, 64);
    let incidents = c.on_vote_event(&s("V"), &s("sig1"), &vec![]);
    assert!(incidents.is_empty());
    assert_eq!(c.tracked_validators(), 1);
    assert_eq!(c.votes_processed(), 0);
    assert!(c.towers[0].tower.votes.is_empty());
}

#[test]
fn alert_destinations_carry_their_settings() {
    let slack = Config::Slack { webhook: s("https://hooks.example/slack") };
    let discord = Config::Discord {
        webhook: s("https://hooks.example/discord"),
        username: s("votalizer"),
    };
    match slack {
        Config::Slack { webhook } => assert_eq!(webhook, "https://hooks.example/slack"),
        Config::Discord { .. } => panic!("wrong destination"),
    }
    match discord {
        Config::Discord { webhook, username } => {
            assert_eq!(webhook, "https://hooks.example/discord");
            assert_eq!(username, "votalizer");
        },
        Config::Slack { .. } => panic!("wrong destination"),
    }
}
