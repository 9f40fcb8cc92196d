use votalizer::lockout::{Lockout, MAX_LOCKOUT_HISTORY};

#[test]
fn lockout_period_grows_exponentially() {
    // last_locked_out_slot = slot + 2^confirmation_count.
    assert_eq!(Lockout { slot: 10, confirmation_count: 1 }.last_locked_out_slot(), 12);
    assert_eq!(Lockout { slot: 10, confirmation_count: 4 }.last_locked_out_slot(), 26);
    assert_eq!(Lockout { slot: 0, confirmation_count: 31 }.last_locked_out_slot(), 1 << 31);
}

#[test]
fn lockout_boundary_is_inclusive() {
    let lockout = Lockout { slot: 10, confirmation_count: 2 };
    // Locked through slot + 2^count, expired one slot later.
    assert!(lockout.is_locked_out_at_slot(14));
    assert!(!lockout.is_locked_out_at_slot(15));
}

#[test]
fn expiry_saturates_at_the_slot_range() {
    let lockout = Lockout { slot: u64::MAX - 1, confirmation_count: 1 };
    assert_eq!(lockout.last_locked_out_slot(), u64::MAX);
    assert!(lockout.is_locked_out_at_slot(u64::MAX));
}

#[test]
fn fresh_lockout_has_one_confirmation() {
    let lockout = Lockout::new(42);
    assert_eq!(lockout.slot, 42);
    assert_eq!(lockout.confirmation_count, 1);
}

#[test]
fn stack_capacity_is_the_protocol_depth() {
    assert_eq!(MAX_LOCKOUT_HISTORY, 31);
}
