//! Lockout arithmetic. A vote on a slot is time-locked: it may not be
//! abandoned until the chain has advanced past a deadline that grows
//! exponentially with the vote's confirmation count.

use vstd::prelude::*;
use vstd::arithmetic::power2::pow2;
use vstd::bits::{lemma_u64_pow2_no_overflow, lemma_u64_shl_is_mul};
use crate::slots::Slot;

verus! {

/// Maximum depth of the lockout stack: the protocol's maximum lockout
/// history.
pub const MAX_LOCKOUT_HISTORY: usize = 31;

/// A voted slot together with the number of times the vote has been
/// reinforced by later votes stacked above it.
#[derive(Clone, Copy, Debug)]
pub struct Lockout {
    pub slot: Slot,
    pub confirmation_count: u32,
}

impl Lockout {
    /// Number of slots the vote stays locked for: `2^confirmation_count`.
    pub open spec fn lockout_period(self) -> nat {
        pow2(self.confirmation_count as nat)
    }

    /// Last slot at which this vote is still locked out.
    pub open spec fn last_locked_out(self) -> int {
        self.slot + self.lockout_period()
    }

    /// Whether voting on `next_slot` would still conflict with this
    /// lockout; expiry is `next_slot > last_locked_out()`.
    pub open spec fn locked_out_at(self, next_slot: Slot) -> bool {
        next_slot <= self.last_locked_out()
    }

    /// `last_locked_out()` clamped into the slot range.
    pub open spec fn last_locked_out_saturated(self) -> Slot {
        if self.last_locked_out() > u64::MAX {
            u64::MAX
        } else {
            self.last_locked_out() as Slot
        }
    }

    /// A fresh lockout for a newly voted slot, with one confirmation.
    pub fn new(slot: Slot) -> (r: Self)
        ensures
            r.slot == slot,
            r.confirmation_count == 1,
    {
        Lockout { slot, confirmation_count: 1 }
    }

    /// Whether this vote is still locked out when `next_slot` arrives.
    pub fn is_locked_out_at_slot(&self, next_slot: Slot) -> (r: bool)
        requires
            self.confirmation_count < 64,
        ensures
            r == self.locked_out_at(next_slot),
    {
        proof {
            lemma_u64_pow2_no_overflow(self.confirmation_count as nat);
            lemma_u64_shl_is_mul(1u64, self.confirmation_count as u64);
        }
        let period: u64 = 1u64 << (self.confirmation_count as u64);
        (next_slot as u128) <= (self.slot as u128) + (period as u128)
    }

    /// The last locked-out slot, saturating at the top of the slot range.
    pub fn last_locked_out_slot(&self) -> (r: Slot)
        requires
            self.confirmation_count < 64,
        ensures
            r == self.last_locked_out_saturated(),
    {
        proof {
            lemma_u64_pow2_no_overflow(self.confirmation_count as nat);
            lemma_u64_shl_is_mul(1u64, self.confirmation_count as u64);
        }
        let period: u64 = 1u64 << (self.confirmation_count as u64);
        let total: u128 = (self.slot as u128) + (period as u128);
        if total > u64::MAX as u128 {
            u64::MAX
        } else {
            total as u64
        }
    }
}

} // verus!
