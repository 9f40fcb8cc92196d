//! Watches a stream of block-production and voting events from a
//! proof-of-stake network and detects lockout violations: a validator
//! casting a new vote that conflicts with a fork it was still
//! time-locked into. The detector is purely forensic; its only output
//! is an incident record.

pub mod ancestry;
pub mod coordinator;
pub mod incident;
pub mod lockout;
pub mod notifier;
pub mod slots;
pub mod tower;
