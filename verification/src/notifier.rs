//! Outbound alert configuration. Delivery itself — webhook formatting
//! and transport — is an external collaborator's concern; the library
//! only describes the configured destinations.

use vstd::prelude::*;

verus! {

/// One configured alert destination.
pub enum Config {
    Slack { webhook: String },
    Discord { webhook: String, username: String },
}

} // verus!
