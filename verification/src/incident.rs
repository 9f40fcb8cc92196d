//! Forensic incident records. An incident captures everything known
//! about a detected lockout violation: the violating validator, the
//! offending signature, the vote and root slots, a full stack dump,
//! the diverging fork paths above the root, their common ancestors,
//! and the retained vote history.

use vstd::prelude::*;
use crate::slots::{contains_slot, sorted_strict, sorted_strict_desc, Slot};
use crate::tower::{VoteBatch, VoteBatchView, VoteRecordView};

verus! {

/// One line of the stack dump: a stack entry at the moment of the
/// violation, with its derived expiry.
pub struct IncidentStackEntry {
    pub slot: Slot,
    pub confirmation_count: u32,
    pub last_locked_out_slot: Slot,
    pub signature: String,
}

/// Immutable forensic record of one lockout violation.
pub struct Incident {
    pub validator: String,
    pub signature: String,
    pub vote_slot: Slot,
    pub root_slot: Slot,
    pub last_lockout_slot: Slot,
    pub tower: Vec<IncidentStackEntry>,
    pub vote_fork: Vec<Slot>,
    pub lockout_fork: Vec<Slot>,
    pub common_ancestors: Vec<Slot>,
    pub vote_history: Vec<VoteBatch>,
}

/// Whether `x` lies on the fork lineage `anc` at or above the root.
pub open spec fn in_filtered(anc: Seq<Slot>, root: Slot, x: Slot) -> bool {
    anc.contains(x) && x >= root
}

/// What a faithful incident record holds, given the post-expiry stack,
/// the retained history, and the two ancestor lineages involved.
pub open spec fn incident_ok(
    inc: Incident,
    stack: Seq<VoteRecordView>,
    history: Seq<VoteBatchView>,
    anc_vote: Seq<Slot>,
    anc_lockout: Seq<Slot>,
    validator: Seq<char>,
    signature: Seq<char>,
    vote_slot: Slot,
    root: Slot,
) -> bool {
    &&& stack.len() > 0
    &&& inc.validator@ == validator
    &&& inc.signature@ == signature
    &&& inc.vote_slot == vote_slot
    &&& inc.root_slot == root
    &&& inc.last_lockout_slot == stack.last().last_locked_out_saturated()
    &&& inc.tower@.len() == stack.len()
    &&& forall|i: int|
        0 <= i < stack.len() ==> {
            let e = #[trigger] inc.tower@[i];
            e.slot == stack[i].slot && e.confirmation_count == stack[i].confirmation_count
                && e.last_locked_out_slot == stack[i].last_locked_out_saturated()
                && e.signature@ == stack[i].signature
        }
    &&& sorted_strict_desc(inc.vote_fork@)
    &&& forall|x: Slot|
        #[trigger] inc.vote_fork@.contains(x) <==> in_filtered(anc_vote, root, x)
            && !anc_lockout.contains(x)
    &&& sorted_strict_desc(inc.lockout_fork@)
    &&& forall|x: Slot|
        #[trigger] inc.lockout_fork@.contains(x) <==> in_filtered(anc_lockout, root, x)
            && !anc_vote.contains(x)
    &&& sorted_strict_desc(inc.common_ancestors@)
    &&& forall|x: Slot|
        #[trigger] inc.common_ancestors@.contains(x) <==> in_filtered(anc_vote, root, x)
            && anc_lockout.contains(x)
    &&& inc.vote_history@.map_values(|b: VoteBatch| b@) == history
}

/// The values of `primary` at or above the root, in descending order,
/// split by whether they also appear in `other`: with `keep_common`
/// the common ancestors, without it the diverging fork path.
pub fn descending_split(
    primary: &Vec<Slot>,
    other: &Vec<Slot>,
    root: Slot,
    keep_common: bool,
) -> (r: Vec<Slot>)
    requires
        sorted_strict(primary@),
    ensures
        sorted_strict_desc(r@),
        forall|x: Slot|
            #[trigger] r@.contains(x) <==> in_filtered(primary@, root, x) && other@.contains(x)
                == keep_common,
{
    let mut r: Vec<Slot> = Vec::new();
    let mut i: usize = primary.len();
    while i > 0
        invariant
            0 <= i <= primary.len(),
            sorted_strict(primary@),
            sorted_strict_desc(r@),
            forall|x: Slot|
                #[trigger] r@.contains(x) <==> primary@.skip(i as int).contains(x) && x >= root
                    && other@.contains(x) == keep_common,
        decreases i,
    {
        i -= 1;
        let x = primary[i];
        let ghost before = r@;
        let ghost tail = primary@.skip(i + 1);
        let keep = x >= root && contains_slot(other, x) == keep_common;
        if keep {
            proof {
                // Everything already collected comes from later, larger
                // positions, so pushing keeps the descending order.
                assert forall|k: int| 0 <= k < before.len() implies before[k] > x by {
                    assert(before.contains(before[k]));
                    assert(tail.contains(before[k]));
                    let j = choose|j: int| 0 <= j < tail.len() && tail[j] == before[k];
                    assert(primary@[i + 1 + j] == before[k]);
                }
            }
            r.push(x);
        }
        proof {
            assert(primary@.skip(i as int) =~= seq![x] + tail);
            assert forall|y: Slot|
                #[trigger] r@.contains(y) <==> (primary@.skip(i as int).contains(y) && y >= root
                    && other@.contains(y) == keep_common) by {
                let cur = primary@.skip(i as int);
                assert(cur[0] == x);
                assert(forall|j: int| 0 <= j < tail.len() ==> cur[j + 1] == tail[j]);
                if r@.contains(y) {
                    let k = choose|k: int| 0 <= k < r@.len() && r@[k] == y;
                    if k < before.len() {
                        assert(before[k] == y);
                        assert(before.contains(y));
                        assert(tail.contains(y));
                        let j = choose|j: int| 0 <= j < tail.len() && tail[j] == y;
                        assert(cur[j + 1] == y);
                        assert(cur.contains(y));
                    } else {
                        assert(keep && y == x);
                        assert(cur.contains(x));
                    }
                }
                if cur.contains(y) && y >= root && other@.contains(y) == keep_common {
                    let j = choose|j: int| 0 <= j < cur.len() && cur[j] == y;
                    if j == 0 {
                        assert(y == x && keep);
                        assert(r@[r@.len() - 1] == x);
                        assert(r@.contains(y));
                    } else {
                        assert(tail[j - 1] == y);
                        assert(tail.contains(y));
                        assert(before.contains(y));
                        let k = choose|k: int| 0 <= k < before.len() && before[k] == y;
                        assert(r@[k] == y);
                        assert(r@.contains(y));
                    }
                }
            }
        }
    }
    proof {
        assert(primary@.skip(0) =~= primary@);
    }
    r
}

} // verus!
