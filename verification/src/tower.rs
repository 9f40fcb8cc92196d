//! Per-validator lockout state machine: an ordered stack of vote
//! records (oldest first), an optional root slot, and a bounded
//! history of vote transactions. Replays a validator's vote stream
//! with the exact expiry, eviction and confirmation arithmetic the
//! consensus protocol itself uses, and detects lockout violations.

use vstd::prelude::*;
use vstd::arithmetic::power2::pow2;
use crate::ancestry::{copy_slots, AncestryTracker, TrackerView};
use crate::incident::{descending_split, incident_ok, Incident, IncidentStackEntry};
use crate::lockout::{Lockout, MAX_LOCKOUT_HISTORY};
use crate::slots::{contains_slot, Slot};

verus! {

/// One stack entry: a lockout and the signature of the vote
/// transaction that produced it.
pub struct VoteRecord {
    pub lockout: Lockout,
    pub signature: String,
}

/// Ghost image of a stack entry.
#[verifier::ext_equal]
pub struct VoteRecordView {
    pub slot: Slot,
    pub confirmation_count: u32,
    pub signature: Seq<char>,
}

impl View for VoteRecord {
    type V = VoteRecordView;

    open spec fn view(&self) -> VoteRecordView {
        VoteRecordView {
            slot: self.lockout.slot,
            confirmation_count: self.lockout.confirmation_count,
            signature: self.signature@,
        }
    }
}

impl VoteRecordView {
    /// Last slot at which this entry is still locked out.
    pub open spec fn last_locked_out(self) -> int {
        self.slot + pow2(self.confirmation_count as nat)
    }

    /// Whether the entry is still locked when `next_slot` arrives.
    pub open spec fn locked_out_at(self, next_slot: Slot) -> bool {
        next_slot <= self.last_locked_out()
    }

    /// `last_locked_out()` clamped into the slot range.
    pub open spec fn last_locked_out_saturated(self) -> Slot {
        if self.last_locked_out() > u64::MAX {
            u64::MAX
        } else {
            self.last_locked_out() as Slot
        }
    }
}

/// One retained vote transaction: its signature and the slots it voted.
pub struct VoteBatch {
    pub signature: String,
    pub slots: Vec<Slot>,
}

/// Ghost image of a retained vote transaction.
#[verifier::ext_equal]
pub struct VoteBatchView {
    pub signature: Seq<char>,
    pub slots: Seq<Slot>,
}

impl View for VoteBatch {
    type V = VoteBatchView;

    open spec fn view(&self) -> VoteBatchView {
        VoteBatchView { signature: self.signature@, slots: self.slots@ }
    }
}

/// Ghost image of a tower.
#[verifier::ext_equal]
pub struct TowerView {
    pub stack: Seq<VoteRecordView>,
    pub root_slot: Option<Slot>,
    pub history: Seq<VoteBatchView>,
}

impl TowerView {
    /// Stack slots strictly ascend, every confirmation count fits under
    /// the capacity, and the root lies strictly below the whole stack.
    pub open spec fn wf(self) -> bool {
        &&& self.stack.len() <= MAX_LOCKOUT_HISTORY
        &&& forall|i: int, j: int|
            0 <= i < j < self.stack.len() ==> self.stack[i].slot < self.stack[j].slot
        &&& forall|i: int|
            0 <= i < self.stack.len()
                ==> (#[trigger] self.stack[i].confirmation_count) as int
                    <= MAX_LOCKOUT_HISTORY as int - i
        &&& self.root_slot is Some
            ==> self.stack.len() > 0 && self.root_slot->Some_0 < self.stack[0].slot
    }

    /// The slot of the newest stack entry, if any.
    pub open spec fn last_voted(self) -> Option<Slot> {
        if self.stack.len() == 0 {
            None
        } else {
            Some(self.stack.last().slot)
        }
    }
}

/// How many of the oldest entries survive expiry against `next_slot`:
/// entries are popped from the top while no longer locked out.
pub open spec fn expiry_cut(stack: Seq<VoteRecordView>, next_slot: Slot) -> int
    decreases stack.len(),
{
    if stack.len() == 0 {
        0
    } else if stack.last().locked_out_at(next_slot) {
        stack.len() as int
    } else {
        expiry_cut(stack.drop_last(), next_slot)
    }
}

/// The stack once every expired top entry has been popped.
pub open spec fn after_expiry(stack: Seq<VoteRecordView>, next_slot: Slot) -> Seq<VoteRecordView> {
    stack.take(expiry_cut(stack, next_slot))
}

pub proof fn lemma_expiry_cut(stack: Seq<VoteRecordView>, next_slot: Slot)
    ensures
        0 <= expiry_cut(stack, next_slot) <= stack.len(),
        expiry_cut(stack, next_slot) > 0
            ==> stack[expiry_cut(stack, next_slot) - 1].locked_out_at(next_slot),
        forall|j: int|
            expiry_cut(stack, next_slot) <= j < stack.len()
                ==> !(#[trigger] stack[j]).locked_out_at(next_slot),
    decreases stack.len(),
{
    if stack.len() > 0 && !stack.last().locked_out_at(next_slot) {
        lemma_expiry_cut(stack.drop_last(), next_slot);
        assert(forall|j: int| 0 <= j < stack.len() - 1 ==> stack.drop_last()[j] == stack[j]);
    }
}

/// One confirmation escalation pass: each entry gains one confirmation
/// unless the stack already holds no more entries than its count spans.
pub open spec fn escalate(stack: Seq<VoteRecordView>) -> Seq<VoteRecordView> {
    Seq::new(
        stack.len(),
        |i: int|
            VoteRecordView {
                slot: stack[i].slot,
                confirmation_count: if stack.len() as int > i
                    + stack[i].confirmation_count as int {
                    (stack[i].confirmation_count + 1) as u32
                } else {
                    stack[i].confirmation_count
                },
                signature: stack[i].signature,
            },
    )
}

/// Registering one vote slot: expire, evict into the root when full,
/// push the fresh vote, escalate confirmations. History is untouched.
pub open spec fn register_step(v: TowerView, vote_slot: Slot, signature: Seq<char>) -> TowerView {
    let p = after_expiry(v.stack, vote_slot);
    let full = p.len() == MAX_LOCKOUT_HISTORY;
    let base = if full {
        p.skip(1)
    } else {
        p
    };
    TowerView {
        stack: escalate(
            base.push(VoteRecordView { slot: vote_slot, confirmation_count: 1, signature }),
        ),
        root_slot: if full {
            Some(p[0].slot)
        } else {
            v.root_slot
        },
        history: v.history,
    }
}

/// Whether registering `vote_slot` detects a lockout violation: the
/// root is set, the ancestry of the root, of the vote slot and of the
/// surviving top entry are all known, and the vote's lineage does not
/// pass through that top entry's slot. Any unknown input skips the
/// check — conservative, never a false positive from missing data.
pub open spec fn detects_violation(v: TowerView, tracker: TrackerView, vote_slot: Slot) -> bool {
    let p = after_expiry(v.stack, vote_slot);
    &&& v.root_slot is Some
    &&& tracker.knows(v.root_slot->Some_0)
    &&& tracker.knows(vote_slot)
    &&& p.len() > 0
    &&& tracker.knows(p.last().slot)
    &&& !tracker.ancestors_of(vote_slot).contains(p.last().slot)
}

/// Index of the first history entry bearing `signature`, or the
/// history length when none does.
pub open spec fn batch_index(h: Seq<VoteBatchView>, signature: Seq<char>) -> int
    decreases h.len(),
{
    if h.len() == 0 {
        0
    } else if h[0].signature == signature {
        0
    } else {
        1 + batch_index(h.drop_first(), signature)
    }
}

pub proof fn lemma_batch_index_from_scan(h: Seq<VoteBatchView>, signature: Seq<char>, i: int)
    requires
        0 <= i <= h.len(),
        forall|j: int| 0 <= j < i ==> h[j].signature != signature,
        i < h.len() ==> h[i].signature == signature,
    ensures
        batch_index(h, signature) == i,
    decreases h.len(),
{
    if h.len() > 0 && h[0].signature != signature {
        assert(i >= 1);
        lemma_batch_index_from_scan(h.drop_first(), signature, i - 1);
    }
}

/// Recording one vote transaction: append it, then purge history from
/// the front up to (not including) the entry whose signature the
/// oldest stack position owns; with no match, purge nothing.
pub open spec fn record_signature_spec(
    v: TowerView,
    signature: Seq<char>,
    slots: Seq<Slot>,
) -> TowerView {
    let h = v.history.push(VoteBatchView { signature, slots });
    let cut = if v.stack.len() == 0 {
        0
    } else {
        let p = batch_index(h, v.stack[0].signature);
        if p < h.len() {
            p
        } else {
            0
        }
    };
    TowerView { stack: v.stack, root_slot: v.root_slot, history: h.skip(cut) }
}

/// Per-validator lockout state: stack, root and retained vote history.
pub struct Tower {
    pub votes: Vec<VoteRecord>,
    pub root_slot: Option<Slot>,
    pub vote_history: Vec<VoteBatch>,
}

impl View for Tower {
    type V = TowerView;

    open spec fn view(&self) -> TowerView {
        TowerView {
            stack: self.votes@.map_values(|r: VoteRecord| r@),
            root_slot: self.root_slot,
            history: self.vote_history@.map_values(|b: VoteBatch| b@),
        }
    }
}

impl Tower {
    /// An empty tower: no lockouts, no root, no history. Empty means
    /// "never locked out"; the stack fills only with real votes.
    pub fn new() -> (r: Self)
        ensures
            r@.wf(),
            r@.stack.len() == 0,
            r@.root_slot is None,
            r@.history.len() == 0,
    {
        let r = Tower { votes: Vec::new(), root_slot: None, vote_history: Vec::new() };
        proof {
            assert(r@.stack =~= Seq::<VoteRecordView>::empty());
            assert(r@.history =~= Seq::<VoteBatchView>::empty());
        }
        r
    }

    /// The slot of the most recent vote still on the stack.
    pub fn last_voted_slot(&self) -> (r: Option<Slot>)
        ensures
            r == self@.last_voted(),
    {
        if self.votes.len() == 0 {
            None
        } else {
            Some(self.votes[self.votes.len() - 1].lockout.slot)
        }
    }

    /// Pops every top entry whose lockout has expired relative to the
    /// next vote slot, stopping at the first entry still locked. This
    /// lets a validator switch forks once its votes there have expired.
    fn pop_expired_votes(&mut self, next_vote_slot: Slot)
        requires
            old(self)@.wf(),
        ensures
            final(self)@.stack == after_expiry(old(self)@.stack, next_vote_slot),
            final(self)@.root_slot == old(self)@.root_slot,
            final(self)@.history == old(self)@.history,
    {
        let ghost s0 = old(self)@.stack;
        let ghost root0 = old(self)@.root_slot;
        let ghost hist0 = old(self)@.history;
        proof {
            lemma_expiry_cut(s0, next_vote_slot);
        }
        while self.votes.len() > 0
            invariant
                self@.stack =~= s0.take(self@.stack.len() as int),
                self@.stack.len() <= s0.len(),
                expiry_cut(self@.stack, next_vote_slot) == expiry_cut(s0, next_vote_slot),
                self@.root_slot == root0,
                self@.history == hist0,
                forall|k: int|
                    0 <= k < s0.len() ==> (#[trigger] s0[k].confirmation_count) as int
                        <= MAX_LOCKOUT_HISTORY as int,
            ensures
                self@.stack =~= s0.take(expiry_cut(s0, next_vote_slot)),
                self@.root_slot == root0,
                self@.history == hist0,
            decreases self.votes.len(),
        {
            let ghost cur = self@.stack;
            let n = self.votes.len();
            proof {
                assert(cur.len() == n);
                assert(cur.last() == self.votes@[n - 1]@);
                assert(cur[n - 1] == s0[n - 1]);
            }
            let locked = self.votes[n - 1].lockout.is_locked_out_at_slot(next_vote_slot);
            if locked {
                proof {
                    assert(expiry_cut(cur, next_vote_slot) == cur.len());
                }
                break;
            }
            self.votes.pop();
            proof {
                assert(self@.stack =~= cur.drop_last());
                assert(cur.drop_last() =~= s0.take(self@.stack.len() as int));
                assert(expiry_cut(cur, next_vote_slot) == expiry_cut(
                    cur.drop_last(),
                    next_vote_slot,
                ));
            }
        }
        proof {
            assert(self@.stack =~= after_expiry(s0, next_vote_slot));
        }
    }

    /// One escalation pass over the whole stack.
    fn double_lockouts(&mut self)
        requires
            old(self)@.stack.len() <= MAX_LOCKOUT_HISTORY,
            forall|i: int|
                0 <= i < old(self)@.stack.len()
                    ==> (#[trigger] old(self)@.stack[i].confirmation_count) as int
                        <= MAX_LOCKOUT_HISTORY as int,
        ensures
            final(self)@.stack == escalate(old(self)@.stack),
            final(self)@.root_slot == old(self)@.root_slot,
            final(self)@.history == old(self)@.history,
    {
        let ghost s0 = old(self)@.stack;
        let n = self.votes.len();
        let mut out: Vec<VoteRecord> = Vec::new();
        let mut i: usize = 0;
        while i < n
            invariant
                0 <= i <= n,
                n == self.votes.len(),
                self@.stack == s0,
                s0.len() == n,
                forall|k: int|
                    0 <= k < n ==> (#[trigger] s0[k].confirmation_count) as int
                        <= MAX_LOCKOUT_HISTORY as int,
                n <= MAX_LOCKOUT_HISTORY,
                out@.len() == i,
                forall|k: int| 0 <= k < i ==> (#[trigger] out@[k])@ == escalate(s0)[k],
            decreases n - i,
        {
            proof {
                assert(self.votes@[i as int]@ == s0[i as int]);
                assert(s0[i as int].confirmation_count as int <= MAX_LOCKOUT_HISTORY as int);
            }
            let slot = self.votes[i].lockout.slot;
            let conf = self.votes[i].lockout.confirmation_count;
            let next_conf: u32 = if n > i + conf as usize {
                conf + 1
            } else {
                conf
            };
            let signature = self.votes[i].signature.clone();
            out.push(VoteRecord { lockout: Lockout { slot, confirmation_count: next_conf }, signature });
            proof {
                assert(escalate(s0)[i as int] == VoteRecordView {
                    slot: s0[i as int].slot,
                    confirmation_count: next_conf,
                    signature: s0[i as int].signature,
                });
            }
            i += 1;
        }
        self.votes = out;
        proof {
            assert forall|k: int| 0 <= k < n implies self@.stack[k] == escalate(s0)[k] by {
                assert(self@.stack[k] == out@[k]@);
            }
            assert(self@.stack =~~= escalate(s0));
        }
    }

    /// Appends one vote transaction to the history, then discards
    /// history entries that predate the signature owned by the oldest
    /// stack position — they can never again appear in an incident.
    pub fn record_vote_signature(&mut self, signature: String, new_votes: Vec<Slot>)
        ensures
            final(self)@ == record_signature_spec(old(self)@, signature@, new_votes@),
    {
        let ghost v0 = old(self)@;
        let ghost pushed = v0.history.push(VoteBatchView { signature: signature@, slots: new_votes@ });
        self.vote_history.push(VoteBatch { signature, slots: new_votes });
        proof {
            assert(self@.history =~= pushed);
        }
        if self.votes.len() > 0 {
            let first_vote_signature = self.votes[0].signature.clone();
            proof {
                assert(first_vote_signature@ == v0.stack[0].signature);
            }
            // Position of the first history entry with that signature.
            let mut i: usize = 0;
            let mut found: bool = false;
            while i < self.vote_history.len() && !found
                invariant
                    0 <= i <= self.vote_history.len(),
                    self@.history == pushed,
                    first_vote_signature@ == v0.stack[0].signature,
                    !found ==> forall|j: int|
                        0 <= j < i ==> (#[trigger] pushed[j]).signature != first_vote_signature@,
                    found ==> i < pushed.len() && pushed[i as int].signature == first_vote_signature@
                        && forall|j: int|
                        0 <= j < i ==> (#[trigger] pushed[j]).signature != first_vote_signature@,
                decreases self.vote_history.len() - i + if found { 0int } else { 1int },
            {
                if self.vote_history[i].signature == first_vote_signature {
                    found = true;
                    proof {
                        assert(pushed[i as int].signature == first_vote_signature@);
                    }
                } else {
                    proof {
                        assert(pushed[i as int].signature != first_vote_signature@);
                    }
                    i += 1;
                }
            }
            let cut = if found {
                proof {
                    lemma_batch_index_from_scan(pushed, first_vote_signature@, i as int);
                }
                i
            } else {
                proof {
                    lemma_batch_index_from_scan(pushed, first_vote_signature@, pushed.len() as int);
                }
                0
            };
            let mut k: usize = 0;
            while k < cut
                invariant
                    0 <= k <= cut,
                    cut <= pushed.len(),
                    self.vote_history@.len() == pushed.len() - k,
                    self@.history =~= pushed.skip(k as int),
                    self@.stack == v0.stack,
                    self@.root_slot == v0.root_slot,
                decreases cut - k,
            {
                let ghost cur = self@.history;
                self.vote_history.remove(0);
                proof {
                    assert(self@.history =~= cur.skip(1));
                    assert(cur.skip(1) =~= pushed.skip(k + 1));
                }
                k += 1;
            }
            proof {
                assert(self@.history =~= pushed.skip(cut as int));
                assert(self@ == record_signature_spec(v0, signature@, new_votes@));
            }
        } else {
            proof {
                assert(self@ == record_signature_spec(v0, signature@, new_votes@));
            }
        }
    }
}

impl Tower {
    /// Builds the forensic record for a violation detected against the
    /// current (post-expiry) stack.
    #[verifier::rlimit(60)]
    fn build_incident(
        &self,
        vote_account_address: &String,
        vote_slot: Slot,
        signature: &String,
        tracker: &AncestryTracker,
        root_slot: Slot,
    ) -> (r: Incident)
        requires
            self@.stack.len() > 0,
            forall|i: int|
                0 <= i < self@.stack.len()
                    ==> (#[trigger] self@.stack[i].confirmation_count) as int
                        <= MAX_LOCKOUT_HISTORY as int,
            tracker@.wf(),
            tracker@.knows(vote_slot),
            tracker@.knows(self@.stack.last().slot),
        ensures
            incident_ok(
                r,
                self@.stack,
                self@.history,
                tracker@.ancestors_of(vote_slot),
                tracker@.ancestors_of(self@.stack.last().slot),
                vote_account_address@,
                signature@,
                vote_slot,
                root_slot,
            ),
    {
        let n = self.votes.len();
        proof {
            assert(self.votes@[n - 1]@ == self@.stack.last());
            assert(self@.stack[n - 1].confirmation_count as int <= MAX_LOCKOUT_HISTORY as int);
        }
        let top = &self.votes[n - 1];
        let top_slot = top.lockout.slot;
        let last_lockout_slot = top.lockout.last_locked_out_slot();

        let next_vote_ancestors = match tracker.ancestors_of(vote_slot) {
            Some(a) => a,
            None => unreached(),
        };
        let lockout_slot_ancestors = match tracker.ancestors_of(top_slot) {
            Some(a) => a,
            None => unreached(),
        };
        proof {
            crate::ancestry::lemma_key_index(tracker@.entries, vote_slot);
            crate::ancestry::lemma_key_index(tracker@.entries, top_slot);
            assert(crate::slots::sorted_strict(next_vote_ancestors@));
            assert(crate::slots::sorted_strict(lockout_slot_ancestors@));
        }

        let common_ancestors = descending_split(
            next_vote_ancestors,
            lockout_slot_ancestors,
            root_slot,
            true,
        );
        let vote_fork = descending_split(
            next_vote_ancestors,
            lockout_slot_ancestors,
            root_slot,
            false,
        );
        let lockout_fork = descending_split(
            lockout_slot_ancestors,
            next_vote_ancestors,
            root_slot,
            false,
        );

        let ghost stack = self@.stack;
        let mut tower_dump: Vec<IncidentStackEntry> = Vec::new();
        let mut i: usize = 0;
        while i < n
            invariant
                0 <= i <= n,
                n == self.votes.len(),
                stack == self@.stack,
                stack.len() == n,
                forall|k: int|
                    0 <= k < n ==> (#[trigger] stack[k].confirmation_count) as int
                        <= MAX_LOCKOUT_HISTORY as int,
                tower_dump@.len() == i,
                forall|k: int|
                    0 <= k < i ==> {
                        let e = #[trigger] tower_dump@[k];
                        e.slot == stack[k].slot
                            && e.confirmation_count == stack[k].confirmation_count
                            && e.last_locked_out_slot == stack[k].last_locked_out_saturated()
                            && e.signature@ == stack[k].signature
                    },
            decreases n - i,
        {
            proof {
                assert(self.votes@[i as int]@ == stack[i as int]);
                assert(stack[i as int].confirmation_count as int <= MAX_LOCKOUT_HISTORY as int);
            }
            let rec = &self.votes[i];
            tower_dump.push(
                IncidentStackEntry {
                    slot: rec.lockout.slot,
                    confirmation_count: rec.lockout.confirmation_count,
                    last_locked_out_slot: rec.lockout.last_locked_out_slot(),
                    signature: rec.signature.clone(),
                },
            );
            i += 1;
        }

        let vote_history = copy_batches(&self.vote_history);
        Incident {
            validator: vote_account_address.clone(),
            signature: signature.clone(),
            vote_slot,
            root_slot,
            last_lockout_slot,
            tower: tower_dump,
            vote_fork,
            lockout_fork,
            common_ancestors,
            vote_history,
        }
    }

    /// Registers one vote slot: expires stale lockouts, runs the
    /// violation check, evicts into the root when the stack is full,
    /// pushes the fresh vote and escalates confirmations. Returns the
    /// incident the vote provokes, if any. The caller feeds slots
    /// strictly above the tower's last voted slot, in ascending order.
    #[verifier::rlimit(100)]
    pub fn process_vote_slot(
        &mut self,
        vote_account_address: &String,
        vote_slot: Slot,
        signature: &String,
        tracker: &AncestryTracker,
    ) -> (r: Option<Incident>)
        requires
            old(self)@.wf(),
            tracker@.wf(),
            old(self)@.last_voted() is Some ==> vote_slot > old(self)@.last_voted()->Some_0,
        ensures
            final(self)@ == register_step(old(self)@, vote_slot, signature@),
            final(self)@.wf(),
            old(self)@.root_slot is Some ==> final(self)@.root_slot is Some
                && final(self)@.root_slot->Some_0 >= old(self)@.root_slot->Some_0,
            r is Some <==> detects_violation(old(self)@, tracker@, vote_slot),
            r is Some ==> incident_ok(
                r->Some_0,
                after_expiry(old(self)@.stack, vote_slot),
                old(self)@.history,
                tracker@.ancestors_of(vote_slot),
                tracker@.ancestors_of(after_expiry(old(self)@.stack, vote_slot).last().slot),
                vote_account_address@,
                signature@,
                vote_slot,
                old(self)@.root_slot->Some_0,
            ),
    {
        let ghost v0 = old(self)@;
        let ghost p = after_expiry(v0.stack, vote_slot);
        proof {
            lemma_expiry_cut(v0.stack, vote_slot);
        }
        self.pop_expired_votes(vote_slot);
        proof {
            assert(self@.stack == p);
            assert(forall|i: int| 0 <= i < p.len() ==> p[i] == v0.stack[i]);
        }

        let mut maybe_incident: Option<Incident> = None;
        if let Some(root_slot) = self.root_slot {
            if !tracker.contains(root_slot) {
                // Unknown root slot: cannot verify, skip the check.
            } else {
                match tracker.ancestors_of(vote_slot) {
                    None => {
                        // Unknown vote slot: cannot verify, skip the check.
                    },
                    Some(next_vote_ancestors) => {
                        if self.votes.len() > 0 {
                            let top_slot = self.votes[self.votes.len() - 1].lockout.slot;
                            proof {
                                assert(top_slot == p.last().slot);
                            }
                            if !tracker.contains(top_slot) {
                                // Unknown lockout slot: cannot verify.
                            } else if !contains_slot(next_vote_ancestors, top_slot) {
                                maybe_incident = Some(
                                    self.build_incident(
                                        vote_account_address,
                                        vote_slot,
                                        signature,
                                        tracker,
                                        root_slot,
                                    ),
                                );
                            }
                        }
                    },
                }
            }
        }
        proof {
            assert(maybe_incident is Some <==> detects_violation(v0, tracker@, vote_slot));
        }

        if self.votes.len() == MAX_LOCKOUT_HISTORY {
            let evicted = self.votes.remove(0);
            self.root_slot = Some(evicted.lockout.slot);
            proof {
                assert(self@.stack =~= p.skip(1));
                assert(evicted@ == p[0]);
            }
        }
        let ghost full = p.len() == MAX_LOCKOUT_HISTORY;
        let ghost base = if full {
            p.skip(1)
        } else {
            p
        };
        proof {
            assert(self@.stack == base);
        }
        self.votes.push(
            VoteRecord { lockout: Lockout::new(vote_slot), signature: signature.clone() },
        );
        proof {
            assert(self@.stack =~= base.push(
                VoteRecordView { slot: vote_slot, confirmation_count: 1, signature: signature@ },
            ));
            assert(self@.stack.len() <= MAX_LOCKOUT_HISTORY);
            assert(forall|i: int|
                0 <= i < self@.stack.len()
                    ==> (#[trigger] self@.stack[i].confirmation_count) as int
                        <= MAX_LOCKOUT_HISTORY as int);
        }
        self.double_lockouts();
        proof {
            assert(self@ == register_step(v0, vote_slot, signature@));
            lemma_register_step_wf(v0, vote_slot, signature@);
        }
        maybe_incident
    }
}

/// A fresh copy of the retained vote history.
fn copy_batches(v: &Vec<VoteBatch>) -> (r: Vec<VoteBatch>)
    ensures
        r@.map_values(|b: VoteBatch| b@) == v@.map_values(|b: VoteBatch| b@),
{
    let mut r: Vec<VoteBatch> = Vec::new();
    let mut i: usize = 0;
    while i < v.len()
        invariant
            0 <= i <= v.len(),
            r@.len() == i,
            forall|k: int| 0 <= k < i ==> (#[trigger] r@[k])@ == v@[k]@,
        decreases v.len() - i,
    {
        r.push(VoteBatch { signature: v[i].signature.clone(), slots: copy_slots(&v[i].slots) });
        i += 1;
    }
    proof {
        let ghost mr = r@.map_values(|b: VoteBatch| b@);
        let ghost mv = v@.map_values(|b: VoteBatch| b@);
        assert forall|k: int| 0 <= k < mv.len() implies #[trigger] mr[k] == mv[k] by {
            assert(mr[k] == r@[k]@);
            assert(mv[k] == v@[k]@);
        }
        assert(mr =~~= mv);
    }
    r
}

/// A lockout violation is detected exactly when the new vote's lineage
/// does not pass through the slot the validator was still locked into:
/// with the root set, the ancestry known, and a prior top-of-stack
/// entry still locked at the new slot, registering returns an incident
/// when the top slot is not among the new slot's ancestors, and none
/// when it is.
pub proof fn lemma_detection_exact(v: TowerView, tracker: TrackerView, vote_slot: Slot)
    requires
        v.root_slot is Some,
        tracker.knows(v.root_slot->Some_0),
        tracker.knows(vote_slot),
        after_expiry(v.stack, vote_slot).len() > 0,
        tracker.knows(after_expiry(v.stack, vote_slot).last().slot),
    ensures
        detects_violation(v, tracker, vote_slot) <==> !tracker.ancestors_of(vote_slot).contains(
            after_expiry(v.stack, vote_slot).last().slot,
        ),
{
}

/// Escalation touches confirmation counts alone, raises each by at
/// most one, and keeps every count within its position's headroom:
/// on a stack whose counts respect `depth - i`, they still do after.
pub proof fn lemma_escalation_bounds(stack: Seq<VoteRecordView>)
    requires
        stack.len() <= MAX_LOCKOUT_HISTORY,
        forall|i: int|
            0 <= i < stack.len() ==> (#[trigger] stack[i].confirmation_count) as int <= stack.len()
                - i,
    ensures
        escalate(stack).len() == stack.len(),
        forall|i: int|
            0 <= i < stack.len() ==> (#[trigger] escalate(stack)[i]).slot == stack[i].slot
                && escalate(stack)[i].signature == stack[i].signature,
        forall|i: int|
            0 <= i < stack.len() ==> stack[i].confirmation_count
                <= (#[trigger] escalate(stack)[i]).confirmation_count
                <= stack[i].confirmation_count + 1,
        forall|i: int|
            0 <= i < stack.len() ==> (#[trigger] escalate(stack)[i]).confirmation_count as int
                <= stack.len() - i,
{
}

/// Registering a vote above the last voted slot preserves the tower's
/// well-formedness, whatever the stack held.
pub proof fn lemma_register_step_wf(v: TowerView, vote_slot: Slot, signature: Seq<char>)
    requires
        v.wf(),
        v.last_voted() is Some ==> vote_slot > v.last_voted()->Some_0,
    ensures
        register_step(v, vote_slot, signature).wf(),
        v.root_slot is Some ==> register_step(v, vote_slot, signature).root_slot is Some
            && register_step(v, vote_slot, signature).root_slot->Some_0 >= v.root_slot->Some_0,
{
    lemma_expiry_cut(v.stack, vote_slot);
    let p = after_expiry(v.stack, vote_slot);
    let full = p.len() == MAX_LOCKOUT_HISTORY;
    let base = if full {
        p.skip(1)
    } else {
        p
    };
    let fresh = VoteRecordView { slot: vote_slot, confirmation_count: 1, signature };
    let pushed = base.push(fresh);
    let out = register_step(v, vote_slot, signature);
    assert(out.stack == escalate(pushed));
    assert(forall|i: int| 0 <= i < p.len() ==> p[i] == v.stack[i]);
    assert(forall|i: int|
        0 <= i < base.len() ==> base[i] == if full {
            v.stack[i + 1]
        } else {
            v.stack[i]
        });

    // Slots stay strictly ascending: the fresh slot tops everything.
    assert(forall|i: int| 0 <= i < base.len() ==> base[i].slot < vote_slot);

    // Escalation never lifts a count past its position's headroom.
    assert forall|i: int|
        0 <= i < out.stack.len() implies (#[trigger] out.stack[i].confirmation_count) as int
        <= MAX_LOCKOUT_HISTORY as int - i by {
        if i < base.len() {
            if full {
                assert(base[i].confirmation_count as int <= MAX_LOCKOUT_HISTORY as int - i - 1);
            }
        }
        if pushed.len() as int > i + pushed[i].confirmation_count as int {
            assert(pushed[i].confirmation_count as int <= MAX_LOCKOUT_HISTORY as int - i - 1);
        }
    }

    // The root stays strictly below the whole stack.
    if out.root_slot is Some {
        if full {
            assert(out.stack[0].slot == p[1].slot);
        } else {
            assert(v.root_slot is Some);
            if base.len() > 0 {
                assert(out.stack[0].slot == v.stack[0].slot);
            } else {
                assert(out.stack[0].slot == vote_slot);
                assert(vote_slot > v.stack.last().slot);
                assert(v.stack.last().slot >= v.stack[0].slot);
            }
        }
    }
}

impl Default for Tower {
    /// Same as `Tower::new`: a tower starts with an empty stack.
    fn default() -> (r: Self)
        ensures
            r@.wf(),
            r@.stack.len() == 0,
            r@.root_slot is None,
            r@.history.len() == 0,
    {
        Tower::new()
    }
}

} // verus!
