//! The single consumer of both event sources. Owns the validator map,
//! the ancestry cache and the running counters; routes block-production
//! events into the cache and vote events through the towers, and hands
//! any detected incidents back to the caller for delivery.

use vstd::prelude::*;
use crate::ancestry::{AncestryTracker, TrackerView};
use crate::incident::{incident_ok, Incident};
use crate::slots::{filter_above, prepare_slots, prepare_spec, votes_above, Slot};
use crate::tower::{
    after_expiry, detects_violation, record_signature_spec, register_step, Tower, TowerView,
};

verus! {

/// One tracked validator and its tower.
pub struct ValidatorEntry {
    pub address: String,
    pub tower: Tower,
}

/// Ghost image of a tracked validator.
#[verifier::ext_equal]
pub struct ValidatorEntryView {
    pub address: Seq<char>,
    pub tower: TowerView,
}

impl View for ValidatorEntry {
    type V = ValidatorEntryView;

    open spec fn view(&self) -> ValidatorEntryView {
        ValidatorEntryView { address: self.address@, tower: self.tower@ }
    }
}

/// Index of the entry for `address`, or the count when absent.
pub open spec fn addr_index(ts: Seq<ValidatorEntryView>, address: Seq<char>) -> int
    decreases ts.len(),
{
    if ts.len() == 0 {
        0
    } else if ts[0].address == address {
        0
    } else {
        1 + addr_index(ts.drop_first(), address)
    }
}

pub proof fn lemma_addr_index(ts: Seq<ValidatorEntryView>, address: Seq<char>)
    ensures
        0 <= addr_index(ts, address) <= ts.len(),
        addr_index(ts, address) < ts.len() ==> ts[addr_index(ts, address)].address == address,
        forall|j: int| 0 <= j < addr_index(ts, address) ==> ts[j].address != address,
    decreases ts.len(),
{
    if ts.len() > 0 && ts[0].address != address {
        lemma_addr_index(ts.drop_first(), address);
        assert(forall|j: int|
            1 <= j < addr_index(ts, address) ==> ts[j] == ts.drop_first()[j - 1]);
    }
}

pub proof fn lemma_addr_index_from_scan(ts: Seq<ValidatorEntryView>, address: Seq<char>, i: int)
    requires
        0 <= i <= ts.len(),
        forall|j: int| 0 <= j < i ==> ts[j].address != address,
        i < ts.len() ==> ts[i].address == address,
    ensures
        addr_index(ts, address) == i,
    decreases ts.len(),
{
    if ts.len() > 0 && ts[0].address != address {
        assert(i >= 1);
        lemma_addr_index_from_scan(ts.drop_first(), address, i - 1);
    }
}

/// The tower of a never-seen validator: empty stack, no root, no history.
pub open spec fn empty_tower() -> TowerView {
    TowerView { stack: Seq::empty(), root_slot: None, history: Seq::empty() }
}

/// The tower the coordinator holds for `address`, or the empty tower.
pub open spec fn tower_of(ts: Seq<ValidatorEntryView>, address: Seq<char>) -> TowerView {
    if addr_index(ts, address) < ts.len() {
        ts[addr_index(ts, address)].tower
    } else {
        empty_tower()
    }
}

/// The tower after registering each slot in order.
pub open spec fn register_seq(t: TowerView, slots: Seq<Slot>, signature: Seq<char>) -> TowerView
    decreases slots.len(),
{
    if slots.len() == 0 {
        t
    } else {
        register_step(register_seq(t, slots.drop_last(), signature), slots.last(), signature)
    }
}

/// The positions, in order, at which registering the slots detects a
/// lockout violation.
pub open spec fn detect_indices(
    t: TowerView,
    tracker: TrackerView,
    slots: Seq<Slot>,
    signature: Seq<char>,
) -> Seq<int>
    decreases slots.len(),
{
    if slots.len() == 0 {
        Seq::empty()
    } else {
        let d = detect_indices(t, tracker, slots.drop_last(), signature);
        if detects_violation(
            register_seq(t, slots.drop_last(), signature),
            tracker,
            slots.last(),
        ) {
            d.push(slots.len() - 1)
        } else {
            d
        }
    }
}

/// What a faithful incident holds at one registration step, given the
/// tower state `t` just before the violating slot was registered.
pub open spec fn step_incident_ok(
    inc: Incident,
    t: TowerView,
    tracker: TrackerView,
    address: Seq<char>,
    signature: Seq<char>,
    slot: Slot,
) -> bool {
    incident_ok(
        inc,
        after_expiry(t.stack, slot),
        t.history,
        tracker.ancestors_of(slot),
        tracker.ancestors_of(after_expiry(t.stack, slot).last().slot),
        address,
        signature,
        slot,
        t.root_slot->Some_0,
    )
}

/// `a + b` clamped into the counter range.
pub open spec fn sat_add(a: u64, b: int) -> u64 {
    if a + b > u64::MAX {
        u64::MAX
    } else {
        (a + b) as u64
    }
}

/// Ghost image of the coordinator.
#[verifier::ext_equal]
pub struct CoordinatorView {
    pub towers: Seq<ValidatorEntryView>,
    pub tracker: TrackerView,
    pub processed_vote_counter: u64,
    pub incident_counter: u64,
}

impl CoordinatorView {
    pub open spec fn wf(self) -> bool {
        &&& self.tracker.wf()
        &&& forall|i: int, j: int|
            0 <= i < j < self.towers.len() ==> self.towers[i].address != self.towers[j].address
        &&& forall|i: int| 0 <= i < self.towers.len() ==> (#[trigger] self.towers[i].tower).wf()
    }
}

/// Owns every validator's tower, the ancestry cache and the running
/// counters. A single logical thread drives it, so no locking exists.
pub struct EventCoordinator {
    pub towers: Vec<ValidatorEntry>,
    pub tracker: AncestryTracker,
    pub processed_vote_counter: u64,
    pub incident_counter: u64,
}

impl View for EventCoordinator {
    type V = CoordinatorView;

    open spec fn view(&self) -> CoordinatorView {
        CoordinatorView {
            towers: self.towers@.map_values(|e: ValidatorEntry| e@),
            tracker: self.tracker@,
            processed_vote_counter: self.processed_vote_counter,
            incident_counter: self.incident_counter,
        }
    }
}

impl EventCoordinator {
    /// A coordinator with no validators, an empty ancestry cache under
    /// the given caps, and zeroed counters.
    pub fn new(max_ancestors: usize, max_slots: usize) -> (r: Self)
        requires
            1 <= max_ancestors < usize::MAX,
            1 <= max_slots < usize::MAX,
        ensures
            r@.wf(),
            r@.towers.len() == 0,
            r@.tracker.entries.len() == 0,
            r@.tracker.max_ancestors == max_ancestors as int,
            r@.tracker.max_slots == max_slots as int,
            r@.processed_vote_counter == 0,
            r@.incident_counter == 0,
    {
        let r = EventCoordinator {
            towers: Vec::new(),
            tracker: AncestryTracker::new(max_ancestors, max_slots),
            processed_vote_counter: 0,
            incident_counter: 0,
        };
        proof {
            assert(r@.towers =~= Seq::<ValidatorEntryView>::empty());
        }
        r
    }

    /// A block-production event: records the slot under its parent's
    /// lineage. Returns whether the slot was a duplicate arrival, which
    /// the caller should warn about; the first-recorded entry stays.
    pub fn on_slot_event(&mut self, slot: Slot, parent: Slot) -> (duplicate: bool)
        requires
            old(self)@.wf(),
        ensures
            final(self)@.wf(),
            final(self)@.towers == old(self)@.towers,
            final(self)@.processed_vote_counter == old(self)@.processed_vote_counter,
            final(self)@.incident_counter == old(self)@.incident_counter,
            duplicate == old(self)@.tracker.knows(slot),
            duplicate ==> final(self)@.tracker == old(self)@.tracker,
            !duplicate ==> final(self)@.tracker == old(self)@.tracker.record_spec(slot, parent),
    {
        self.tracker.record_slot(slot, parent)
    }

    /// Number of validators currently tracked.
    pub fn tracked_validators(&self) -> (r: usize)
        ensures
            r == self@.towers.len(),
    {
        self.towers.len()
    }

    /// A vote event. The slots are sorted and deduplicated — the
    /// resulting list is strictly ascending by construction, so the
    /// well-formedness the protocol demands of it holds by proof rather
    /// than by a runtime abort — stale slots (at or below the tower's
    /// last voted slot) are silently dropped, and the rest are
    /// registered in ascending order; a tower is created on first sight
    /// of a validator. Returns the incidents the event provoked, oldest
    /// first.
    #[verifier::rlimit(100)]
    pub fn on_vote_event(
        &mut self,
        vote_account_address: &String,
        signature: &String,
        slots: &Vec<Slot>,
    ) -> (incidents: Vec<Incident>)
        requires
            old(self)@.wf(),
        ensures
            final(self)@.wf(),
            final(self)@.tracker == old(self)@.tracker,
            ({
                let ts = old(self)@.towers;
                let addr = vote_account_address@;
                let t0 = tower_of(ts, addr);
                let nv = votes_above(prepare_spec(slots@), t0.last_voted());
                let t1 = if nv.len() > 0 {
                    record_signature_spec(t0, signature@, nv)
                } else {
                    t0
                };
                let tf = register_seq(t1, nv, signature@);
                let det = detect_indices(t1, old(self)@.tracker, nv, signature@);
                &&& final(self)@.towers == if addr_index(ts, addr) < ts.len() {
                    ts.update(
                        addr_index(ts, addr),
                        ValidatorEntryView { address: addr, tower: tf },
                    )
                } else {
                    ts.push(ValidatorEntryView { address: addr, tower: tf })
                }
                &&& final(self)@.processed_vote_counter == sat_add(
                    old(self)@.processed_vote_counter,
                    nv.len() as int,
                )
                &&& final(self)@.incident_counter == sat_add(
                    old(self)@.incident_counter,
                    det.len() as int,
                )
                &&& incidents@.len() == det.len()
                &&& forall|j: int|
                    0 <= j < det.len() ==> step_incident_ok(
                        #[trigger] incidents@[j],
                        register_seq(t1, nv.take(det[j]), signature@),
                        old(self)@.tracker,
                        addr,
                        signature@,
                        nv[det[j]],
                    )
            }),
    {
        let ghost ts0 = self@.towers;
        let ghost addr = vote_account_address@;

        let ghost p0 = self.processed_vote_counter;
        let ghost i0 = self.incident_counter;

        // Find this validator's tower, creating one on first sight.
        let mut idx: usize = 0;
        let n = self.towers.len();
        while idx < n
            invariant
                0 <= idx <= n,
                n == self.towers.len(),
                self@.towers == ts0,
                addr == vote_account_address@,
                forall|j: int| 0 <= j < idx ==> ts0[j].address != addr,
            ensures
                0 <= idx <= n,
                self@.towers == ts0,
                forall|j: int| 0 <= j < idx ==> ts0[j].address != addr,
                idx < n ==> ts0[idx as int].address == addr,
            decreases n - idx,
        {
            proof {
                assert(ts0[idx as int] == self.towers@[idx as int]@);
            }
            if self.towers[idx].address == *vote_account_address {
                proof {
                    assert(ts0[idx as int].address == addr);
                }
                break;
            }
            idx += 1;
        }
        let ghost known = addr_index(ts0, addr) < ts0.len();
        if idx == n {
            proof {
                lemma_addr_index_from_scan(ts0, addr, n as int);
            }
            self.towers.push(
                ValidatorEntry { address: vote_account_address.clone(), tower: Tower::new() },
            );
            proof {
                assert(self@.towers =~~= ts0.push(
                    ValidatorEntryView { address: addr, tower: empty_tower() },
                ));
            }
        } else {
            proof {
                lemma_addr_index_from_scan(ts0, addr, idx as int);
            }
        }
        let ghost t0 = tower_of(ts0, addr);
        let ghost ts1 = self@.towers;
        proof {
            assert(ts1[idx as int].tower == t0);
            assert(ts1[idx as int].address == addr);
            assert(t0.wf()) by {
                if known {
                    assert(ts0[idx as int].tower.wf());
                } else {
                    assert(t0 == empty_tower());
                }
            }
        }

        // Sort, deduplicate, and drop slots at or below the last vote.
        let prepared = prepare_slots(slots);
        let last = self.towers[idx].tower.last_voted_slot();
        let new_votes = filter_above(&prepared, last);
        let ghost nv = votes_above(prepare_spec(slots@), t0.last_voted());
        proof {
            assert(new_votes@ == nv);
        }

        let mut incidents: Vec<Incident> = Vec::new();
        if new_votes.len() == 0 {
            proof {
                assert(incidents@ =~= Seq::<Incident>::empty());
                lemma_towers_unchanged(ts0, ts1, addr, idx as int);
                assert(register_seq(t0, nv, signature@) == t0);
                assert(detect_indices(t0, self@.tracker, nv, signature@)
                    =~= Seq::<int>::empty());
                assert(self.processed_vote_counter == sat_add(p0, 0));
                assert(self.incident_counter == sat_add(i0, 0));
                assert(self@.wf()) by {
                    lemma_addr_index(ts0, addr);
                    assert(forall|k: int|
                        0 <= k < ts0.len() ==> (#[trigger] ts0[k].tower).wf());
                }
            }
            return incidents;
        }

        let recorded = crate::ancestry::copy_slots(&new_votes);
        self.towers[idx].tower.record_vote_signature(signature.clone(), recorded);
        let ghost t1 = record_signature_spec(t0, signature@, nv);
        proof {
            assert(self@.towers =~~= ts1.update(
                idx as int,
                ValidatorEntryView { address: addr, tower: t1 },
            ));
            // Recording the signature touches the history alone.
            assert(t1.stack == t0.stack && t1.root_slot == t0.root_slot);
            assert(t1.wf());
            assert(t1.last_voted() == t0.last_voted());
            // Every surviving slot lies above the tower's last vote, and
            // the batch is strictly ascending.
            crate::slots::lemma_prepare_spec_props(slots@);
            crate::slots::lemma_votes_above_sorted(prepare_spec(slots@), t0.last_voted());
            crate::slots::lemma_votes_above_props(prepare_spec(slots@), t0.last_voted());
            assert(forall|k: int| 0 <= k < nv.len() ==> nv.contains(#[trigger] nv[k]));
            // The first registration starts from the recorded tower.
            assert(nv.take(0) =~= Seq::<Slot>::empty());
            assert(register_seq(t1, nv.take(0), signature@) == t1);
            assert(detect_indices(t1, self@.tracker, nv.take(0), signature@)
                =~= Seq::<int>::empty());
        }

        let ghost tracker0 = self@.tracker;
        let mut j: usize = 0;
        while j < new_votes.len()
            invariant
                0 <= j <= new_votes.len(),
                new_votes@ == nv,
                addr == vote_account_address@,
                idx < self.towers@.len(),
                idx < ts1.len(),
                ts1.len() == self.towers@.len(),
                self@.tracker == tracker0,
                tracker0.wf(),
                t1.wf(),
                nv == votes_above(prepare_spec(slots@), t0.last_voted()),
                crate::slots::sorted_strict(nv),
                forall|k: int| 0 <= k < nv.len() ==> t1.last_voted() is Some
                    ==> nv[k] > t1.last_voted()->Some_0,
                self@.towers =~~= ts1.update(
                    idx as int,
                    ValidatorEntryView {
                        address: addr,
                        tower: register_seq(t1, nv.take(j as int), signature@),
                    },
                ),
                register_seq(t1, nv.take(j as int), signature@).wf(),
                register_seq(t1, nv.take(j as int), signature@).last_voted() is Some
                    ==> j > 0 || t1.last_voted() is Some,
                j > 0 ==> register_seq(t1, nv.take(j as int), signature@).last_voted()
                    == Some(nv[j - 1]),
                incidents@.len() == detect_indices(t1, tracker0, nv.take(j as int), signature@).len(),
                forall|m: int|
                    0 <= m < incidents@.len() ==> step_incident_ok(
                        #[trigger] incidents@[m],
                        register_seq(
                            t1,
                            nv.take(detect_indices(t1, tracker0, nv.take(j as int), signature@)[m]),
                            signature@,
                        ),
                        tracker0,
                        addr,
                        signature@,
                        nv[detect_indices(t1, tracker0, nv.take(j as int), signature@)[m]],
                    ),
                forall|m: int|
                    0 <= m < detect_indices(t1, tracker0, nv.take(j as int), signature@).len()
                        ==> 0 <= #[trigger] detect_indices(
                        t1,
                        tracker0,
                        nv.take(j as int),
                        signature@,
                    )[m] < j,
                self.processed_vote_counter == sat_add(p0, j as int),
                self.incident_counter == sat_add(
                    i0,
                    detect_indices(t1, tracker0, nv.take(j as int), signature@).len() as int,
                ),
            decreases new_votes.len() - j,
        {
            let ghost pre = register_seq(t1, nv.take(j as int), signature@);
            let ghost det_pre = detect_indices(t1, tracker0, nv.take(j as int), signature@);
            let slot = new_votes[j];
            proof {
                // The next slot lies above everything registered so far.
                if j > 0 {
                    assert(nv[j - 1] < nv[j as int]);
                }
                assert(pre.last_voted() is Some ==> slot > pre.last_voted()->Some_0);
                assert(nv.take(j + 1).drop_last() =~= nv.take(j as int));
                assert(nv.take(j + 1).last() == nv[j as int]);
            }
            if self.processed_vote_counter < u64::MAX {
                self.processed_vote_counter = self.processed_vote_counter + 1;
            }
            let ghost tw_before = self.towers@;
            proof {
                assert(self@.towers[idx as int] == ValidatorEntryView { address: addr, tower: pre });
                assert(tw_before[idx as int]@.tower == pre);
                assert(tw_before[idx as int]@.address == addr);
                assert(pre.wf());
            }
            let maybe_incident = self.towers[idx].tower.process_vote_slot(
                vote_account_address,
                slot,
                signature,
                &self.tracker,
            );
            proof {
                let stepped = register_seq(t1, nv.take(j + 1), signature@);
                assert(stepped == register_step(pre, nv[j as int], signature@));
                assert(self.towers@[idx as int]@.tower == stepped);
                assert(self.towers@[idx as int]@.address == addr);
                let goal = ts1.update(
                    idx as int,
                    ValidatorEntryView { address: addr, tower: stepped },
                );
                assert(self@.towers.len() == ts1.len());
                assert forall|k: int|
                    0 <= k < ts1.len() implies #[trigger] self@.towers[k] == goal[k] by {
                    assert(self@.towers[k] == self.towers@[k]@);
                    if k == idx {
                        assert(self.towers@[k]@ == ValidatorEntryView {
                            address: addr,
                            tower: stepped,
                        });
                    } else {
                        assert(self.towers@[k] == tw_before[k]);
                        assert(tw_before[k]@ == ts1.update(
                            idx as int,
                            ValidatorEntryView { address: addr, tower: pre },
                        )[k]);
                        assert(tw_before[k]@ == ts1[k]);
                    }
                }
                assert(self@.towers =~~= goal);
            }
            match maybe_incident {
                Some(incident) => {
                    incidents.push(incident);
                    if self.incident_counter < u64::MAX {
                        self.incident_counter = self.incident_counter + 1;
                    }
                    proof {
                        assert(detect_indices(t1, tracker0, nv.take(j + 1), signature@)
                            =~= det_pre.push(j as int));
                    }
                },
                None => {
                    proof {
                        assert(detect_indices(t1, tracker0, nv.take(j + 1), signature@)
                            =~= det_pre);
                    }
                },
            }
            j += 1;
        }
        proof {
            assert(nv.take(nv.len() as int) =~= nv);
            let tf = register_seq(t1, nv, signature@);
            let det = detect_indices(t1, tracker0, nv, signature@);
            assert(tf == register_seq(t1, nv.take(nv.len() as int), signature@));
            lemma_addr_index(ts0, addr);
            if known {
                assert(self@.towers =~~= ts0.update(
                    addr_index(ts0, addr),
                    ValidatorEntryView { address: addr, tower: tf },
                ));
            } else {
                assert(ts1 =~~= ts0.push(ValidatorEntryView { address: addr, tower: t0 }));
                assert(self@.towers =~~= ts0.push(ValidatorEntryView { address: addr, tower: tf }));
            }
            assert(self@.wf()) by {
                assert(forall|k: int|
                    0 <= k < ts0.len() ==> (#[trigger] ts0[k].tower).wf());
                assert(forall|k: int, l: int|
                    0 <= k < l < ts0.len() ==> ts0[k].address != ts0[l].address);
            }
        }
        incidents
    }

    /// Cumulative count of vote slots fed through the towers.
    pub fn votes_processed(&self) -> (r: u64)
        ensures
            r == self@.processed_vote_counter,
    {
        self.processed_vote_counter
    }

    /// Cumulative count of incidents detected.
    pub fn incidents_observed(&self) -> (r: u64)
        ensures
            r == self@.incident_counter,
    {
        self.incident_counter
    }
}

/// A vote event whose slots all lie at or below the tower's last voted
/// slot causes zero registrations: nothing survives the staleness
/// filter and the tower comes out exactly as it went in.
pub proof fn lemma_stale_votes_ignored(t: TowerView, slots: Seq<Slot>, signature: Seq<char>)
    requires
        t.last_voted() is Some,
        forall|i: int| 0 <= i < slots.len() ==> #[trigger] slots[i] <= t.last_voted()->Some_0,
    ensures
        votes_above(prepare_spec(slots), t.last_voted()).len() == 0,
        register_seq(t, votes_above(prepare_spec(slots), t.last_voted()), signature) == t,
{
    crate::slots::lemma_prepare_spec_props(slots);
    crate::slots::lemma_votes_above_props(prepare_spec(slots), t.last_voted());
    let nv = votes_above(prepare_spec(slots), t.last_voted());
    if nv.len() > 0 {
        let y = nv[0];
        assert(nv.contains(y));
        assert(slots.contains(y));
        let k = choose|k: int| 0 <= k < slots.len() && slots[k] == y;
        assert(slots[k] <= t.last_voted()->Some_0);
        assert(false);
    }
    assert(nv =~= Seq::<Slot>::empty());
}

/// An event whose slots were all stale leaves every tower as it was,
/// except that a first-seen validator gains an empty tower.
proof fn lemma_towers_unchanged(
    ts0: Seq<ValidatorEntryView>,
    ts1: Seq<ValidatorEntryView>,
    addr: Seq<char>,
    idx: int,
)
    requires
        0 <= idx <= ts0.len(),
        idx < ts0.len() ==> ts1 == ts0 && addr_index(ts0, addr) == idx,
        idx == ts0.len() ==> ts1 =~= ts0.push(
            ValidatorEntryView { address: addr, tower: empty_tower() },
        ) && addr_index(ts0, addr) == ts0.len(),
    ensures
        ts1 =~= if addr_index(ts0, addr) < ts0.len() {
            ts0.update(
                addr_index(ts0, addr),
                ValidatorEntryView { address: addr, tower: tower_of(ts0, addr) },
            )
        } else {
            ts0.push(ValidatorEntryView { address: addr, tower: tower_of(ts0, addr) })
        },
{
    lemma_addr_index(ts0, addr);
    if idx < ts0.len() {
        assert(ts0.update(idx, ValidatorEntryView { address: addr, tower: ts0[idx].tower })
            =~= ts0);
    }
}

} // verus!
