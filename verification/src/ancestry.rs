//! Bounded ancestry cache: maps a slot to the set of slots known to
//! precede it on the same fork lineage. Each entry keeps at most a
//! fixed number of ancestors, dropping the smallest values first, and
//! the cache keeps at most a fixed number of entries, evicting the
//! oldest-inserted key first.

use vstd::prelude::*;
use crate::slots::{insert_sorted, insert_sorted_spec, sorted_strict, Slot};

verus! {

/// One cache entry: a slot and its known ancestors, strictly ascending.
pub struct AncestryEntry {
    pub slot: Slot,
    pub ancestors: Vec<Slot>,
}

/// Ghost image of a cache entry.
#[verifier::ext_equal]
pub struct AncestryEntryView {
    pub slot: Slot,
    pub ancestors: Seq<Slot>,
}

impl View for AncestryEntry {
    type V = AncestryEntryView;

    open spec fn view(&self) -> AncestryEntryView {
        AncestryEntryView { slot: self.slot, ancestors: self.ancestors@ }
    }
}

/// Index of the entry for `slot`, or the entry count when absent.
pub open spec fn key_index(es: Seq<AncestryEntryView>, slot: Slot) -> int
    decreases es.len(),
{
    if es.len() == 0 {
        0
    } else if es[0].slot == slot {
        0
    } else {
        1 + key_index(es.drop_first(), slot)
    }
}

pub proof fn lemma_key_index(es: Seq<AncestryEntryView>, slot: Slot)
    ensures
        0 <= key_index(es, slot) <= es.len(),
        key_index(es, slot) < es.len() ==> es[key_index(es, slot)].slot == slot,
        forall|j: int| 0 <= j < key_index(es, slot) ==> es[j].slot != slot,
    decreases es.len(),
{
    if es.len() > 0 && es[0].slot != slot {
        lemma_key_index(es.drop_first(), slot);
        assert(forall|j: int| 1 <= j < key_index(es, slot) ==> es[j] == es.drop_first()[j - 1]);
    }
}

/// A scan that found no entry before position `i` has found `key_index`.
pub proof fn lemma_key_index_from_scan(es: Seq<AncestryEntryView>, slot: Slot, i: int)
    requires
        0 <= i <= es.len(),
        forall|j: int| 0 <= j < i ==> es[j].slot != slot,
        i < es.len() ==> es[i].slot == slot,
    ensures
        key_index(es, slot) == i,
    decreases es.len(),
{
    if es.len() > 0 && es[0].slot != slot {
        assert(i >= 1);
        lemma_key_index_from_scan(es.drop_first(), slot, i - 1);
    }
}

/// The `cap` largest values of a strictly ascending sequence.
pub open spec fn capped(anc: Seq<Slot>, cap: int) -> Seq<Slot> {
    if anc.len() > cap {
        anc.skip(anc.len() - cap)
    } else {
        anc
    }
}

/// Ghost image of the whole cache, in insertion order.
#[verifier::ext_equal]
pub struct TrackerView {
    pub entries: Seq<AncestryEntryView>,
    pub max_ancestors: int,
    pub max_slots: int,
}

impl TrackerView {
    /// Whether the cache has an entry for `slot`.
    pub open spec fn knows(self, slot: Slot) -> bool {
        key_index(self.entries, slot) < self.entries.len()
    }

    /// The ancestors recorded for `slot`; empty when the slot is unknown.
    pub open spec fn ancestors_of(self, slot: Slot) -> Seq<Slot> {
        if self.knows(slot) {
            self.entries[key_index(self.entries, slot)].ancestors
        } else {
            Seq::empty()
        }
    }

    pub open spec fn wf(self) -> bool {
        &&& 1 <= self.max_ancestors < usize::MAX
        &&& 1 <= self.max_slots < usize::MAX
        &&& self.entries.len() <= self.max_slots
        &&& forall|i: int, j: int|
            0 <= i < j < self.entries.len() ==> self.entries[i].slot != self.entries[j].slot
        &&& forall|i: int|
            0 <= i < self.entries.len() ==> sorted_strict(#[trigger] self.entries[i].ancestors)
                && self.entries[i].ancestors.len() <= self.max_ancestors
    }

    /// The entries after making sure the parent has one; recording a
    /// slot first gives its previously unseen parent an empty entry.
    pub open spec fn with_parent_entry(self, slot: Slot, parent: Slot) -> Seq<AncestryEntryView> {
        if self.knows(parent) || parent == slot {
            self.entries
        } else {
            self.entries.push(AncestryEntryView { slot: parent, ancestors: Seq::empty() })
        }
    }

    /// Recording a newly seen slot: its ancestors are its parent's
    /// ancestors plus the parent, capped to the largest values; the
    /// oldest-inserted entries are evicted once the cache is over its
    /// entry cap.
    pub open spec fn record_spec(self, slot: Slot, parent: Slot) -> TrackerView {
        let anc = capped(
            insert_sorted_spec(self.ancestors_of(parent), parent),
            self.max_ancestors,
        );
        let appended = self.with_parent_entry(slot, parent).push(
            AncestryEntryView { slot, ancestors: anc },
        );
        let kept = if appended.len() > self.max_slots {
            appended.skip(appended.len() - self.max_slots)
        } else {
            appended
        };
        TrackerView { entries: kept, max_ancestors: self.max_ancestors, max_slots: self.max_slots }
    }
}

/// Bounded cache from a slot to its known fork ancestors.
pub struct AncestryTracker {
    pub entries: Vec<AncestryEntry>,
    pub max_ancestors: usize,
    pub max_slots: usize,
}

impl View for AncestryTracker {
    type V = TrackerView;

    open spec fn view(&self) -> TrackerView {
        TrackerView {
            entries: self.entries@.map_values(|e: AncestryEntry| e@),
            max_ancestors: self.max_ancestors as int,
            max_slots: self.max_slots as int,
        }
    }
}

impl AncestryTracker {
    /// An empty cache with the given per-entry ancestor cap and overall
    /// entry cap.
    pub fn new(max_ancestors: usize, max_slots: usize) -> (r: Self)
        requires
            1 <= max_ancestors < usize::MAX,
            1 <= max_slots < usize::MAX,
        ensures
            r@.wf(),
            r@.entries.len() == 0,
            r@.max_ancestors == max_ancestors as int,
            r@.max_slots == max_slots as int,
    {
        let r = AncestryTracker { entries: Vec::new(), max_ancestors, max_slots };
        proof {
            assert(r@.entries =~= Seq::<AncestryEntryView>::empty());
        }
        r
    }

    /// Position of the entry for `slot`, when there is one.
    fn find_entry(&self, slot: Slot) -> (r: Option<usize>)
        ensures
            r is Some <==> self@.knows(slot),
            r is Some ==> r->Some_0 == key_index(self@.entries, slot)
                && r->Some_0 < self@.entries.len(),
    {
        let ghost es = self@.entries;
        let mut i: usize = 0;
        while i < self.entries.len()
            invariant
                0 <= i <= self.entries.len(),
                es == self@.entries,
                es.len() == self.entries.len(),
                forall|j: int| 0 <= j < i ==> es[j].slot != slot,
            decreases self.entries.len() - i,
        {
            if self.entries[i].slot == slot {
                proof {
                    assert(es[i as int].slot == slot);
                    lemma_key_index_from_scan(es, slot, i as int);
                }
                return Some(i);
            }
            i += 1;
        }
        proof {
            lemma_key_index_from_scan(es, slot, es.len() as int);
        }
        None
    }

    /// Whether the cache has an entry for `slot`.
    pub fn contains(&self, slot: Slot) -> (r: bool)
        ensures
            r == self@.knows(slot),
    {
        self.find_entry(slot).is_some()
    }

    /// The ancestors recorded for `slot`. Absence means "unknown":
    /// downstream treats it as "cannot verify", never as an error.
    pub fn ancestors_of(&self, slot: Slot) -> (r: Option<&Vec<Slot>>)
        ensures
            r is Some <==> self@.knows(slot),
            r is Some ==> r->Some_0@ == self@.ancestors_of(slot),
    {
        match self.find_entry(slot) {
            Some(i) => Some(&self.entries[i].ancestors),
            None => None,
        }
    }

    /// Records a newly produced slot under its parent's lineage. A slot
    /// already present is a duplicate arrival: the cache is left
    /// unchanged and the caller is told to warn.
    #[verifier::rlimit(60)]
    pub fn record_slot(&mut self, slot: Slot, parent: Slot) -> (duplicate: bool)
        requires
            old(self)@.wf(),
        ensures
            final(self)@.wf(),
            duplicate == old(self)@.knows(slot),
            duplicate ==> final(self)@ == old(self)@,
            !duplicate ==> final(self)@ == old(self)@.record_spec(slot, parent),
    {
        let ghost tv = self@;
        if self.contains(slot) {
            return true;
        }

        // The new slot's ancestors: its parent's ancestors plus the
        // parent itself, keeping only the largest values once over cap.
        let mut anc: Vec<Slot> = match self.ancestors_of(parent) {
            Some(pa) => copy_slots(pa),
            None => Vec::new(),
        };
        proof {
            assert(anc@ == tv.ancestors_of(parent));
            assert(sorted_strict(anc@)) by {
                if tv.knows(parent) {
                    lemma_key_index(tv.entries, parent);
                }
            }
            assert(anc@.len() <= tv.max_ancestors) by {
                if tv.knows(parent) {
                    lemma_key_index(tv.entries, parent);
                }
            }
        }
        insert_sorted(&mut anc, parent);
        if anc.len() > self.max_ancestors {
            let ghost before = anc@;
            anc.remove(0);
            proof {
                assert(anc@ =~= before.skip(before.len() - self.max_ancestors as int));
            }
        }
        proof {
            assert(anc@ == capped(
                insert_sorted_spec(tv.ancestors_of(parent), parent),
                tv.max_ancestors,
            ));
        }

        if parent != slot && !self.contains(parent) {
            self.entries.push(AncestryEntry { slot: parent, ancestors: Vec::new() });
            proof {
                assert(self@.entries =~~= tv.with_parent_entry(slot, parent));
            }
        }
        proof {
            assert(self@.entries =~~= tv.with_parent_entry(slot, parent));
        }
        let ghost sorted_anc = anc@;
        self.entries.push(AncestryEntry { slot, ancestors: anc });
        let ghost appended = tv.with_parent_entry(slot, parent).push(
            AncestryEntryView { slot, ancestors: sorted_anc },
        );
        proof {
            assert(self@.entries =~~= appended);
        }
        while self.entries.len() > self.max_slots
            invariant
                self.entries@.len() <= appended.len(),
                self@.entries =~~= appended.skip(appended.len() - self.entries@.len()),
                self.max_slots as int == tv.max_slots,
                self.max_ancestors as int == tv.max_ancestors,
                tv.max_slots >= 1,
                appended.len() > tv.max_slots ==> self.entries@.len() >= tv.max_slots,
                appended.len() <= tv.max_slots ==> self.entries@.len() == appended.len(),
            decreases self.entries.len(),
        {
            let ghost cur = self@.entries;
            self.entries.remove(0);
            proof {
                assert(self@.entries =~~= cur.skip(1));
                assert(self@.entries =~~= appended.skip(appended.len() - self.entries@.len()));
            }
        }
        proof {
            let kept = if appended.len() > tv.max_slots {
                appended.skip(appended.len() - tv.max_slots)
            } else {
                appended
            };
            assert(self@.entries =~~= kept);
            assert(self@ == tv.record_spec(slot, parent));
            lemma_record_preserves_wf(tv, slot, parent);
        }
        false
    }
}

/// A fresh copy of a slot vector.
pub fn copy_slots(v: &Vec<Slot>) -> (r: Vec<Slot>)
    ensures
        r@ == v@,
{
    let mut r: Vec<Slot> = Vec::new();
    let mut i: usize = 0;
    while i < v.len()
        invariant
            0 <= i <= v.len(),
            r@ =~= v@.take(i as int),
        decreases v.len() - i,
    {
        r.push(v[i]);
        i += 1;
    }
    proof {
        assert(v@.take(v@.len() as int) =~= v@);
    }
    r
}

proof fn lemma_record_preserves_wf(tv: TrackerView, slot: Slot, parent: Slot)
    requires
        tv.wf(),
        !tv.knows(slot),
    ensures
        tv.record_spec(slot, parent).wf(),
{
    let anc = capped(insert_sorted_spec(tv.ancestors_of(parent), parent), tv.max_ancestors);
    let base = tv.with_parent_entry(slot, parent);
    let appended = base.push(AncestryEntryView { slot, ancestors: anc });
    let out = tv.record_spec(slot, parent);

    // The new ancestor list is strictly ascending and within cap.
    assert(sorted_strict(tv.ancestors_of(parent)) && tv.ancestors_of(parent).len()
        <= tv.max_ancestors) by {
        if tv.knows(parent) {
            lemma_key_index(tv.entries, parent);
        }
    }
    let ins = insert_sorted_spec(tv.ancestors_of(parent), parent);
    lemma_insert_sorted_spec_props(tv.ancestors_of(parent), parent);
    assert(sorted_strict(anc) && anc.len() <= tv.max_ancestors) by {
        if ins.len() > tv.max_ancestors {
            assert(forall|i: int, j: int|
                0 <= i < j < anc.len() ==> anc[i] == ins[i + ins.len() - tv.max_ancestors]
                    && anc[j] == ins[j + ins.len() - tv.max_ancestors]);
        }
    }

    // Keys stay pairwise distinct.
    assert(forall|i: int, j: int|
        0 <= i < j < base.len() ==> base[i].slot != base[j].slot) by {
        if !(tv.knows(parent) || parent == slot) {
            lemma_key_index(tv.entries, parent);
        }
    }
    assert(forall|i: int| 0 <= i < base.len() ==> base[i].slot != slot) by {
        lemma_key_index(tv.entries, slot);
    }
    assert(forall|i: int, j: int|
        0 <= i < j < appended.len() ==> appended[i].slot != appended[j].slot);
    assert(forall|i: int|
        0 <= i < appended.len() ==> sorted_strict(#[trigger] appended[i].ancestors)
            && appended[i].ancestors.len() <= tv.max_ancestors);

    if appended.len() > tv.max_slots {
        let off = appended.len() - tv.max_slots;
        assert(forall|i: int, j: int|
            0 <= i < j < out.entries.len() ==> out.entries[i].slot != out.entries[j].slot) by {
            assert(forall|i: int|
                0 <= i < out.entries.len() ==> out.entries[i] == appended[i + off]);
        }
        assert(forall|i: int|
            0 <= i < out.entries.len() ==> sorted_strict(#[trigger] out.entries[i].ancestors)
                && out.entries[i].ancestors.len() <= tv.max_ancestors) by {
            assert(forall|i: int|
                0 <= i < out.entries.len() ==> out.entries[i] == appended[i + off]);
        }
    }
}

/// Inserting into a strictly ascending sequence keeps it strictly
/// ascending, adds at most one element, and adds only the new value.
pub proof fn lemma_insert_sorted_spec_props(s: Seq<Slot>, x: Slot)
    requires
        sorted_strict(s),
    ensures
        sorted_strict(insert_sorted_spec(s, x)),
        s.len() <= insert_sorted_spec(s, x).len() <= s.len() + 1,
        forall|y: Slot| insert_sorted_spec(s, x).contains(y) <==> (s.contains(y) || y == x),
{
    crate::slots::lemma_first_geq_bounds(s, x);
    let i = crate::slots::first_geq(s, x);
    let out = insert_sorted_spec(s, x);
    if i < s.len() && s[i] == x {
        assert(s.contains(x));
        assert(forall|y: Slot| out.contains(y) <==> (s.contains(y) || y == x));
    } else {
        assert(out =~= s.take(i) + seq![x] + s.skip(i));
        assert forall|y: Slot| out.contains(y) <==> (s.contains(y) || y == x) by {
            if out.contains(y) {
                let k = choose|k: int| 0 <= k < out.len() && out[k] == y;
                if k < i {
                    assert(s[k] == y);
                } else if k > i {
                    assert(s[k - 1] == y);
                }
            }
            if s.contains(y) {
                let k = choose|k: int| 0 <= k < s.len() && s[k] == y;
                if k < i {
                    assert(out[k] == y);
                } else {
                    assert(out[k + 1] == y);
                }
            }
            if y == x {
                assert(out[i] == x);
            }
        }
        assert forall|p: int, q: int| 0 <= p < q < out.len() implies out[p] < out[q] by {
            if p < i && q == i {
                assert(out[p] == s[p] && s[p] < x);
            } else if p == i && q > i {
                assert(out[q] == s[q - 1] && s[q - 1] >= x && s[q - 1] != x);
            } else if p < i && q > i {
                assert(out[p] == s[p] && out[q] == s[q - 1]);
                assert(s[q - 1] >= x && s[q - 1] != x);
            } else if q < i {
                assert(out[p] == s[p] && out[q] == s[q]);
            } else if p > i {
                assert(out[p] == s[p - 1] && out[q] == s[q - 1]);
            }
        }
    }
}

/// Once an ancestor list overflows its cap, exactly the cap-many
/// largest values are kept: everything dropped is smaller than
/// everything kept.
pub proof fn lemma_cap_keeps_largest(anc: Seq<Slot>, cap: int)
    requires
        sorted_strict(anc),
        1 <= cap < anc.len(),
    ensures
        capped(anc, cap).len() == cap,
        forall|i: int| 0 <= i < cap ==> capped(anc, cap)[i] == anc[i + anc.len() - cap],
        forall|y: Slot| capped(anc, cap).contains(y) ==> anc.contains(y),
        forall|d: int, k: int|
            0 <= d < anc.len() - cap && 0 <= k < cap ==> anc[d] < capped(anc, cap)[k],
{
    let off = anc.len() - cap;
    assert forall|y: Slot| capped(anc, cap).contains(y) implies anc.contains(y) by {
        let k = choose|k: int| 0 <= k < cap && capped(anc, cap)[k] == y;
        assert(anc[k + off] == y);
    }
}

} // verus!
