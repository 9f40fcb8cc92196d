//! Slots and ordered slot lists. A slot is a monotonically-issued
//! unsigned integer identifying one unit of chain progress; ancestor
//! sets and vote batches are kept as strictly ascending vectors.

use vstd::prelude::*;

verus! {

/// Identifier for one unit of chain progress.
pub type Slot = u64;

/// Strictly ascending: every element is smaller than all later ones.
pub open spec fn sorted_strict(s: Seq<Slot>) -> bool {
    forall|i: int, j: int| 0 <= i < j < s.len() ==> s[i] < s[j]
}

/// Strictly descending: every element is larger than all later ones.
pub open spec fn sorted_strict_desc(s: Seq<Slot>) -> bool {
    forall|i: int, j: int| 0 <= i < j < s.len() ==> s[i] > s[j]
}

/// Index of the first element that is `>= x`, or the length if every
/// element is below `x`.
pub open spec fn first_geq(s: Seq<Slot>, x: Slot) -> int
    decreases s.len(),
{
    if s.len() == 0 {
        0
    } else if s[0] >= x {
        0
    } else {
        1 + first_geq(s.drop_first(), x)
    }
}

/// `s` with `x` inserted at its ordered position; `s` unchanged when
/// `x` is already present.
pub open spec fn insert_sorted_spec(s: Seq<Slot>, x: Slot) -> Seq<Slot> {
    let i = first_geq(s, x);
    if i < s.len() && s[i] == x {
        s
    } else {
        s.take(i) + seq![x] + s.skip(i)
    }
}

pub proof fn lemma_first_geq_bounds(s: Seq<Slot>, x: Slot)
    ensures
        0 <= first_geq(s, x) <= s.len(),
        forall|j: int| 0 <= j < first_geq(s, x) ==> s[j] < x,
        first_geq(s, x) < s.len() ==> s[first_geq(s, x)] >= x,
    decreases s.len(),
{
    if s.len() > 0 && s[0] < x {
        lemma_first_geq_bounds(s.drop_first(), x);
        assert(forall|j: int| 0 <= j < first_geq(s.drop_first(), x) ==> s.drop_first()[j] < x);
        assert(forall|j: int| 1 <= j < first_geq(s, x) ==> s[j] == s.drop_first()[j - 1]);
    }
}

/// A scan that stopped at position `i` with everything before it below
/// `x` has found `first_geq`.
pub proof fn lemma_first_geq_from_scan(s: Seq<Slot>, x: Slot, i: int)
    requires
        0 <= i <= s.len(),
        forall|j: int| 0 <= j < i ==> s[j] < x,
        i < s.len() ==> s[i] >= x,
    ensures
        first_geq(s, x) == i,
    decreases s.len(),
{
    if s.len() == 0 {
    } else if s[0] >= x {
        assert(i == 0);
    } else {
        assert(i >= 1);
        lemma_first_geq_from_scan(s.drop_first(), x, i - 1);
    }
}

/// Whether `x` occurs in `v`.
pub fn contains_slot(v: &Vec<Slot>, x: Slot) -> (r: bool)
    ensures
        r == v@.contains(x),
{
    let mut i: usize = 0;
    while i < v.len()
        invariant
            0 <= i <= v.len(),
            forall|j: int| 0 <= j < i ==> v@[j] != x,
        decreases v.len() - i,
    {
        if v[i] == x {
            assert(v@[i as int] == x);
            return true;
        }
        i += 1;
    }
    assert(!v@.contains(x));
    false
}

/// Inserts `x` into the strictly ascending vector `v`, keeping it
/// strictly ascending; a value already present is left alone.
pub fn insert_sorted(v: &mut Vec<Slot>, x: Slot)
    requires
        sorted_strict(old(v)@),
        old(v)@.len() < usize::MAX,
    ensures
        final(v)@ == insert_sorted_spec(old(v)@, x),
        sorted_strict(final(v)@),
        forall|y: Slot| final(v)@.contains(y) <==> (old(v)@.contains(y) || y == x),
        final(v)@.len() == if old(v)@.contains(x) {
            old(v)@.len() as int
        } else {
            old(v)@.len() as int + 1
        },
{
    let ghost s = v@;
    let mut i: usize = 0;
    while i < v.len() && v[i] < x
        invariant
            0 <= i <= v.len(),
            v@ == s,
            forall|j: int| 0 <= j < i ==> s[j] < x,
        decreases v.len() - i,
    {
        i += 1;
    }
    proof {
        lemma_first_geq_from_scan(s, x, i as int);
    }
    if i < v.len() && v[i] == x {
        proof {
            assert(s.contains(x));
        }
    } else {
        v.insert(i, x);
        proof {
            assert(v@ =~= s.take(i as int) + seq![x] + s.skip(i as int));
            assert(!s.contains(x)) by {
                if s.contains(x) {
                    let k = choose|k: int| 0 <= k < s.len() && s[k] == x;
                    lemma_first_geq_bounds(s, x);
                    assert(k >= i);
                    if k > i {
                        assert(s[i as int] < s[k]);
                    }
                }
            }
            assert forall|y: Slot| v@.contains(y) <==> (s.contains(y) || y == x) by {
                if v@.contains(y) {
                    let k = choose|k: int| 0 <= k < v@.len() && v@[k] == y;
                    if k < i {
                        assert(s[k] == y);
                    } else if k == i {
                    } else {
                        assert(s[k - 1] == y);
                    }
                }
                if s.contains(y) {
                    let k = choose|k: int| 0 <= k < s.len() && s[k] == y;
                    if k < i {
                        assert(v@[k] == y);
                    } else {
                        assert(v@[k + 1] == y);
                    }
                }
            }
            assert(sorted_strict(v@)) by {
                lemma_first_geq_bounds(s, x);
                assert(i < v@.len() && v@[i as int] == x);
                assert forall|p: int, q: int| 0 <= p < q < v@.len() implies v@[p] < v@[q] by {
                    let iv = i as int;
                    if p < iv && q == iv {
                        assert(v@[p] == s[p] && s[p] < x);
                    } else if p == iv && q > iv {
                        assert(v@[q] == s[q - 1] && s[q - 1] >= x && s[q - 1] != x);
                    } else if p < iv && q > iv {
                        assert(v@[p] == s[p] && v@[q] == s[q - 1]);
                        assert(s[q - 1] >= x && s[q - 1] != x);
                    } else if q < iv {
                        assert(v@[p] == s[p] && v@[q] == s[q]);
                    } else if p > iv {
                        assert(v@[p] == s[p - 1] && v@[q] == s[q - 1]);
                    }
                }
            }
        }
    }
}

/// The sorted deduplication of a slot list: each value inserted in
/// order, duplicates collapsing.
pub open spec fn prepare_spec(s: Seq<Slot>) -> Seq<Slot>
    decreases s.len(),
{
    if s.len() == 0 {
        Seq::empty()
    } else {
        insert_sorted_spec(prepare_spec(s.drop_last()), s.last())
    }
}

/// Sorts and deduplicates a list of slots into a strictly ascending
/// vector holding exactly the values of the input.
pub fn prepare_slots(slots: &Vec<Slot>) -> (r: Vec<Slot>)
    ensures
        r@ == prepare_spec(slots@),
        sorted_strict(r@),
        forall|y: Slot| r@.contains(y) <==> slots@.contains(y),
        r@.len() <= slots@.len(),
{
    let mut r: Vec<Slot> = Vec::new();
    let mut i: usize = 0;
    while i < slots.len()
        invariant
            0 <= i <= slots.len(),
            sorted_strict(r@),
            r@.len() <= i,
            r@ == prepare_spec(slots@.take(i as int)),
            forall|y: Slot| r@.contains(y) <==> slots@.take(i as int).contains(y),
        decreases slots.len() - i,
    {
        let ghost prefix = slots@.take(i as int);
        insert_sorted(&mut r, slots[i]);
        proof {
            assert(slots@.take(i + 1).drop_last() =~= prefix);
            assert(slots@.take(i + 1).last() == slots@[i as int]);
            assert(slots@.take(i + 1) =~= prefix.push(slots@[i as int]));
            assert forall|y: Slot| #[trigger] r@.contains(y) <==> slots@.take(i + 1).contains(y) by {
                if slots@.take(i + 1).contains(y) {
                    let k = choose|k: int|
                        0 <= k < i + 1 && #[trigger] slots@.take(i + 1)[k] == y;
                    if k < i {
                        assert(prefix[k] == y);
                        assert(prefix.contains(y));
                    }
                }
                if prefix.contains(y) {
                    let k = choose|k: int| 0 <= k < prefix.len() && #[trigger] prefix[k] == y;
                    assert(slots@.take(i + 1)[k] == y);
                    assert(slots@.take(i + 1).contains(y));
                }
                if y == slots@[i as int] {
                    assert(slots@.take(i + 1)[i as int] == y);
                    assert(slots@.take(i + 1).contains(y));
                }
            }
        }
        i += 1;
    }
    proof {
        assert(slots@.take(slots@.len() as int) =~= slots@);
    }
    r
}

/// The slots of `s` strictly above the last voted slot, in order; with
/// no last voted slot every value stays.
pub open spec fn votes_above(s: Seq<Slot>, last: Option<Slot>) -> Seq<Slot>
    decreases s.len(),
{
    if s.len() == 0 {
        Seq::empty()
    } else {
        let rest = votes_above(s.drop_last(), last);
        if last is None || s.last() > last->Some_0 {
            rest.push(s.last())
        } else {
            rest
        }
    }
}

/// Keeps the slots strictly above `last`, dropping stale or replayed
/// values; order is preserved.
pub fn filter_above(v: &Vec<Slot>, last: Option<Slot>) -> (r: Vec<Slot>)
    ensures
        r@ == votes_above(v@, last),
{
    let mut r: Vec<Slot> = Vec::new();
    let mut i: usize = 0;
    while i < v.len()
        invariant
            0 <= i <= v.len(),
            r@ == votes_above(v@.take(i as int), last),
        decreases v.len() - i,
    {
        let keep = match last {
            None => true,
            Some(l) => v[i] > l,
        };
        if keep {
            r.push(v[i]);
        }
        proof {
            assert(v@.take(i + 1).drop_last() =~= v@.take(i as int));
            assert(v@.take(i + 1).last() == v@[i as int]);
        }
        i += 1;
    }
    proof {
        assert(v@.take(v@.len() as int) =~= v@);
    }
    r
}

/// The prepared (sorted, deduplicated) list holds exactly the values of
/// the input, strictly ascending.
pub proof fn lemma_prepare_spec_props(s: Seq<Slot>)
    ensures
        sorted_strict(prepare_spec(s)),
        forall|y: Slot| #[trigger] prepare_spec(s).contains(y) <==> s.contains(y),
    decreases s.len(),
{
    if s.len() > 0 {
        lemma_prepare_spec_props(s.drop_last());
        crate::ancestry::lemma_insert_sorted_spec_props(prepare_spec(s.drop_last()), s.last());
        lemma_contains_drop_last(s);
        assert(prepare_spec(s) == insert_sorted_spec(prepare_spec(s.drop_last()), s.last()));
        assert forall|y: Slot| #[trigger] prepare_spec(s).contains(y) <==> s.contains(y) by {
            assert(prepare_spec(s).contains(y) <==> (prepare_spec(s.drop_last()).contains(y) || y
                == s.last()));
            assert(prepare_spec(s.drop_last()).contains(y) <==> s.drop_last().contains(y));
            assert(s.contains(y) <==> (s.drop_last().contains(y) || y == s.last()));
        }
    }
}

/// Membership in a sequence extended by one value.
pub proof fn lemma_contains_push(s: Seq<Slot>, z: Slot)
    ensures
        forall|y: Slot| #[trigger] s.push(z).contains(y) <==> (s.contains(y) || y == z),
{
    assert forall|y: Slot| #[trigger] s.push(z).contains(y) <==> (s.contains(y) || y == z) by {
        if s.push(z).contains(y) {
            let k = choose|k: int| 0 <= k < s.push(z).len() && #[trigger] s.push(z)[k] == y;
            if k < s.len() {
                assert(s[k] == y);
            }
        }
        if s.contains(y) {
            let k = choose|k: int| 0 <= k < s.len() && #[trigger] s[k] == y;
            assert(s.push(z)[k] == y);
        }
        if y == z {
            assert(s.push(z)[s.len() as int] == y);
        }
    }
}

/// Membership in a sequence short of its last value.
pub proof fn lemma_contains_drop_last(s: Seq<Slot>)
    requires
        s.len() > 0,
    ensures
        forall|y: Slot| #[trigger] s.contains(y) <==> (s.drop_last().contains(y) || y == s.last()),
{
    assert forall|y: Slot|
        #[trigger] s.contains(y) <==> (s.drop_last().contains(y) || y == s.last()) by {
        if s.contains(y) {
            let k = choose|k: int| 0 <= k < s.len() && #[trigger] s[k] == y;
            if k < s.len() - 1 {
                assert(s.drop_last()[k] == y);
                assert(s.drop_last().contains(y));
            }
        }
        if s.drop_last().contains(y) {
            let k = choose|k: int| 0 <= k < s.drop_last().len() && #[trigger] s.drop_last()[k]
                == y;
            assert(s[k] == y);
        }
        if y == s.last() {
            assert(s[s.len() - 1] == y);
        }
    }
}

/// Filtering a strictly ascending list keeps it strictly ascending.
pub proof fn lemma_votes_above_sorted(s: Seq<Slot>, last: Option<Slot>)
    requires
        sorted_strict(s),
    ensures
        sorted_strict(votes_above(s, last)),
    decreases s.len(),
{
    if s.len() > 0 {
        assert(sorted_strict(s.drop_last()));
        lemma_votes_above_sorted(s.drop_last(), last);
        lemma_votes_above_props(s.drop_last(), last);
        let rest = votes_above(s.drop_last(), last);
        if last is None || s.last() > last->Some_0 {
            assert forall|k: int| 0 <= k < rest.len() implies rest[k] < s.last() by {
                assert(rest.contains(rest[k]));
                assert(s.drop_last().contains(rest[k]));
                let m = choose|m: int|
                    0 <= m < s.drop_last().len() && #[trigger] s.drop_last()[m] == rest[k];
                assert(s[m] == rest[k]);
                assert(s[m] < s[s.len() - 1]);
            }
            assert(sorted_strict(rest.push(s.last())));
        }
    }
}

/// Filtering keeps only values above the bound, and keeps every value
/// of the input that lies above it.
pub proof fn lemma_votes_above_props(s: Seq<Slot>, last: Option<Slot>)
    ensures
        forall|y: Slot|
            #[trigger] votes_above(s, last).contains(y) <==> s.contains(y) && (last is None || y
                > last->Some_0),
    decreases s.len(),
{
    if s.len() > 0 {
        lemma_votes_above_props(s.drop_last(), last);
        lemma_contains_drop_last(s);
        let rest = votes_above(s.drop_last(), last);
        if last is None || s.last() > last->Some_0 {
            lemma_contains_push(rest, s.last());
            assert(votes_above(s, last) == rest.push(s.last()));
        } else {
            assert(votes_above(s, last) == rest);
        }
    }
}

} // verus!
