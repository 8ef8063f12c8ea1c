//! The second pipeline stage: for each preferred value, pick the nearest
//! available one.

use vstd::prelude::*;

use crate::sequences::count_lt;
use crate::sequences::deduped;
use crate::sequences::lemma_count_lt_bounds;
use crate::sequences::lemma_count_lt_high_suffix;
use crate::sequences::lemma_count_lt_monotone;
use crate::sequences::lemma_deduped_contains;
use crate::sequences::lemma_deduped_last;
use crate::sequences::lemma_deduped_sorted;
use crate::sequences::sorted;
use crate::value::Value;
use crate::value::has_any;
use crate::value::number_of;
use crate::value::values_sorted;
use crate::value::vec_has_any;

verus! {

/// The value a non-empty ascending sequence offers for the preference
/// `p`: the first entry at or above `p`, or the last entry when every
/// entry stays below `p`.
pub open spec fn chosen_for(available: Seq<i32>, p: i32) -> i32
    recommends
        available.len() > 0,
{
    if count_lt(available, p) == available.len() {
        available.last()
    } else {
        available[count_lt(available, p)]
    }
}

/// The choices made for the preferences in order, before collapsing
/// adjacent duplicates. An empty available sequence offers nothing.
pub open spec fn raw_selections(available: Seq<i32>, preferred: Seq<Value>) -> Seq<i32> {
    if available.len() == 0 {
        Seq::empty()
    } else {
        Seq::new(preferred.len(), |k: int| chosen_for(available, number_of(preferred[k])))
    }
}

/// What the preferred selector returns: the available sequence itself
/// when the wildcard is preferred, otherwise the choice for each
/// preference with runs of adjacent duplicates collapsed.
pub open spec fn find_preferred_spec(available: Seq<i32>, preferred: Seq<Value>) -> Seq<i32> {
    if has_any(preferred) {
        available
    } else {
        deduped(raw_selections(available, preferred))
    }
}

/// Wildcard absorption: when the preferred sequence holds the wildcard,
/// selection passes the available sequence through unchanged.
pub proof fn lemma_wildcard_absorbs_preferred(available: Seq<i32>, preferred: Seq<Value>)
    requires
        has_any(preferred),
    ensures
        find_preferred_spec(available, preferred) == available,
{
}

/// Monotonic selection: over a non-empty ascending sequence, the value
/// chosen for a preference `p` is the smallest available value at or
/// above `p`, or the largest available value when none reaches `p`.
pub proof fn lemma_chosen_is_nearest(available: Seq<i32>, p: i32)
    requires
        sorted(available),
        available.len() > 0,
    ensures
        available.contains(chosen_for(available, p)),
        (exists|i: int| 0 <= i < available.len() && available[i] >= p) ==> chosen_for(
            available,
            p,
        ) >= p,
        forall|i: int|
            0 <= i < available.len() && available[i] >= p ==> chosen_for(available, p)
                <= #[trigger] available[i],
        (forall|i: int| 0 <= i < available.len() ==> available[i] < p) ==> chosen_for(available, p)
            == available.last(),
{
    lemma_count_lt_bounds(available, p);
    let c = count_lt(available, p);
    if c == available.len() {
        assert(available[available.len() - 1] == available.last());
    } else {
        assert(available[c] == chosen_for(available, p));
        assert forall|i: int|
            0 <= i < available.len() && available[i] >= p implies chosen_for(available, p)
            <= #[trigger] available[i] by {
            if i < c {
                assert(available[i] < p);
            } else {
                assert(available[c] <= available[i]);
            }
        }
    }
}

/// A larger preference never picks a smaller value.
pub proof fn lemma_chosen_monotone(available: Seq<i32>, p1: i32, p2: i32)
    requires
        sorted(available),
        available.len() > 0,
        p1 <= p2,
    ensures
        chosen_for(available, p1) <= chosen_for(available, p2),
{
    lemma_count_lt_bounds(available, p1);
    lemma_count_lt_bounds(available, p2);
    lemma_count_lt_monotone(available, p1, p2);
    let c1 = count_lt(available, p1);
    let c2 = count_lt(available, p2);
    if c2 == available.len() {
        if c1 == available.len() {
        } else {
            assert(available[c1] <= available[available.len() - 1]);
        }
    } else {
        if c1 < c2 {
            assert(available[c1] <= available[c2]);
        }
    }
}

/// Selection order: over ascending available and preferred sequences,
/// the selected values come out ascending.
pub proof fn lemma_selection_ascending(available: Seq<i32>, preferred: Seq<Value>)
    requires
        sorted(available),
        values_sorted(preferred),
    ensures
        sorted(find_preferred_spec(available, preferred)),
{
    if !has_any(preferred) {
        let raw = raw_selections(available, preferred);
        assert forall|i: int, j: int| 0 <= i < j < raw.len() implies raw[i] <= raw[j] by {
            assert(preferred[i] is Number);
            assert(preferred[j] is Number);
            lemma_chosen_monotone(available, number_of(preferred[i]), number_of(preferred[j]));
        }
        lemma_deduped_sorted(raw);
    }
}

/// Every value that selection returns for wildcard-free preferences is
/// the value chosen for one of the preference entries.
pub proof fn lemma_selection_from_preferences(available: Seq<i32>, preferred: Seq<Value>)
    requires
        !has_any(preferred),
    ensures
        forall|j: int|
            0 <= j < find_preferred_spec(available, preferred).len() ==> exists|k: int|
                0 <= k < preferred.len() && #[trigger] find_preferred_spec(available, preferred)[j]
                    == chosen_for(available, number_of(preferred[k])),
{
    let raw = raw_selections(available, preferred);
    lemma_deduped_contains(raw);
    assert forall|j: int| 0 <= j < find_preferred_spec(available, preferred).len() implies exists|
        k: int,
    |
        0 <= k < preferred.len() && #[trigger] find_preferred_spec(available, preferred)[j]
            == chosen_for(available, number_of(preferred[k])) by {
        let x = find_preferred_spec(available, preferred)[j];
        assert(deduped(raw)[j] == x);
        assert(raw.contains(x));
        let k = choose|k: int| 0 <= k < raw.len() && raw[k] == x;
        assert(available.len() > 0);
        assert(raw[k] == chosen_for(available, number_of(preferred[k])));
    }
}

/// The first index of the ascending sequence whose entry is at or above
/// `p`; the length when no entry is.
fn lower_bound(available: &Vec<i32>, p: i32) -> (idx: usize)
    requires
        sorted(available@),
    ensures
        idx == count_lt(available@, p),
{
    let mut idx: usize = 0;
    while idx < available.len() && available[idx] < p
        invariant
            idx <= available@.len(),
            sorted(available@),
            count_lt(available@.take(idx as int), p) == idx,
            forall|k: int| 0 <= k < idx ==> available@[k] < p,
        decreases available@.len() - idx,
    {
        proof {
            assert(available@.take(idx as int + 1).drop_last() =~= available@.take(idx as int));
            assert(available@.take(idx as int + 1).last() == available@[idx as int]);
        }
        idx += 1;
    }
    proof {
        if idx == available@.len() {
            assert(available@.take(idx as int) =~= available@);
        } else {
            assert forall|k: int| idx <= k < available@.len() implies available@[k] >= p by {
                assert(available@[idx as int] <= available@[k]);
            }
            lemma_count_lt_high_suffix(available@, idx as int, p);
        }
    }
    idx
}

/// Copies the vector with every run of adjacent equal entries collapsed
/// into one.
fn collapse_adjacent(values: Vec<i32>) -> (r: Vec<i32>)
    ensures
        r@ == deduped(values@),
{
    let mut out: Vec<i32> = Vec::new();
    let mut k: usize = 0;
    while k < values.len()
        invariant
            k <= values@.len(),
            out@ == deduped(values@.take(k as int)),
        decreases values@.len() - k,
    {
        let v = values[k];
        proof {
            assert(values@.take(k as int + 1).drop_last() =~= values@.take(k as int));
            assert(values@.take(k as int + 1).last() == values@[k as int]);
            if k > 0 {
                lemma_deduped_last(values@.take(k as int));
                assert(values@.take(k as int).last() == values@[k as int - 1]);
            }
        }
        if out.len() == 0 || out[out.len() - 1] != v {
            out.push(v);
        }
        k += 1;
    }
    proof {
        assert(values@.take(k as int) =~= values@);
    }
    out
}

/// Picks, for each preferred value in order, the nearest available one:
/// the first at or above it, or the largest available value when the
/// preference exceeds them all. Runs of adjacent duplicate picks collapse
/// into one. When `preferred` holds the wildcard, every available value
/// is returned.
pub fn find_preferred(available: Vec<i32>, preferred: Vec<Value>) -> (r: Vec<i32>)
    requires
        sorted(available@),
        values_sorted(preferred@),
    ensures
        r@ == find_preferred_spec(available@, preferred@),
        sorted(r@),
{
    proof {
        lemma_selection_ascending(available@, preferred@);
    }
    if vec_has_any(&preferred) {
        available
    } else {
        let mut raw: Vec<i32> = Vec::new();
        let mut k: usize = 0;
        while k < preferred.len()
            invariant
                k <= preferred@.len(),
                !has_any(preferred@),
                sorted(available@),
                raw@ == raw_selections(available@, preferred@.take(k as int)),
            decreases preferred@.len() - k,
        {
            proof {
                assert(preferred@[k as int] is Number);
            }
            let p = preferred[k].assume_number();
            if available.len() > 0 {
                let mut idx = lower_bound(&available, p);
                proof {
                    lemma_count_lt_bounds(available@, p);
                }
                if idx > 0 && idx == available.len() {
                    idx = idx - 1;
                }
                raw.push(available[idx]);
                proof {
                    assert(raw@.last() == chosen_for(available@, p));
                }
            }
            proof {
                assert(raw@ =~= raw_selections(available@, preferred@.take(k as int + 1)));
            }
            k += 1;
        }
        proof {
            assert(preferred@.take(k as int) =~= preferred@);
        }
        collapse_adjacent(raw)
    }
}

} // verus!
