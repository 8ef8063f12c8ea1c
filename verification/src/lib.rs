//! Picks, from a sorted list of available numeric values, the subset that is
//! both allowed and closest to each preferred value.
//!
//! The computation is a two-stage pipeline over sorted sequences:
//! [`filter_allowed`] intersects the available values with the allowed ones
//! (or passes everything through on the wildcard), and [`find_preferred`]
//! picks, for each preference, the nearest remaining value. [`attempt`]
//! chains the two.

use vstd::prelude::*;
use vstd::slice::slice_to_vec;

mod allowed;
mod preferred;
mod sequences;
mod value;

pub use crate::allowed::filter_allowed;
pub use crate::allowed::filter_allowed_spec;
pub use crate::allowed::lemma_filter_allowed_subsequence;
pub use crate::allowed::lemma_merge_intersect_complete;
pub use crate::allowed::lemma_merge_intersect_in_both;
pub use crate::allowed::lemma_wildcard_absorbs_allowed;
pub use crate::allowed::merge_intersect;
pub use crate::preferred::chosen_for;
pub use crate::preferred::find_preferred;
pub use crate::preferred::find_preferred_spec;
pub use crate::preferred::lemma_chosen_is_nearest;
pub use crate::preferred::lemma_chosen_monotone;
pub use crate::preferred::lemma_selection_ascending;
pub use crate::preferred::lemma_selection_from_preferences;
pub use crate::preferred::lemma_wildcard_absorbs_preferred;
pub use crate::preferred::raw_selections;
pub use crate::sequences::count_lt;
pub use crate::sequences::deduped;
pub use crate::sequences::is_subsequence_of;
pub use crate::sequences::sorted;
pub use crate::value::Value;
pub use crate::value::has_any;
pub use crate::value::number_of;
pub use crate::value::numbers_of;
pub use crate::value::values_sorted;

verus! {

/// What resolution returns: the preferred selection over the allowed
/// subset of the available values.
pub open spec fn attempt_spec(
    available: Seq<i32>,
    allowed: Seq<Value>,
    preferred: Seq<Value>,
) -> Seq<i32> {
    find_preferred_spec(filter_allowed_spec(available, allowed), preferred)
}

/// Returns the numbers of the ascending `available` slice that stand in
/// `allowed` (all of them when `allowed` holds the wildcard) and are
/// closest to the entries of `preferred` (all of them when `preferred`
/// holds the wildcard).
pub fn attempt(available: &[i32], allowed: &[Value], preferred: &[Value]) -> (r: Vec<i32>)
    requires
        sorted(available@),
        values_sorted(allowed@),
        values_sorted(preferred@),
    ensures
        r@ == attempt_spec(available@, allowed@, preferred@),
        sorted(r@),
{
    let filtered = filter_allowed(slice_to_vec(available), slice_to_vec(allowed));
    find_preferred(filtered, slice_to_vec(preferred))
}

/// Resolution is a function of its arguments alone: two results computed
/// from equal inputs are equal.
pub proof fn lemma_attempt_deterministic(
    r1: Seq<i32>,
    r2: Seq<i32>,
    available: Seq<i32>,
    allowed: Seq<Value>,
    preferred: Seq<Value>,
)
    requires
        r1 == attempt_spec(available, allowed, preferred),
        r2 == attempt_spec(available, allowed, preferred),
    ensures
        r1 == r2,
{
}

/// An empty available sequence resolves to an empty result, whatever the
/// allowed and preferred sequences hold.
pub proof fn lemma_empty_available(allowed: Seq<Value>, preferred: Seq<Value>)
    ensures
        attempt_spec(Seq::empty(), allowed, preferred) == Seq::<i32>::empty(),
{
    assert(filter_allowed_spec(Seq::empty(), allowed) == Seq::<i32>::empty());
    assert(raw_selections(Seq::empty(), preferred) == Seq::<i32>::empty());
}

} // verus!
