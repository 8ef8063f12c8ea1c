//! The first pipeline stage: keep the available values that the allowed
//! sequence permits.

use vstd::prelude::*;

use crate::sequences::is_subsequence_of;
use crate::sequences::lemma_subsequence_refl;
use crate::sequences::lemma_subsequence_sorted;
use crate::sequences::sorted;
use crate::value::Value;
use crate::value::has_any;
use crate::value::numbers_of;
use crate::value::values_sorted;
use crate::value::vec_has_any;

verus! {

/// The merge-walk intersection of two ascending sequences: advance the
/// side with the lesser head; on equal heads, emit the value and advance
/// both sides.
pub open spec fn merge_intersect(a: Seq<i32>, b: Seq<i32>) -> Seq<i32>
    decreases a.len() + b.len(),
{
    if a.len() == 0 || b.len() == 0 {
        Seq::empty()
    } else if a.first() < b.first() {
        merge_intersect(a.drop_first(), b)
    } else if a.first() > b.first() {
        merge_intersect(a, b.drop_first())
    } else {
        seq![a.first()] + merge_intersect(a.drop_first(), b.drop_first())
    }
}

/// What the allowed filter returns: the available sequence itself when
/// the wildcard is allowed, the merge-walk intersection with the allowed
/// numbers otherwise.
pub open spec fn filter_allowed_spec(available: Seq<i32>, allowed: Seq<Value>) -> Seq<i32> {
    if has_any(allowed) {
        available
    } else {
        merge_intersect(available, numbers_of(allowed))
    }
}

/// The merge-walk intersection only ever emits values of its left side,
/// in the order they stand there.
pub proof fn lemma_merge_intersect_subsequence(a: Seq<i32>, b: Seq<i32>)
    ensures
        is_subsequence_of(merge_intersect(a, b), a),
    decreases a.len() + b.len(),
{
    if a.len() == 0 || b.len() == 0 {
    } else if a.first() < b.first() {
        lemma_merge_intersect_subsequence(a.drop_first(), b);
        lemma_subsequence_widens(merge_intersect(a.drop_first(), b), a);
    } else if a.first() > b.first() {
        lemma_merge_intersect_subsequence(a, b.drop_first());
    } else {
        lemma_merge_intersect_subsequence(a.drop_first(), b.drop_first());
        let m = seq![a.first()] + merge_intersect(a.drop_first(), b.drop_first());
        assert(m.first() == a.first());
        assert(m.drop_first() =~= merge_intersect(a.drop_first(), b.drop_first()));
    }
}

/// A subsequence of the tail of `t` is a subsequence of `t`.
proof fn lemma_subsequence_widens(s: Seq<i32>, t: Seq<i32>)
    requires
        t.len() > 0,
        is_subsequence_of(s, t.drop_first()),
    ensures
        is_subsequence_of(s, t),
{
}

/// A value the merge-walk intersection emits stands in both sides.
pub proof fn lemma_merge_intersect_in_both(a: Seq<i32>, b: Seq<i32>, x: i32)
    requires
        merge_intersect(a, b).contains(x),
    ensures
        a.contains(x),
        b.contains(x),
    decreases a.len() + b.len(),
{
    if a.len() == 0 || b.len() == 0 {
    } else if a.first() < b.first() {
        lemma_merge_intersect_in_both(a.drop_first(), b, x);
        lemma_tail_contains(a, x);
    } else if a.first() > b.first() {
        lemma_merge_intersect_in_both(a, b.drop_first(), x);
        lemma_tail_contains(b, x);
    } else {
        let m = merge_intersect(a.drop_first(), b.drop_first());
        if x == a.first() {
            assert(a[0] == x);
            assert(b[0] == x);
        } else {
            let i = choose|i: int|
                0 <= i < (seq![a.first()] + m).len() && (seq![a.first()] + m)[i] == x;
            assert(m[i - 1] == x);
            lemma_merge_intersect_in_both(a.drop_first(), b.drop_first(), x);
            lemma_tail_contains(a, x);
            lemma_tail_contains(b, x);
        }
    }
}

/// On ascending sides, a value standing in both reaches the output.
pub proof fn lemma_merge_intersect_complete(a: Seq<i32>, b: Seq<i32>, x: i32)
    requires
        sorted(a),
        sorted(b),
        a.contains(x),
        b.contains(x),
    ensures
        merge_intersect(a, b).contains(x),
    decreases a.len() + b.len(),
{
    let ia = choose|i: int| 0 <= i < a.len() && a[i] == x;
    let ib = choose|i: int| 0 <= i < b.len() && b[i] == x;
    if a.first() < b.first() {
        assert(b.first() <= b[ib]);
        assert(a[0] != x);
        assert(a.drop_first()[ia - 1] == x);
        lemma_merge_intersect_complete(a.drop_first(), b, x);
        lemma_tail_sorted(a);
    } else if a.first() > b.first() {
        assert(a.first() <= a[ia]);
        assert(b[0] != x);
        assert(b.drop_first()[ib - 1] == x);
        lemma_merge_intersect_complete(a, b.drop_first(), x);
        lemma_tail_sorted(b);
    } else {
        let m = seq![a.first()] + merge_intersect(a.drop_first(), b.drop_first());
        if x == a.first() {
            assert(m[0] == x);
        } else {
            assert(a.drop_first()[ia - 1] == x);
            assert(b.drop_first()[ib - 1] == x);
            lemma_tail_sorted(a);
            lemma_tail_sorted(b);
            lemma_merge_intersect_complete(a.drop_first(), b.drop_first(), x);
            let i = choose|i: int|
                0 <= i < merge_intersect(a.drop_first(), b.drop_first()).len()
                    && merge_intersect(a.drop_first(), b.drop_first())[i] == x;
            assert(m[i + 1] == x);
        }
    }
}

/// A value in the tail of `s` is a value of `s`.
proof fn lemma_tail_contains(s: Seq<i32>, x: i32)
    requires
        s.len() > 0,
        s.drop_first().contains(x),
    ensures
        s.contains(x),
{
    let i = choose|i: int| 0 <= i < s.drop_first().len() && s.drop_first()[i] == x;
    assert(s[i + 1] == x);
}

/// The tail of an ascending sequence is ascending.
proof fn lemma_tail_sorted(s: Seq<i32>)
    requires
        s.len() > 0,
        sorted(s),
    ensures
        sorted(s.drop_first()),
{
}

/// Wildcard absorption: when the allowed sequence holds the wildcard,
/// filtering passes the available sequence through unchanged.
pub proof fn lemma_wildcard_absorbs_allowed(available: Seq<i32>, allowed: Seq<Value>)
    requires
        has_any(allowed),
    ensures
        filter_allowed_spec(available, allowed) == available,
{
}

/// Subset property: the filtered sequence is a subsequence of the
/// available sequence — filtering introduces no value.
pub proof fn lemma_filter_allowed_subsequence(available: Seq<i32>, allowed: Seq<Value>)
    ensures
        is_subsequence_of(filter_allowed_spec(available, allowed), available),
{
    if has_any(allowed) {
        lemma_subsequence_refl(available);
    } else {
        lemma_merge_intersect_subsequence(available, numbers_of(allowed));
    }
}

/// Keeps the available numbers that the allowed sequence permits: all of
/// them when `allowed` holds the wildcard, those standing in `allowed`
/// otherwise, by one merge walk over the two ascending sequences.
pub fn filter_allowed(available: Vec<i32>, allowed: Vec<Value>) -> (r: Vec<i32>)
    requires
        sorted(available@),
        values_sorted(allowed@),
    ensures
        r@ == filter_allowed_spec(available@, allowed@),
        sorted(r@),
{
    if vec_has_any(&allowed) {
        available
    } else {
        let ghost nums = numbers_of(allowed@);
        let mut result: Vec<i32> = Vec::new();
        let mut i: usize = 0;
        let mut j: usize = 0;
        proof {
            assert(available@.skip(0) =~= available@);
            assert(nums.skip(0) =~= nums);
        }
        while i < available.len() && j < allowed.len()
            invariant
                i <= available@.len(),
                j <= allowed@.len(),
                nums == numbers_of(allowed@),
                !has_any(allowed@),
                merge_intersect(available@, nums) == result@ + merge_intersect(
                    available@.skip(i as int),
                    nums.skip(j as int),
                ),
            decreases available@.len() - i + allowed@.len() - j,
        {
            let av = available[i];
            proof {
                assert(allowed@[j as int] is Number);
            }
            let al = allowed[j].assume_number();
            let ghost a_s = available@.skip(i as int);
            let ghost b_s = nums.skip(j as int);
            proof {
                assert(a_s.first() == av);
                assert(b_s.first() == al);
                assert(a_s.drop_first() =~= available@.skip(i as int + 1));
                assert(b_s.drop_first() =~= nums.skip(j as int + 1));
            }
            if av < al {
                i += 1;
            } else if av > al {
                j += 1;
            } else {
                proof {
                    assert(merge_intersect(a_s, b_s) == seq![av] + merge_intersect(
                        a_s.drop_first(),
                        b_s.drop_first(),
                    ));
                    assert(result@.push(av) + merge_intersect(
                        available@.skip(i as int + 1),
                        nums.skip(j as int + 1),
                    ) =~= result@ + merge_intersect(a_s, b_s));
                }
                result.push(av);
                i += 1;
                j += 1;
            }
        }
        proof {
            assert(merge_intersect(available@.skip(i as int), nums.skip(j as int))
                =~= Seq::<i32>::empty());
            assert(result@ + Seq::<i32>::empty() =~= result@);
            lemma_merge_intersect_subsequence(available@, nums);
            lemma_subsequence_sorted(merge_intersect(available@, nums), available@);
        }
        result
    }
}

} // verus!
