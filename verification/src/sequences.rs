//! Order, subsequence, counting and duplicate-collapsing notions on
//! integer sequences, with the lemmas the pipeline's contracts rest on.

use vstd::prelude::*;

verus! {

/// Ascending order.
pub open spec fn sorted(s: Seq<i32>) -> bool {
    forall|i: int, j: int| 0 <= i < j < s.len() ==> s[i] <= s[j]
}

/// `s` can be had from `t` by deleting entries while keeping their order.
pub open spec fn is_subsequence_of(s: Seq<i32>, t: Seq<i32>) -> bool
    decreases s.len() + t.len(),
{
    if s.len() == 0 {
        true
    } else if t.len() == 0 {
        false
    } else {
        (s.first() == t.first() && is_subsequence_of(s.drop_first(), t.drop_first()))
            || is_subsequence_of(s, t.drop_first())
    }
}

/// How many entries are strictly below `p`. On a sorted sequence this is
/// the first index whose entry reaches `p`.
pub open spec fn count_lt(s: Seq<i32>, p: i32) -> int
    decreases s.len(),
{
    if s.len() == 0 {
        0
    } else {
        count_lt(s.drop_last(), p) + if s.last() < p {
            1int
        } else {
            0int
        }
    }
}

/// The sequence with every run of consecutive equal entries collapsed
/// into a single entry. Equal entries that are not adjacent both stay.
pub open spec fn deduped(s: Seq<i32>) -> Seq<i32>
    decreases s.len(),
{
    if s.len() <= 1 {
        s
    } else if s.last() == s[s.len() - 2] {
        deduped(s.drop_last())
    } else {
        deduped(s.drop_last()).push(s.last())
    }
}

/// Every sequence is a subsequence of itself.
pub proof fn lemma_subsequence_refl(s: Seq<i32>)
    ensures
        is_subsequence_of(s, s),
    decreases s.len(),
{
    if s.len() > 0 {
        lemma_subsequence_refl(s.drop_first());
    }
}

/// A subsequence draws every entry from the longer sequence.
pub proof fn lemma_subsequence_contains(s: Seq<i32>, t: Seq<i32>)
    requires
        is_subsequence_of(s, t),
    ensures
        forall|i: int| 0 <= i < s.len() ==> t.contains(#[trigger] s[i]),
    decreases s.len() + t.len(),
{
    if s.len() == 0 {
    } else if s.first() == t.first() && is_subsequence_of(s.drop_first(), t.drop_first()) {
        lemma_subsequence_contains(s.drop_first(), t.drop_first());
        assert forall|i: int| 0 <= i < s.len() implies t.contains(#[trigger] s[i]) by {
            if i == 0 {
                assert(t[0] == s[0]);
            } else {
                let x = s[i];
                assert(s.drop_first()[i - 1] == x);
                assert(t.drop_first().contains(x));
                let j = choose|j: int| 0 <= j < t.drop_first().len() && t.drop_first()[j] == x;
                assert(t[j + 1] == x);
            }
        }
    } else {
        lemma_subsequence_contains(s, t.drop_first());
        assert forall|i: int| 0 <= i < s.len() implies t.contains(#[trigger] s[i]) by {
            let x = s[i];
            assert(t.drop_first().contains(x));
            let j = choose|j: int| 0 <= j < t.drop_first().len() && t.drop_first()[j] == x;
            assert(t[j + 1] == x);
        }
    }
}

/// A subsequence of a sorted sequence is sorted.
pub proof fn lemma_subsequence_sorted(s: Seq<i32>, t: Seq<i32>)
    requires
        is_subsequence_of(s, t),
        sorted(t),
    ensures
        sorted(s),
    decreases s.len() + t.len(),
{
    if s.len() == 0 {
    } else if s.first() == t.first() && is_subsequence_of(s.drop_first(), t.drop_first()) {
        lemma_subsequence_sorted(s.drop_first(), t.drop_first());
        lemma_subsequence_contains(s.drop_first(), t.drop_first());
        assert forall|i: int, j: int| 0 <= i < j < s.len() implies s[i] <= s[j] by {
            if i == 0 {
                let x = s[j];
                assert(s.drop_first()[j - 1] == x);
                assert(t.drop_first().contains(x));
                let k = choose|k: int|
                    0 <= k < t.drop_first().len() && t.drop_first()[k] == x;
                assert(t[0] <= t[k + 1]);
            } else {
                assert(s.drop_first()[i - 1] <= s.drop_first()[j - 1]);
            }
        }
    } else {
        lemma_subsequence_sorted(s, t.drop_first());
    }
}

/// On a sorted sequence, `count_lt` is the partition index: everything
/// before it is below `p`, and the entry at it (if any) reaches `p`.
pub proof fn lemma_count_lt_bounds(s: Seq<i32>, p: i32)
    requires
        sorted(s),
    ensures
        0 <= count_lt(s, p) <= s.len(),
        forall|k: int| 0 <= k < count_lt(s, p) ==> s[k] < p,
        count_lt(s, p) < s.len() ==> s[count_lt(s, p)] >= p,
    decreases s.len(),
{
    if s.len() > 0 {
        let t = s.drop_last();
        assert(sorted(t));
        lemma_count_lt_bounds(t, p);
        let c = count_lt(t, p);
        assert forall|k: int| 0 <= k < c implies s[k] < p by {
            assert(t[k] < p);
        }
        if s.last() < p {
            if c < t.len() {
                assert(t[c] >= p);
                assert(s[c] <= s[s.len() - 1]);
                assert(false);
            }
        }
    }
}

/// Entries at or past `i` that all reach `p` add nothing to the count.
pub proof fn lemma_count_lt_high_suffix(s: Seq<i32>, i: int, p: i32)
    requires
        0 <= i <= s.len(),
        forall|k: int| i <= k < s.len() ==> s[k] >= p,
    ensures
        count_lt(s, p) == count_lt(s.take(i), p),
    decreases s.len() - i,
{
    if i == s.len() {
        assert(s.take(i) =~= s);
    } else {
        assert(s.last() >= p);
        lemma_count_lt_high_suffix(s.drop_last(), i, p);
        assert(s.drop_last().take(i) =~= s.take(i));
    }
}

/// Loosening the bound never lowers the count.
pub proof fn lemma_count_lt_monotone(s: Seq<i32>, p1: i32, p2: i32)
    requires
        p1 <= p2,
    ensures
        count_lt(s, p1) <= count_lt(s, p2),
    decreases s.len(),
{
    if s.len() > 0 {
        lemma_count_lt_monotone(s.drop_last(), p1, p2);
    }
}

/// Collapsing duplicates keeps ascending order.
pub proof fn lemma_deduped_sorted(s: Seq<i32>)
    requires
        sorted(s),
    ensures
        sorted(deduped(s)),
    decreases s.len(),
{
    if s.len() > 1 {
        let t = s.drop_last();
        assert(sorted(t));
        lemma_deduped_sorted(t);
        if s.last() != s[s.len() - 2] {
            lemma_deduped_last(t);
            let u = deduped(t).push(s.last());
            assert forall|i: int, j: int| 0 <= i < j < u.len() implies u[i] <= u[j] by {
                if j == u.len() - 1 {
                    if i < deduped(t).len() - 1 {
                        assert(deduped(t)[i] <= deduped(t).last());
                    }
                    assert(t.last() == s[s.len() - 2]);
                    assert(s[s.len() - 2] <= s.last());
                }
            }
        }
    }
}

/// Collapsing duplicates keeps the last entry, and keeps the sequence
/// non-empty.
pub proof fn lemma_deduped_last(s: Seq<i32>)
    requires
        s.len() > 0,
    ensures
        deduped(s).len() > 0,
        deduped(s).last() == s.last(),
    decreases s.len(),
{
    if s.len() > 1 {
        lemma_deduped_last(s.drop_last());
    }
}

/// Collapsing duplicates introduces no entry.
pub proof fn lemma_deduped_contains(s: Seq<i32>)
    ensures
        forall|i: int| 0 <= i < deduped(s).len() ==> s.contains(#[trigger] deduped(s)[i]),
    decreases s.len(),
{
    if s.len() <= 1 {
    } else {
        let t = s.drop_last();
        lemma_deduped_contains(t);
        assert forall|i: int| 0 <= i < deduped(s).len() implies s.contains(
            #[trigger] deduped(s)[i],
        ) by {
            if s.last() == s[s.len() - 2] || i < deduped(s).len() - 1 {
                let x = deduped(s)[i];
                assert(deduped(t)[i] == x);
                assert(t.contains(x));
                let j = choose|j: int| 0 <= j < t.len() && t[j] == x;
                assert(s[j] == x);
            } else {
                assert(deduped(s)[i] == s.last());
                assert(s[s.len() - 1] == s.last());
            }
        }
    }
}

} // verus!
