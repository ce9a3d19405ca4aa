//! Facts that relate the results of several calls: every sort of a sequence
//! in one order gives the same result, and the two maximum-subarray solvers
//! agree on the best sum.

use vstd::prelude::*;
use vstd::relations::{sorted_by, total_ordering};
use vstd::seq_lib::lemma_sorted_unique;
use crate::order::{Comparator, SortOrder, before, sorts};
use crate::max_subarray::{is_best_range, is_max_subarray, range_sum, seq_sum};

verus! {

/// `cmp` ranks no two distinct elements as interchangeable.
pub open spec fn antisymmetric<T, C: Comparator<T>>(cmp: &C) -> bool {
    forall|a: T, b: T| #[trigger] cmp.le(a, b) && cmp.le(b, a) ==> a == b
}

/// Any two rearrangements of `s` into the order of an antisymmetric
/// comparator are equal: whatever the algorithm, a sort's result is
/// determined by its input and its comparator.
pub proof fn lemma_sorts_agree<T, C: Comparator<T>>(cmp: &C, s: Seq<T>, t1: Seq<T>, t2: Seq<T>)
    requires
        antisymmetric(cmp),
        sorts(cmp, s, t1),
        sorts(cmp, s, t2),
    ensures
        t1 == t2,
{
    cmp.lemma_total_order();
    let leq = |a: T, b: T| before(cmp, a, b);
    assert(total_ordering(leq));
    assert(sorted_by(t1, leq));
    assert(sorted_by(t2, leq));
    lemma_sorted_unique(t1, t2, leq);
}

/// Sorting a sorted result again, by the same antisymmetric comparator,
/// leaves it unchanged.
pub proof fn lemma_sort_idempotent<T, C: Comparator<T>>(cmp: &C, s: Seq<T>, t: Seq<T>, u: Seq<T>)
    requires
        antisymmetric(cmp),
        sorts(cmp, s, t),
        sorts(cmp, t, u),
    ensures
        u == t,
{
    assert(sorts(cmp, t, t));
    lemma_sorts_agree(cmp, t, t, u);
}

/// The descending sort of `s` is its ascending sort reversed.
pub proof fn lemma_desc_is_reversed_asc(s: Seq<i32>, asc: Seq<i32>, desc: Seq<i32>)
    requires
        sorts(&SortOrder::Ascending, s, asc),
        sorts(&SortOrder::Descending, s, desc),
    ensures
        asc == desc.reverse(),
{
    desc.lemma_reverse_to_multiset();
    let r = desc.reverse();
    assert forall|i: int, j: int| 0 <= i < j < r.len() implies #[trigger] before(&SortOrder::Ascending, r[i], r[j]) by {
        assert(before(&SortOrder::Descending, desc[desc.len() - 1 - j], desc[desc.len() - 1 - i]));
    }
    lemma_sorts_agree(&SortOrder::Ascending, s, asc, r);
}

/// Sorting a sequence of at most one element, by any comparator, leaves it
/// unchanged.
pub proof fn lemma_short_sort_unchanged<T, C: Comparator<T>>(cmp: &C, s: Seq<T>, t: Seq<T>)
    requires
        s.len() <= 1,
        sorts(cmp, s, t),
    ensures
        t == s,
{
    broadcast use vstd::seq_lib::group_to_multiset_ensures;

    assert(t.to_multiset().len() == t.len());
    assert(s.to_multiset().len() == s.len());
    if t.len() == 1 {
        assert(t.to_multiset().count(t[0]) > 0);
        assert(s.contains(t[0]));
    }
    assert(t =~= s);
}

/// Any two maximum subarrays of `s` have the same sum.
pub proof fn lemma_max_subarray_sums_agree(s: Seq<i32>, t1: Seq<i32>, t2: Seq<i32>)
    requires
        is_max_subarray(s, t1),
        is_max_subarray(s, t2),
    ensures
        seq_sum(t1) == seq_sum(t2),
{
    if s.len() > 0 {
        let (a1, b1) = choose|lo: int, hi: int| is_best_range(s, lo, hi) && t1 == #[trigger] s.subrange(lo, hi);
        let (a2, b2) = choose|lo: int, hi: int| is_best_range(s, lo, hi) && t2 == #[trigger] s.subrange(lo, hi);
        assert(range_sum(s, a1, b1) <= range_sum(s, a2, b2));
        assert(range_sum(s, a2, b2) <= range_sum(s, a1, b1));
    }
}

/// The maximum subarray of a sequence of at most one element is the whole
/// sequence.
pub proof fn lemma_short_max_subarray(s: Seq<i32>, t: Seq<i32>)
    requires
        s.len() <= 1,
        is_max_subarray(s, t),
    ensures
        t == s,
{
    if s.len() == 1 {
        let (lo, hi) = choose|lo: int, hi: int| is_best_range(s, lo, hi) && t == #[trigger] s.subrange(lo, hi);
        assert(s.subrange(0, 1) =~= s);
    } else {
        assert(t =~= s);
    }
}

} // verus!
