//! Insertion sort: stable, adaptive, quadratic.

use vstd::prelude::*;
use core::cmp::Ordering;
use crate::order::{Comparator, SortOrder, arrangement, before, exchange, is_total, keeps_ties, permutation_of, sorts_stably, strictly_before};

verus! {

/// Sorts `arr` by `cmp`: each element in turn is moved left past every
/// earlier element that must come after it. Equal elements are never
/// exchanged, so they keep their order.
pub fn insert_sort_by<T, C: Comparator<T>>(arr: &mut Vec<T>, cmp: &C)
    ensures
        sorts_stably(cmp, old(arr)@, final(arr)@),
{
    proof {
        cmp.lemma_total_order();
    }
    let n = arr.len();
    let ghost mut from: Seq<int> = Seq::new(n as nat, |k: int| k);
    if n == 0 {
        assert(arrangement(old(arr)@, arr@, from) && keeps_ties(cmp, arr@, from));
        return;
    }
    let mut i: usize = 1;
    while i < n
        invariant
            is_total(cmp),
            1 <= i <= n,
            n == arr.len(),
            permutation_of(arr@, old(arr)@),
            arrangement(old(arr)@, arr@, from),
            forall|k: int| i <= k < n ==> #[trigger] from[k] == k,
            forall|k: int| 0 <= k < i ==> #[trigger] from[k] < i,
            forall|a: int, b: int| 0 <= a < b < i ==> #[trigger] before(cmp, arr@[a], arr@[b]),
            forall|a: int, b: int| 0 <= a < b < i && #[trigger] before(cmp, arr@[b], arr@[a]) ==> from[a] < from[b],
        decreases n - i,
    {
        let mut j: usize = i;
        while j >= 1 && matches!(cmp.compare(&arr[j], &arr[j - 1]), Ordering::Less)
            invariant
                is_total(cmp),
                0 <= j <= i < n,
                n == arr.len(),
                permutation_of(arr@, old(arr)@),
                arrangement(old(arr)@, arr@, from),
                forall|k: int| i < k < n ==> #[trigger] from[k] == k,
                from[j as int] == i,
                forall|k: int| 0 <= k <= i && k != j ==> #[trigger] from[k] < i,
                forall|a: int, b: int|
                    0 <= a < b <= i && a != j && b != j ==> #[trigger] before(cmp, arr@[a], arr@[b]),
                forall|a: int, b: int|
                    0 <= a < b <= i && a != j && b != j && #[trigger] before(cmp, arr@[b], arr@[a]) ==> from[a] < from[b],
                forall|b: int| j < b <= i ==> #[trigger] strictly_before(cmp, arr@[j as int], arr@[b]),
            decreases j,
        {
            let ghost s = arr@;
            let ghost f = from;
            exchange(arr, j, j - 1);
            proof {
                from = f.update(j as int, f[j - 1]).update(j - 1, f[j as int]);
                let t = arr@;
                assert forall|a: int, b: int|
                    0 <= a < b <= i && a != j - 1 && b != j - 1 && #[trigger] before(cmp, t[b], t[a]) implies from[a] < from[b] by {
                    if a == j {
                        assert(before(cmp, s[b], s[j - 1]));
                    } else if b == j {
                        assert(before(cmp, s[j - 1], s[a]));
                    }
                }
                assert forall|k1: int, k2: int| 0 <= k1 < k2 < t.len() implies #[trigger] from[k1] != #[trigger] from[k2] by {
                    let g1 = if k1 == j { j - 1 } else if k1 == j - 1 { j as int } else { k1 };
                    let g2 = if k2 == j { j - 1 } else if k2 == j - 1 { j as int } else { k2 };
                    assert(f[g1] != f[g2]);
                }
                assert forall|k: int| 0 <= k < t.len() implies 0 <= #[trigger] from[k] < s.len() && t[k] == old(arr)@[from[k]] by {
                    let g = if k == j { j - 1 } else if k == j - 1 { j as int } else { k };
                    assert(0 <= f[g] < s.len() && s[g] == old(arr)@[f[g]]);
                }
            }
            j -= 1;
        }
        assert(j >= 1 ==> before(cmp, arr@[j - 1], arr@[j as int]));
        assert forall|a: int, b: int| 0 <= a < b < i + 1 implies #[trigger] before(cmp, arr@[a], arr@[b]) by {
            if b == j && a < j - 1 {
                assert(before(cmp, arr@[a], arr@[j - 1]));
            } else if a == j && b > j {
                assert(strictly_before(cmp, arr@[j as int], arr@[b]));
            }
        }
        assert forall|a: int, b: int| 0 <= a < b < i + 1 && #[trigger] before(cmp, arr@[b], arr@[a]) implies from[a] < from[b] by {
            if a == j {
                assert(strictly_before(cmp, arr@[j as int], arr@[b]));
            }
        }
        i += 1;
    }
    assert(arrangement(old(arr)@, arr@, from) && keeps_ties(cmp, arr@, from));
}

/// Sorts `arr` into ascending order by insertion.
pub fn insert_sort(arr: &mut Vec<i32>)
    ensures
        sorts_stably(&SortOrder::Ascending, old(arr)@, final(arr)@),
{
    insert_sort_by(arr, &SortOrder::Ascending)
}

/// Sorts `arr` into descending order by insertion.
pub fn insert_sort_desc(arr: &mut Vec<i32>)
    ensures
        sorts_stably(&SortOrder::Descending, old(arr)@, final(arr)@),
{
    insert_sort_by(arr, &SortOrder::Descending)
}

} // verus!
