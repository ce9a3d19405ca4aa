//! Heap sort over an implicit binary max-heap (the largest element under the
//! sort order at the root), built in place on a prefix of the sequence.

use vstd::prelude::*;
use core::cmp::Ordering;
use crate::order::{Comparator, SortOrder, is_total, before, exchange, sorts, permutation_of, strictly_before};

verus! {

/// Position of the parent of node `c` (0-based; the root is 0).
pub open spec fn parent(c: int) -> int {
    (c - 1) / 2
}

/// Node `c` does not have to come after its parent.
pub open spec fn heap_edge<T, C: Comparator<T>>(cmp: &C, s: Seq<T>, c: int) -> bool {
    before(cmp, s[c], s[parent(c)])
}

/// The first `m` elements of `s` form a heap: no node must come after its parent.
pub open spec fn is_heap<T, C: Comparator<T>>(cmp: &C, s: Seq<T>, m: int) -> bool {
    forall|c: int| 1 <= c < m ==> #[trigger] heap_edge(cmp, s, c)
}

/// Every element of the first `m` positions may stand before every element
/// from position `m` on.
pub open spec fn prefix_before_suffix<T, C: Comparator<T>>(cmp: &C, s: Seq<T>, m: int) -> bool {
    forall|a: int, b: int| 0 <= a < m <= b < s.len() ==> #[trigger] before(cmp, s[a], s[b])
}

/// The elements from position `m` on are in order.
pub open spec fn suffix_sorted<T, C: Comparator<T>>(cmp: &C, s: Seq<T>, m: int) -> bool {
    forall|a: int, b: int| m <= a < b < s.len() ==> #[trigger] before(cmp, s[a], s[b])
}

/// The root of a heap may stand after every node of it.
proof fn lemma_root_last<T, C: Comparator<T>>(cmp: &C, s: Seq<T>, m: int, a: int)
    requires
        is_total(cmp),
        is_heap(cmp, s, m),
        0 <= a < m <= s.len(),
    ensures
        before(cmp, s[a], s[0]),
    decreases a,
{
    if a > 0 {
        assert(heap_edge(cmp, s, a));
        lemma_root_last(cmp, s, m, parent(a));
    }
}

/// Adds the element at position `m` to the heap on the first `m` positions by
/// moving it up past every parent that must come before it.
fn sift_up<T, C: Comparator<T>>(arr: &mut Vec<T>, cmp: &C, m: usize)
    requires
        is_total(cmp),
        m < old(arr).len(),
        is_heap(cmp, old(arr)@, m as int),
    ensures
        is_heap(cmp, final(arr)@, m + 1),
        permutation_of(final(arr)@, old(arr)@),
        final(arr).len() == old(arr).len(),
{
    let mut c: usize = m;
    while c > 0 && matches!(cmp.compare(&arr[(c - 1) / 2], &arr[c]), Ordering::Less)
        invariant
            is_total(cmp),
            c <= m < arr.len(),
            arr.len() == old(arr).len(),
            permutation_of(arr@, old(arr)@),
            forall|d: int| 1 <= d <= m && d != c ==> #[trigger] heap_edge(cmp, arr@, d),
            c > 0 ==> forall|d: int|
                1 <= d <= m && parent(d) == c ==> before(cmp, #[trigger] arr@[d], arr@[parent(c as int)]),
        decreases c,
    {
        let p = (c - 1) / 2;
        let ghost s = arr@;
        exchange(arr, c, p);
        proof {
            let t = arr@;
            assert forall|d: int| 1 <= d <= m && d != p implies #[trigger] heap_edge(cmp, t, d) by {
                if d == c {
                } else if parent(d) == c {
                    assert(before(cmp, s[d], s[parent(c as int)]));
                } else if parent(d) == p {
                    assert(heap_edge(cmp, s, d));
                } else {
                    assert(heap_edge(cmp, s, d));
                }
            }
            if p > 0 {
                assert(heap_edge(cmp, s, p as int));
                assert forall|d: int|
                    1 <= d <= m && parent(d) == p implies before(cmp, #[trigger] t[d], t[parent(p as int)]) by {
                    if d != c {
                        assert(heap_edge(cmp, s, d));
                    }
                }
            }
        }
        c = p;
    }
    proof {
        if c > 0 {
            assert(heap_edge(cmp, arr@, c as int));
        }
    }
}

/// Restores the heap on the first `h` positions after its root was replaced,
/// by moving the root down past every child that must come after it.
/// Positions from `h` on are left alone.
fn sift_down<T, C: Comparator<T>>(arr: &mut Vec<T>, cmp: &C, h: usize)
    requires
        is_total(cmp),
        h <= old(arr).len(),
        forall|d: int| 1 <= d < h && parent(d) != 0 ==> #[trigger] heap_edge(cmp, old(arr)@, d),
        prefix_before_suffix(cmp, old(arr)@, h as int),
    ensures
        is_heap(cmp, final(arr)@, h as int),
        prefix_before_suffix(cmp, final(arr)@, h as int),
        permutation_of(final(arr)@, old(arr)@),
        final(arr).len() == old(arr).len(),
        forall|b: int| h <= b < old(arr).len() ==> #[trigger] final(arr)@[b] == old(arr)@[b],
{
    let n = arr.len();
    let mut c: usize = 0;
    loop
        invariant
            is_total(cmp),
            h <= n == arr.len(),
            c < h || h == 0,
            permutation_of(arr@, old(arr)@),
            forall|d: int| 1 <= d < h && parent(d) != c ==> #[trigger] heap_edge(cmp, arr@, d),
            c > 0 ==> forall|d: int|
                1 <= d < h && parent(d) == c ==> before(cmp, #[trigger] arr@[d], arr@[parent(c as int)]),
            prefix_before_suffix(cmp, arr@, h as int),
            forall|b: int| h <= b < n ==> #[trigger] arr@[b] == old(arr)@[b],
        ensures
            is_heap(cmp, arr@, h as int),
            prefix_before_suffix(cmp, arr@, h as int),
            permutation_of(arr@, old(arr)@),
            arr.len() == n,
            forall|b: int| h <= b < n ==> #[trigger] arr@[b] == old(arr)@[b],
        decreases h - c,
    {
        let mut largest: usize = c;
        if h >= 2 && c <= (h - 2) / 2 {
            let l = 2 * c + 1;
            if matches!(cmp.compare(&arr[l], &arr[largest]), Ordering::Greater) {
                largest = l;
            }
            if h >= 3 && c <= (h - 3) / 2 {
                let r = 2 * c + 2;
                if matches!(cmp.compare(&arr[r], &arr[largest]), Ordering::Greater) {
                    largest = r;
                }
            }
        }
        proof {
            assert forall|d: int| 1 <= d < h && parent(d) == c implies before(cmp, #[trigger] arr@[d], arr@[largest as int]) by {
                assert(d == 2 * c + 1 || d == 2 * c + 2);
            }
        }
        if largest == c {
            proof {
                assert forall|d: int| 1 <= d < h implies #[trigger] heap_edge(cmp, arr@, d) by {
                    if parent(d) == c {
                        assert(before(cmp, arr@[d], arr@[largest as int]));
                    }
                }
            }
            break;
        }
        let ghost s = arr@;
        exchange(arr, c, largest);
        proof {
            let t = arr@;
            let g = largest as int;
            assert(strictly_before(cmp, s[c as int], s[g]));
            assert forall|d: int| 1 <= d < h && parent(d) != g implies #[trigger] heap_edge(cmp, t, d) by {
                if parent(d) == c {
                    assert(before(cmp, s[d], s[g]));
                } else if d == c {
                    assert(before(cmp, s[g], s[parent(c as int)]));
                } else {
                    assert(heap_edge(cmp, s, d));
                }
            }
            assert forall|d: int|
                1 <= d < h && parent(d) == g implies before(cmp, #[trigger] t[d], t[parent(g)]) by {
                assert(heap_edge(cmp, s, d));
            }
            assert forall|a: int, b: int| 0 <= a < h <= b < n implies #[trigger] before(cmp, t[a], t[b]) by {
                if a == c {
                    assert(before(cmp, s[g], s[b]));
                } else if a == g {
                    assert(before(cmp, s[c as int], s[b]));
                } else {
                    assert(before(cmp, s[a], s[b]));
                }
            }
        }
        c = largest;
    }
}

/// Sorts `arr` by `cmp`: builds a heap over the whole sequence, then
/// repeatedly moves its root behind the shrinking heap.
pub fn heap_sort_by<T, C: Comparator<T>>(arr: &mut Vec<T>, cmp: &C)
    ensures
        sorts(cmp, old(arr)@, final(arr)@),
{
    proof {
        cmp.lemma_total_order();
    }
    let n = arr.len();
    if n <= 1 {
        return;
    }
    let mut m: usize = 1;
    while m < n
        invariant
            is_total(cmp),
            1 <= m <= n == arr.len(),
            permutation_of(arr@, old(arr)@),
            is_heap(cmp, arr@, m as int),
        decreases n - m,
    {
        sift_up(arr, cmp, m);
        m += 1;
    }
    while m > 1
        invariant
            is_total(cmp),
            1 <= m <= n == arr.len(),
            permutation_of(arr@, old(arr)@),
            is_heap(cmp, arr@, m as int),
            prefix_before_suffix(cmp, arr@, m as int),
            suffix_sorted(cmp, arr@, m as int),
        decreases m,
    {
        let ghost s = arr@;
        exchange(arr, 0, m - 1);
        proof {
            let t = arr@;
            assert forall|a: int, b: int| 0 <= a < m - 1 && m - 1 <= b < n implies #[trigger] before(cmp, t[a], t[b]) by {
                lemma_root_last(cmp, s, m as int, m - 1);
                if a == 0 {
                    assert(before(cmp, s[m - 1], s[0]));
                } else {
                    lemma_root_last(cmp, s, m as int, a);
                }
                if b >= m {
                    assert(before(cmp, s[0], s[b]));
                }
            }
            assert forall|a: int, b: int| m - 1 <= a < b < n implies #[trigger] before(cmp, t[a], t[b]) by {
                if a == m - 1 {
                    assert(before(cmp, s[0], s[b]));
                } else {
                    assert(before(cmp, s[a], s[b]));
                }
            }
            assert forall|d: int| 1 <= d < m - 1 && parent(d) != 0 implies #[trigger] heap_edge(cmp, t, d) by {
                assert(heap_edge(cmp, s, d));
            }
        }
        let ghost u = arr@;
        sift_down(arr, cmp, m - 1);
        proof {
            assert forall|a: int, b: int| m - 1 <= a < b < n implies #[trigger] before(cmp, arr@[a], arr@[b]) by {
                assert(before(cmp, u[a], u[b]));
            }
        }
        m -= 1;
    }
    proof {
        assert forall|a: int, b: int| 0 <= a < b < n implies #[trigger] before(cmp, arr@[a], arr@[b]) by {
            if a == 0 {
                assert(before(cmp, arr@[0], arr@[b]));
            }
        }
    }
}

/// Sorts `arr` into ascending order with a heap.
pub fn heap_sort(arr: &mut Vec<i32>)
    ensures
        sorts(&SortOrder::Ascending, old(arr)@, final(arr)@),
{
    heap_sort_by(arr, &SortOrder::Ascending)
}

/// Sorts `arr` into descending order with a heap.
pub fn heap_sort_desc(arr: &mut Vec<i32>)
    ensures
        sorts(&SortOrder::Descending, old(arr)@, final(arr)@),
{
    heap_sort_by(arr, &SortOrder::Descending)
}

} // verus!
