//! Quicksort with Hoare partitioning, driven by an explicit stack of index
//! ranges in place of recursion.

use vstd::prelude::*;
use core::cmp::Ordering;
use crate::order::{Comparator, SortOrder, is_total, before, exchange, sorts, permutation_of};

verus! {

/// Every element of `t` in positions `l..=r` is an element of `s` in the same positions.
pub open spec fn drawn_from<T>(t: Seq<T>, s: Seq<T>, l: int, r: int) -> bool {
    forall|x: int| #![trigger t[x]] l <= x <= r ==> exists|y: int| l <= y <= r && t[x] == s[y]
}

/// `t` equals `s` outside positions `l..=r`.
pub open spec fn same_outside<T>(t: Seq<T>, s: Seq<T>, l: int, r: int) -> bool {
    t.len() == s.len() && forall|x: int| 0 <= x < s.len() && (x < l || r < x) ==> #[trigger] t[x] == s[x]
}

/// Rearranges positions `l..=r` of `arr` around a copy of their middle element,
/// so that no element up to the returned position must come after an element
/// beyond it. Both parts are non-empty.
fn partition<T: Copy, C: Comparator<T>>(arr: &mut Vec<T>, cmp: &C, l: usize, r: usize) -> (p: usize)
    requires
        is_total(cmp),
        l < r < old(arr).len(),
    ensures
        l <= p < r,
        permutation_of(final(arr)@, old(arr)@),
        same_outside(final(arr)@, old(arr)@, l as int, r as int),
        drawn_from(final(arr)@, old(arr)@, l as int, r as int),
        forall|x: int, y: int| l <= x <= p < y <= r ==> #[trigger] before(cmp, final(arr)@[x], final(arr)@[y]),
{
    let mid = l + (r - l) / 2;
    let k = arr[mid];
    let mut i: usize = l;
    let mut j: usize = r;
    let ghost mut si: int = mid as int;
    let ghost mut sj: int = mid as int;
    loop
        invariant
            is_total(cmp),
            l <= i <= si <= r < arr.len(),
            l <= sj <= j <= r,
            i <= j + 1,
            si < r || j < r,
            before(cmp, k, arr@[si]),
            before(cmp, arr@[sj], k),
            forall|x: int| l <= x < i ==> #[trigger] before(cmp, arr@[x], k),
            forall|x: int| j < x <= r ==> #[trigger] before(cmp, k, arr@[x]),
            permutation_of(arr@, old(arr)@),
            same_outside(arr@, old(arr)@, l as int, r as int),
            drawn_from(arr@, old(arr)@, l as int, r as int),
        decreases j + 2 - i,
    {
        let ghost i0 = i;
        let ghost j0 = j;
        while matches!(cmp.compare(&arr[i], &k), Ordering::Less)
            invariant
                is_total(cmp),
                i0 <= i,
                l <= i <= si <= r < arr.len(),
                before(cmp, k, arr@[si]),
                forall|x: int| l <= x < i ==> #[trigger] before(cmp, arr@[x], k),
            decreases si - i,
        {
            i += 1;
        }
        while matches!(cmp.compare(&arr[j], &k), Ordering::Greater)
            invariant
                is_total(cmp),
                j <= j0,
                l <= sj <= j <= r < arr.len(),
                before(cmp, arr@[sj], k),
                forall|x: int| j < x <= r ==> #[trigger] before(cmp, k, arr@[x]),
            decreases j - sj,
        {
            j -= 1;
        }
        if i >= j {
            proof {
                assert forall|x: int, y: int| l <= x <= j < y <= r implies #[trigger] before(cmp, arr@[x], arr@[y]) by {
                    assert(before(cmp, arr@[x], k));
                    assert(before(cmp, k, arr@[y]));
                }
            }
            return j;
        }
        let ghost s = arr@;
        exchange(arr, i, j);
        proof {
            let t = arr@;
            assert forall|x: int| #![trigger t[x]] l <= x <= r implies exists|y: int| l <= y <= r && t[x] == old(arr)@[y] by {
                if x == i {
                    assert(t[x] == s[j as int]);
                } else if x == j {
                    assert(t[x] == s[i as int]);
                } else {
                    assert(t[x] == s[x]);
                }
            }
            assert forall|x: int| 0 <= x < t.len() && (x < l || r < x) implies #[trigger] t[x] == old(arr)@[x] by {
                assert(t[x] == s[x]);
            }
        }
        proof {
            si = j as int;
            sj = i as int;
        }
        i += 1;
        j -= 1;
    }
}

/// Positions `a` and `b` both lie in frame `e` of `st`.
pub open spec fn in_frame(st: Seq<(usize, usize)>, e: int, a: int, b: int) -> bool {
    st[e].0 <= a && b <= st[e].1
}

/// Some frame of `st` holds both `a` and `b`.
pub open spec fn pending_together(st: Seq<(usize, usize)>, a: int, b: int) -> bool {
    exists|e: int| 0 <= e < st.len() && #[trigger] in_frame(st, e, a, b)
}

/// The frames of `st` are non-empty, pairwise disjoint ranges below `n`.
pub open spec fn frames_ok(st: Seq<(usize, usize)>, n: int) -> bool {
    &&& forall|e: int| #![trigger st[e]] 0 <= e < st.len() ==> st[e].0 <= st[e].1 && st[e].1 < n
    &&& forall|e: int, f: int|
        0 <= e < f < st.len() ==> #[trigger] st[e].1 < #[trigger] st[f].0 || st[f].1 < st[e].0
}

/// Every pair of positions that no frame holds together is already in order.
pub open spec fn settled<T, C: Comparator<T>>(cmp: &C, s: Seq<T>, st: Seq<(usize, usize)>) -> bool {
    forall|a: int, b: int|
        0 <= a < b < s.len() ==> pending_together(st, a, b) || #[trigger] before(cmp, s[a], s[b])
}

/// Work left on a stack of frames: each frame of `m` elements counts `2 m - 1`.
pub open spec fn stack_weight(st: Seq<(usize, usize)>) -> nat
    decreases st.len(),
{
    if st.len() == 0 {
        0
    } else {
        stack_weight(st.drop_last()) + (2 * (st.last().1 - st.last().0) + 1) as nat
    }
}

/// Replacing the top frame `l..=r` by its two parts around `p`, after the
/// frame was partitioned there, keeps the frames well formed and settled.
proof fn lemma_split_frame<T, C: Comparator<T>>(
    cmp: &C,
    s0: Seq<T>,
    s: Seq<T>,
    st0: Seq<(usize, usize)>,
    l: usize,
    r: usize,
    p: usize,
)
    requires
        is_total(cmp),
        st0.len() > 0,
        st0.last() == (l, r),
        l <= p < r,
        frames_ok(st0, s0.len() as int),
        settled(cmp, s0, st0),
        same_outside(s, s0, l as int, r as int),
        drawn_from(s, s0, l as int, r as int),
        forall|x: int, y: int| l <= x <= p < y <= r ==> #[trigger] before(cmp, s[x], s[y]),
    ensures
        frames_ok(st0.drop_last().push((l, p)).push(((p + 1) as usize, r)), s0.len() as int),
        settled(cmp, s, st0.drop_last().push((l, p)).push(((p + 1) as usize, r))),
{
    let n = s0.len();
    let last = st0.len() - 1;
    let st1 = st0.drop_last();
    let st2 = st1.push((l, p)).push(((p + 1) as usize, r));
    assert(st0[last as int].0 <= st0[last as int].1 && st0[last as int].1 < n);
    assert forall|e: int, f: int| 0 <= e < f < st2.len() implies #[trigger] st2[e].1 < #[trigger] st2[f].0 || st2[f].1 < st2[e].0 by {
        if f >= st1.len() && e < st1.len() {
            assert(st0[e].1 < st0[last as int].0 || st0[last as int].1 < st0[e].0);
        } else if f < st1.len() {
            assert(st0[e].1 < st0[f].0 || st0[f].1 < st0[e].0);
        }
    }
    assert forall|e: int| #![trigger st2[e]] 0 <= e < st2.len() implies st2[e].0 <= st2[e].1 && st2[e].1 < n by {
        if e < st1.len() {
            assert(st2[e] == st0[e]);
            assert(st0[e].0 <= st0[e].1);
        } else {
            assert(st0[last as int].1 < n);
        }
    }
    assert forall|a: int, b: int| 0 <= a < b < n implies pending_together(st2, a, b) || #[trigger] before(cmp, s[a], s[b]) by {
        let ain = l <= a <= r;
        let bin = l <= b <= r;
        if ain && bin {
            if b <= p {
                assert(in_frame(st2, st1.len() as int, a, b));
            } else if a > p {
                assert(in_frame(st2, st1.len() as int + 1, a, b));
            }
        } else if ain {
            let y = choose|y: int| l <= y <= r && s[a] == s0[y];
            assert(s[b] == s0[b]);
            if pending_together(st0, y, b) {
                let e = choose|e: int| 0 <= e < st0.len() && #[trigger] in_frame(st0, e, y, b);
                if e != last {
                    assert(st0[e].1 < st0[last as int].0 || st0[last as int].1 < st0[e].0);
                }
            }
            assert(before(cmp, s0[y], s0[b]));
        } else if bin {
            let y = choose|y: int| l <= y <= r && s[b] == s0[y];
            assert(s[a] == s0[a]);
            if pending_together(st0, a, y) {
                let e = choose|e: int| 0 <= e < st0.len() && #[trigger] in_frame(st0, e, a, y);
                if e != last {
                    assert(st0[e].1 < st0[last as int].0 || st0[last as int].1 < st0[e].0);
                }
            }
            assert(before(cmp, s0[a], s0[y]));
        } else {
            assert(s[a] == s0[a] && s[b] == s0[b]);
            if pending_together(st0, a, b) {
                let e = choose|e: int| 0 <= e < st0.len() && #[trigger] in_frame(st0, e, a, b);
                if e != last {
                    assert(in_frame(st2, e, a, b));
                }
            }
        }
    }
}

/// Sorts `arr` by `cmp` with quicksort: frames popped from a stack are
/// partitioned around their middle element and both parts are pushed back.
pub fn fast_sort_by<T: Copy, C: Comparator<T>>(arr: &mut Vec<T>, cmp: &C)
    ensures
        sorts(cmp, old(arr)@, final(arr)@),
{
    proof {
        cmp.lemma_total_order();
    }
    let n = arr.len();
    if n == 0 {
        return;
    }
    let mut st: Vec<(usize, usize)> = Vec::new();
    st.push((0, n - 1));
    proof {
        assert forall|a: int, b: int| 0 <= a < b < n implies pending_together(st@, a, b) || #[trigger] before(cmp, arr@[a], arr@[b]) by {
            assert(in_frame(st@, 0, a, b));
        }
    }
    while st.len() > 0
        invariant
            is_total(cmp),
            n == arr.len(),
            permutation_of(arr@, old(arr)@),
            frames_ok(st@, n as int),
            settled(cmp, arr@, st@),
        decreases stack_weight(st@),
    {
        let ghost st0 = st@;
        let ghost s0 = arr@;
        let last = st.len() - 1;
        let (l, r) = st[last];
        st.pop();
        let ghost st1 = st@;
        assert(st1 =~= st0.drop_last());
        if l < r {
            let p = partition(arr, cmp, l, r);
            st.push((l, p));
            st.push(((p + 1) as usize, r));
            proof {
                assert(st@.drop_last() =~= st1.push((l, p)));
                assert(st@.drop_last().drop_last() =~= st1);
                assert(stack_weight(st@.drop_last()) == stack_weight(st1) + 2 * (p - l) + 1);
                assert(stack_weight(st@) == stack_weight(st1) + 2 * (r - l));
                lemma_split_frame(cmp, s0, arr@, st0, l, r, p);
                assert(st@ =~= st0.drop_last().push((l, p)).push(((p + 1) as usize, r)));
            }
        } else {
            proof {
                assert forall|a: int, b: int| 0 <= a < b < n implies pending_together(st1, a, b) || #[trigger] before(cmp, arr@[a], arr@[b]) by {
                    if pending_together(st0, a, b) {
                        let e = choose|e: int| 0 <= e < st0.len() && #[trigger] in_frame(st0, e, a, b);
                        if e != last {
                            assert(in_frame(st1, e, a, b));
                        }
                    }
                }
            }
        }
    }
    proof {
        assert forall|a: int, b: int| 0 <= a < b < n implies #[trigger] before(cmp, arr@[a], arr@[b]) by {
            assert(!pending_together(st@, a, b));
        }
    }
}

/// Sorts `arr` into ascending order with quicksort.
pub fn fast_sort(arr: &mut Vec<i32>)
    ensures
        sorts(&SortOrder::Ascending, old(arr)@, final(arr)@),
{
    fast_sort_by(arr, &SortOrder::Ascending)
}

/// Sorts `arr` into descending order with quicksort.
pub fn fast_sort_desc(arr: &mut Vec<i32>)
    ensures
        sorts(&SortOrder::Descending, old(arr)@, final(arr)@),
{
    fast_sort_by(arr, &SortOrder::Descending)
}

} // verus!
