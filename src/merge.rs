//! Bottom-up merge sort: runs of width 1, 2, 4, ... are merged pairwise
//! through a buffer until one run covers the whole sequence.

use vstd::prelude::*;
use core::cmp::Ordering;
use vstd::arithmetic::div_mod::{lemma_div_is_ordered, lemma_fundamental_div_mod, lemma_fundamental_div_mod_converse, lemma_mod_pos_bound};
use crate::order::{Comparator, SortOrder, arrangement, before, is_total, keeps_ties, permutation_of, sorts_stably, strictly_before};

verus! {

broadcast use {vstd::seq_lib::to_multiset_build, vstd::seq_lib::group_to_multiset_ensures, vstd::seq_lib::lemma_multiset_commutative, vstd::multiset::group_multiset_axioms};

/// Positions `lo..hi` of `s` are in order.
pub open spec fn range_sorted<T, C: Comparator<T>>(cmp: &C, s: Seq<T>, lo: int, hi: int) -> bool {
    forall|a: int, b: int| lo <= a < b < hi ==> #[trigger] before(cmp, s[a], s[b])
}

/// Within positions `lo..hi`, each block of `w` positions (starting at a
/// multiple of `w`) is in order.
pub open spec fn runs_sorted<T, C: Comparator<T>>(cmp: &C, s: Seq<T>, w: int, lo: int, hi: int) -> bool {
    forall|a: int, b: int| lo <= a < b < hi && a / w == b / w ==> #[trigger] before(cmp, s[a], s[b])
}

/// A position of block `c` of width `d` has quotient `c`.
proof fn lemma_in_block(a: int, d: int, c: int)
    requires
        d > 0,
        c * d <= a < c * d + d,
    ensures
        a / d == c,
{
    lemma_fundamental_div_mod_converse(a, d, c, a - c * d);
}

/// A position before block `c` of width `d` has a smaller quotient.
proof fn lemma_before_block(a: int, d: int, c: int)
    requires
        d > 0,
        0 <= a < c * d,
    ensures
        a / d < c,
{
    lemma_fundamental_div_mod(a, d);
    lemma_mod_pos_bound(a, d);
    let q = a / d;
    assert(q < c) by (nonlinear_arith)
        requires
            a == d * q + a % d,
            a % d >= 0,
            a < c * d,
            d > 0,
    ;
}

/// `q` maps each position of `t` to the position of `s` whose element stands
/// there; only positions `low..=high` move, among themselves, and of two
/// elements that `cmp` ranks as equal the earlier one of `s` stays first.
pub open spec fn merged_from<T, C: Comparator<T>>(cmp: &C, s: Seq<T>, t: Seq<T>, q: Seq<int>, low: int, high: int) -> bool {
    &&& q.len() == s.len() == t.len()
    &&& forall|k: int| 0 <= k < s.len() ==> #[trigger] t[k] == s[q[k]]
    &&& forall|k: int| 0 <= k < s.len() && (k < low || high < k) ==> #[trigger] q[k] == k
    &&& forall|k: int| low <= k <= high ==> low <= #[trigger] q[k] <= high
    &&& forall|k1: int, k2: int| 0 <= k1 < k2 < s.len() ==> #[trigger] q[k1] != #[trigger] q[k2]
    &&& forall|k1: int, k2: int| low <= k1 < k2 <= high && #[trigger] before(cmp, t[k2], t[k1]) ==> q[k1] < q[k2]
}

/// Merges the ordered positions `low..=mid` and `mid+1..=high` of `arr` into
/// one ordered run. On a tie the element of the left part comes first.
/// The returned map gives, for each position, the position before the merge
/// whose element now stands there.
fn merge<T: Copy, C: Comparator<T>>(arr: &mut Vec<T>, cmp: &C, low: usize, mid: usize, high: usize) -> (q: Ghost<Seq<int>>)
    requires
        is_total(cmp),
        low <= mid <= high < old(arr).len(),
        range_sorted(cmp, old(arr)@, low as int, mid + 1),
        range_sorted(cmp, old(arr)@, mid + 1, high + 1),
    ensures
        final(arr).len() == old(arr).len(),
        permutation_of(final(arr)@, old(arr)@),
        range_sorted(cmp, final(arr)@, low as int, high + 1),
        forall|x: int| 0 <= x < old(arr).len() && (x < low || high < x) ==> #[trigger] final(arr)@[x] == old(arr)@[x],
        merged_from(cmp, old(arr)@, final(arr)@, q@, low as int, high as int),
{
    let ghost s = arr@;
    let ghost mut qb: Seq<int> = Seq::empty();
    let mut buf: Vec<T> = Vec::with_capacity(high - low + 1);
    let mut li: usize = low;
    let mut ri: usize = mid + 1;
    proof {
        assert(buf@ =~= Seq::<T>::empty());
        assert(s.subrange(low as int, low as int) =~= Seq::<T>::empty());
        assert(s.subrange(mid + 1, mid + 1) =~= Seq::<T>::empty());
    }
    while li <= mid || ri <= high
        invariant
            is_total(cmp),
            low <= li <= mid + 1,
            mid + 1 <= ri <= high + 1,
            high < arr.len(),
            arr@ == s,
            buf@.len() == (li - low) + (ri - mid - 1),
            buf@.to_multiset() == s.subrange(low as int, li as int).to_multiset().add(
                s.subrange(mid + 1, ri as int).to_multiset(),
            ),
            range_sorted(cmp, buf@, 0, buf@.len() as int),
            range_sorted(cmp, s, low as int, mid + 1),
            range_sorted(cmp, s, mid + 1, high + 1),
            buf@.len() > 0 && li <= mid ==> before(cmp, buf@.last(), s[li as int]),
            buf@.len() > 0 && ri <= high ==> before(cmp, buf@.last(), s[ri as int]),
            qb.len() == buf@.len(),
            forall|k: int| 0 <= k < qb.len() ==> (low <= #[trigger] qb[k] < li || mid < qb[k] < ri) && buf@[k] == s[qb[k]],
            forall|k1: int, k2: int| 0 <= k1 < k2 < qb.len() ==> #[trigger] qb[k1] != #[trigger] qb[k2],
            forall|k1: int, k2: int| 0 <= k1 < k2 < qb.len() && #[trigger] before(cmp, buf@[k2], buf@[k1]) ==> qb[k1] < qb[k2],
            li <= mid ==> forall|k: int| 0 <= k < qb.len() && mid < #[trigger] qb[k] ==> strictly_before(cmp, buf@[k], s[li as int]),
        decreases (mid + 1 - li) + (high + 1 - ri),
    {
        let ghost b0 = buf@;
        let ghost q0 = qb;
        if ri > high || (li <= mid && !matches!(cmp.compare(&arr[li], &arr[ri]), Ordering::Greater)) {
            buf.push(arr[li]);
            proof {
                qb = q0.push(li as int);
                assert forall|k: int| 0 <= k < qb.len() && mid < #[trigger] qb[k] && li + 1 <= mid implies strictly_before(cmp, buf@[k], s[li + 1]) by {
                    assert(strictly_before(cmp, buf@[k], s[li as int]));
                    assert(before(cmp, s[li as int], s[li + 1]));
                }
                assert forall|k1: int, k2: int| 0 <= k1 < k2 < qb.len() && #[trigger] before(cmp, buf@[k2], buf@[k1]) implies qb[k1] < qb[k2] by {
                    if k2 == q0.len() && mid < qb[k1] {
                        assert(strictly_before(cmp, buf@[k1], s[li as int]));
                    }
                }
                assert(s.subrange(low as int, li + 1) =~= s.subrange(low as int, li as int).push(s[li as int]));
                assert(li + 1 <= mid ==> before(cmp, s[li as int], s[li + 1]));
            }
            li += 1;
        } else {
            buf.push(arr[ri]);
            proof {
                qb = q0.push(ri as int);
                assert(s.subrange(mid + 1, ri + 1) =~= s.subrange(mid + 1, ri as int).push(s[ri as int]));
                assert(ri + 1 <= high ==> before(cmp, s[ri as int], s[ri + 1]));
            }
            ri += 1;
        }
        proof {
            assert forall|a: int, b: int| 0 <= a < b < buf@.len() implies #[trigger] before(cmp, buf@[a], buf@[b]) by {
                if b == b0.len() && a < b0.len() - 1 {
                    assert(before(cmp, b0[a], b0.last()));
                }
            }
        }
    }
    proof {
        assert(s.subrange(low as int, li as int) =~= s.subrange(low as int, mid + 1));
        assert(s.subrange(mid + 1, ri as int) =~= s.subrange(mid + 1, high + 1));
    }
    let mut t: usize = 0;
    while t < buf.len()
        invariant
            is_total(cmp),
            buf@.len() == high + 1 - low,
            t <= buf@.len(),
            high < arr.len() == s.len(),
            forall|x: int| 0 <= x < s.len() && !(low <= x < low + t) ==> #[trigger] arr@[x] == s[x],
            forall|x: int| low <= x < low + t ==> #[trigger] arr@[x] == buf@[x - low],
        decreases buf@.len() - t,
    {
        arr.set(low + t, buf[t]);
        t += 1;
    }
    proof {
        let n = s.len() as int;
        let pre = s.subrange(0, low as int);
        let post = s.subrange(high + 1, n);
        assert(arr@ =~= pre + buf@ + post);
        assert(s =~= pre + (s.subrange(low as int, mid + 1) + s.subrange(mid + 1, high + 1)) + post);
        assert forall|a: int, b: int| low <= a < b < high + 1 implies #[trigger] before(cmp, arr@[a], arr@[b]) by {
            assert(before(cmp, buf@[a - low], buf@[b - low]));
        }
    }
    let ghost q = Seq::new(s.len(), |k: int| if low <= k <= high { qb[k - low] } else { k });
    proof {
        let t = arr@;
        assert forall|k: int| 0 <= k < s.len() implies #[trigger] t[k] == s[q[k]] by {
            if low <= k <= high {
                assert(t[k] == buf@[k - low]);
            }
        }
        assert forall|k1: int, k2: int| 0 <= k1 < k2 < s.len() implies #[trigger] q[k1] != #[trigger] q[k2] by {
            if low <= k1 <= high && low <= k2 <= high {
                assert(qb[k1 - low] != qb[k2 - low]);
            } else if low <= k1 <= high {
                assert(low <= qb[k1 - low] <= high);
            } else if low <= k2 <= high {
                assert(low <= qb[k2 - low] <= high);
            }
        }
        assert forall|k: int| low <= k <= high implies low <= #[trigger] q[k] <= high by {
            assert(low <= qb[k - low] <= high);
        }
        assert forall|k1: int, k2: int| low <= k1 < k2 <= high && #[trigger] before(cmp, t[k2], t[k1]) implies q[k1] < q[k2] by {
            assert(before(cmp, buf@[k2 - low], buf@[k1 - low]));
        }
    }
    Ghost(q)
}

/// Each position of `lo..hi` holds an element that came (by `from`) from a
/// position in the same block of width `w`.
pub open spec fn blocks_kept(from: Seq<int>, w: int, lo: int, hi: int) -> bool {
    forall|k: int| lo <= k < hi ==> #[trigger] from[k] / w == k / w
}

/// Within each block of width `w` in positions `lo..hi` of `t`, elements
/// that `cmp` ranks as equal stand in the order of their origins.
pub open spec fn ties_kept<T, C: Comparator<T>>(cmp: &C, t: Seq<T>, from: Seq<int>, w: int, lo: int, hi: int) -> bool {
    forall|a: int, b: int|
        lo <= a < b < hi && a / w == b / w && #[trigger] before(cmp, t[b], t[a]) ==> from[a] < from[b]
}

/// The origins of a sequence after a merge that moved elements by `q`.
pub open spec fn compose(from: Seq<int>, q: Seq<int>) -> Seq<int> {
    Seq::new(q.len(), |k: int| from[q[k]])
}

/// A position in block `2 c` or `2 c + 1` of width `w` is in block `c` of
/// width `2 w`.
proof fn lemma_pair_block(x: int, w: int, c: int)
    requires
        w > 0,
        x >= 0,
        c >= 0,
        x / w == 2 * c || x / w == 2 * c + 1,
    ensures
        x / (2 * w) == c,
{
    lemma_fundamental_div_mod(x, w);
    lemma_mod_pos_bound(x, w);
    let q = x / w;
    assert(c * (2 * w) <= x < c * (2 * w) + 2 * w) by (nonlinear_arith)
        requires
            x == w * q + x % w,
            0 <= x % w < w,
            q == 2 * c || q == 2 * c + 1,
    ;
    lemma_in_block(x, 2 * w, c);
}

/// Origins in a lower block of width `w` come before those in a higher one.
proof fn lemma_lower_block(x: int, y: int, w: int)
    requires
        w > 0,
        x / w < y / w,
    ensures
        x < y,
{
    if y <= x {
        lemma_div_is_ordered(y, x, w);
    }
}

/// Merging the window `l..=r` of a pass of width `w` (its block `c` of width
/// `2 w`) extends the part of the sequence whose blocks of width `2 w` keep
/// their origins and their ties to position `r + 1`.
proof fn lemma_merge_window<T, C: Comparator<T>>(
    cmp: &C,
    s0: Seq<T>,
    s: Seq<T>,
    t: Seq<T>,
    from: Seq<int>,
    q: Seq<int>,
    w: int,
    c: int,
    l: int,
    r: int,
)
    requires
        is_total(cmp),
        w > 0,
        c >= 0,
        l == c * (2 * w),
        l + w <= r + 1 <= l + 2 * w,
        r < s.len(),
        arrangement(s0, s, from),
        blocks_kept(from, 2 * w, 0, l),
        blocks_kept(from, w, l, s.len() as int),
        ties_kept(cmp, s, from, 2 * w, 0, l),
        ties_kept(cmp, s, from, w, l, s.len() as int),
        merged_from(cmp, s, t, q, l, r),
    ensures
        arrangement(s0, t, compose(from, q)),
        blocks_kept(compose(from, q), 2 * w, 0, r + 1),
        blocks_kept(compose(from, q), w, r + 1, s.len() as int),
        ties_kept(cmp, t, compose(from, q), 2 * w, 0, r + 1),
        ties_kept(cmp, t, compose(from, q), w, r + 1, s.len() as int),
{
    let n = s.len() as int;
    let f2 = compose(from, q);
    let mid = l + w - 1;
    assert(c * (2 * w) == (2 * c) * w && (2 * c + 1) * w == (2 * c) * w + w) by (nonlinear_arith);
    assert forall|x: int| l <= x <= r implies (x <= mid ==> #[trigger] (x / w) == 2 * c) && (mid < x ==> x / w == 2 * c + 1) by {
        if x <= mid {
            lemma_in_block(x, w, 2 * c);
        } else {
            lemma_in_block(x, w, 2 * c + 1);
        }
    }
    assert forall|k: int| 0 <= k < n implies 0 <= #[trigger] f2[k] < n && t[k] == s0[f2[k]] by {
        assert(t[k] == s[q[k]]);
        assert(0 <= q[k] < n);
    }
    assert forall|k1: int, k2: int| 0 <= k1 < k2 < n implies #[trigger] f2[k1] != #[trigger] f2[k2] by {
        assert(q[k1] != q[k2]);
        assert(0 <= q[k1] < n && 0 <= q[k2] < n);
        if q[k1] < q[k2] {
            assert(from[q[k1]] != from[q[k2]]);
        } else {
            assert(from[q[k2]] != from[q[k1]]);
        }
    }
    assert forall|k: int| 0 <= k < r + 1 implies #[trigger] f2[k] / (2 * w) == k / (2 * w) by {
        if k >= l {
            let x = q[k];
            assert(l <= x <= r);
            assert(from[x] / w == x / w);
            assert(0 <= from[x]);
            lemma_pair_block(from[x], w, c);
            lemma_in_block(k, 2 * w, c);
        }
    }
    assert forall|k: int| r + 1 <= k < n implies #[trigger] f2[k] / w == k / w by {
        assert(q[k] == k);
    }
    assert forall|a: int, b: int|
        0 <= a < b < r + 1 && a / (2 * w) == b / (2 * w) && #[trigger] before(cmp, t[b], t[a]) implies f2[a] < f2[b] by {
        if b < l {
            assert(q[a] == a && q[b] == b);
        } else if a >= l {
            let x = q[a];
            let y = q[b];
            assert(x < y);
            assert(t[a] == s[x] && t[b] == s[y]);
            if x / w == y / w {
                assert(before(cmp, s[y], s[x]));
            } else {
                assert(x <= mid < y);
                lemma_lower_block(from[x], from[y], w);
            }
        } else {
            lemma_before_block(a, 2 * w, c);
            lemma_in_block(b, 2 * w, c);
        }
    }
    assert forall|a: int, b: int|
        r + 1 <= a < b < n && a / w == b / w && #[trigger] before(cmp, t[b], t[a]) implies f2[a] < f2[b] by {
        assert(q[a] == a && q[b] == b);
    }
}

/// Sorts `arr` by `cmp` with bottom-up merge sort. Equal elements keep
/// their relative order.
pub fn merge_sort_by<T: Copy, C: Comparator<T>>(arr: &mut Vec<T>, cmp: &C)
    ensures
        sorts_stably(cmp, old(arr)@, final(arr)@),
{
    proof {
        cmp.lemma_total_order();
    }
    let n = arr.len();
    let mut i: usize = 1;
    let ghost mut from: Seq<int> = Seq::new(n as nat, |k: int| k);
    proof {
        assert forall|a: int, b: int| 0 <= a < b < n && a / 1 == b / 1 implies #[trigger] before(cmp, arr@[a], arr@[b]) by {
            lemma_in_block(a, 1, a);
            lemma_in_block(b, 1, b);
        }
        assert forall|a: int, b: int| 0 <= a < b < n && a / 1 == b / 1 && #[trigger] before(cmp, arr@[b], arr@[a]) implies from[a] < from[b] by {
            lemma_in_block(a, 1, a);
            lemma_in_block(b, 1, b);
        }
        assert(arrangement(old(arr)@, arr@, from));
        assert(blocks_kept(from, 1, 0, n as int));
    }
    while i < n
        invariant
            is_total(cmp),
            1 <= i,
            n == arr.len(),
            permutation_of(arr@, old(arr)@),
            runs_sorted(cmp, arr@, i as int, 0, n as int),
            arrangement(old(arr)@, arr@, from),
            blocks_kept(from, i as int, 0, n as int),
            ties_kept(cmp, arr@, from, i as int, 0, n as int),
        decreases n - i,
    {
        let ghost w = i as int;
        let mut l: usize = 0;
        let ghost mut c: int = 0;
        while n - l >= i && n - l - i >= i
            invariant
                is_total(cmp),
                1 <= i < n == arr.len(),
                w == i,
                l <= n,
                c >= 0,
                l == c * (2 * w),
                permutation_of(arr@, old(arr)@),
                runs_sorted(cmp, arr@, 2 * w, 0, l as int),
                runs_sorted(cmp, arr@, w, l as int, n as int),
                arrangement(old(arr)@, arr@, from),
                blocks_kept(from, 2 * w, 0, l as int),
                blocks_kept(from, w, l as int, n as int),
                ties_kept(cmp, arr@, from, 2 * w, 0, l as int),
                ties_kept(cmp, arr@, from, w, l as int, n as int),
            decreases n - l,
        {
            let mid = l + i - 1;
            let r = mid + i;
            proof {
                assert(c * (2 * w) == (2 * c) * w && (2 * c + 1) * w == (2 * c) * w + w) by (nonlinear_arith);
                assert forall|a: int, b: int| l <= a < b < mid + 1 implies #[trigger] before(cmp, arr@[a], arr@[b]) by {
                    lemma_in_block(a, w, 2 * c);
                    lemma_in_block(b, w, 2 * c);
                }
                assert forall|a: int, b: int| mid + 1 <= a < b < r + 1 implies #[trigger] before(cmp, arr@[a], arr@[b]) by {
                    lemma_in_block(a, w, 2 * c + 1);
                    lemma_in_block(b, w, 2 * c + 1);
                }
            }
            let ghost s = arr@;
            let q = merge(arr, cmp, l, mid, r);
            proof {
                lemma_merge_window(cmp, old(arr)@, s, arr@, from, q@, w, c, l as int, r as int);
                from = compose(from, q@);
                assert forall|a: int, b: int| 0 <= a < b < r + 1 && a / (2 * w) == b / (2 * w) implies #[trigger] before(cmp, arr@[a], arr@[b]) by {
                    if b < l {
                        assert(before(cmp, s[a], s[b]));
                    } else if a < l {
                        lemma_before_block(a, 2 * w, c);
                        lemma_in_block(b, 2 * w, c);
                    }
                }
                assert forall|a: int, b: int| r + 1 <= a < b < n && a / w == b / w implies #[trigger] before(cmp, arr@[a], arr@[b]) by {
                    assert(before(cmp, s[a], s[b]));
                }
                assert((c + 1) * (2 * w) == c * (2 * w) + 2 * w) by (nonlinear_arith);
                c = c + 1;
            }
            l = r + 1;
        }
        proof {
            assert(c * (2 * w) == (2 * c) * w && (2 * c + 1) * w == (2 * c) * w + w) by (nonlinear_arith);
        }
        if l < n && n - l >= i {
            let mid = l + i - 1;
            proof {
                assert forall|a: int, b: int| l <= a < b < mid + 1 implies #[trigger] before(cmp, arr@[a], arr@[b]) by {
                    lemma_in_block(a, w, 2 * c);
                    lemma_in_block(b, w, 2 * c);
                }
                assert forall|a: int, b: int| mid + 1 <= a < b < n implies #[trigger] before(cmp, arr@[a], arr@[b]) by {
                    lemma_in_block(a, w, 2 * c + 1);
                    lemma_in_block(b, w, 2 * c + 1);
                }
            }
            let ghost s = arr@;
            let q = merge(arr, cmp, l, mid, n - 1);
            proof {
                lemma_merge_window(cmp, old(arr)@, s, arr@, from, q@, w, c, l as int, n - 1);
                from = compose(from, q@);
                assert forall|a: int, b: int| 0 <= a < b < n && a / (2 * w) == b / (2 * w) implies #[trigger] before(cmp, arr@[a], arr@[b]) by {
                    if b < l {
                        assert(before(cmp, s[a], s[b]));
                    } else if a < l {
                        lemma_before_block(a, 2 * w, c);
                        lemma_in_block(b, 2 * w, c);
                    }
                }
            }
        } else {
            proof {
                assert forall|a: int, b: int| 0 <= a < b < n && a / (2 * w) == b / (2 * w) implies #[trigger] before(cmp, arr@[a], arr@[b]) by {
                    if a >= l {
                        lemma_in_block(a, w, 2 * c);
                        lemma_in_block(b, w, 2 * c);
                    } else if b >= l {
                        lemma_before_block(a, 2 * w, c);
                        lemma_in_block(b, 2 * w, c);
                    }
                }
                assert forall|k: int| 0 <= k < n implies #[trigger] from[k] / (2 * w) == k / (2 * w) by {
                    if k >= l {
                        lemma_in_block(k, w, 2 * c);
                        assert(from[k] / w == k / w);
                        lemma_pair_block(from[k], w, c);
                        lemma_pair_block(k, w, c);
                    }
                }
                assert forall|a: int, b: int|
                    0 <= a < b < n && a / (2 * w) == b / (2 * w) && #[trigger] before(cmp, arr@[b], arr@[a]) implies from[a] < from[b] by {
                    if a >= l {
                        lemma_in_block(a, w, 2 * c);
                        lemma_in_block(b, w, 2 * c);
                    } else if b >= l {
                        lemma_before_block(a, 2 * w, c);
                        lemma_in_block(b, 2 * w, c);
                    }
                }
            }
        }
        if i >= n - i {
            proof {
                assert forall|a: int, b: int| 0 <= a < b < n implies #[trigger] before(cmp, arr@[a], arr@[b]) by {
                    lemma_in_block(a, 2 * w, 0);
                    lemma_in_block(b, 2 * w, 0);
                }
                assert forall|k: int| 0 <= k < n implies #[trigger] from[k] / (n as int) == k / (n as int) by {
                    lemma_in_block(from[k], n as int, 0);
                    lemma_in_block(k, n as int, 0);
                }
                assert forall|a: int, b: int|
                    0 <= a < b < n && a / (n as int) == b / (n as int) && #[trigger] before(cmp, arr@[b], arr@[a]) implies from[a] < from[b] by {
                    lemma_in_block(a, 2 * w, 0);
                    lemma_in_block(b, 2 * w, 0);
                }
            }
            i = n;
        } else {
            i += i;
        }
    }
    proof {
        assert forall|a: int, b: int| 0 <= a < b < n implies #[trigger] before(cmp, arr@[a], arr@[b]) by {
            lemma_in_block(a, i as int, 0);
            lemma_in_block(b, i as int, 0);
        }
        assert forall|a: int, b: int| 0 <= a < b < n && #[trigger] before(cmp, arr@[b], arr@[a]) implies from[a] < from[b] by {
            lemma_in_block(a, i as int, 0);
            lemma_in_block(b, i as int, 0);
        }
        assert(keeps_ties(cmp, arr@, from));
    }
}

/// Sorts `arr` into ascending order with merge sort.
pub fn merge_sort(arr: &mut Vec<i32>)
    ensures
        sorts_stably(&SortOrder::Ascending, old(arr)@, final(arr)@),
{
    merge_sort_by(arr, &SortOrder::Ascending)
}

/// Sorts `arr` into descending order with merge sort.
pub fn merge_sort_desc(arr: &mut Vec<i32>)
    ensures
        sorts_stably(&SortOrder::Descending, old(arr)@, final(arr)@),
{
    merge_sort_by(arr, &SortOrder::Descending)
}

} // verus!
