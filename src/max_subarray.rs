//! The maximum-subarray problem: the non-empty contiguous range of a sequence
//! whose sum is largest, found by divide and conquer and by dynamic
//! programming. Sums are kept in `i128`, wide enough for any `Vec<i32>`.

use vstd::prelude::*;
use vstd::slice::slice_subrange;

verus! {

/// Sum of the elements of `t`.
pub open spec fn seq_sum(t: Seq<i32>) -> int
    decreases t.len(),
{
    if t.len() == 0 {
        0
    } else {
        seq_sum(t.drop_last()) + t.last()
    }
}

/// Sum of positions `a..b` of `s`.
pub open spec fn range_sum(s: Seq<i32>, a: int, b: int) -> int {
    seq_sum(s.subrange(a, b))
}

/// Positions `lo..hi` form a non-empty range of `s` whose sum no other
/// non-empty range exceeds.
pub open spec fn is_best_range(s: Seq<i32>, lo: int, hi: int) -> bool {
    &&& 0 <= lo < hi <= s.len()
    &&& forall|c: int, d: int| 0 <= c < d <= s.len() ==> #[trigger] range_sum(s, c, d) <= range_sum(s, lo, hi)
}

/// `t` is a maximum subarray of `s`: a best range of it, or empty when `s` is.
pub open spec fn is_max_subarray(s: Seq<i32>, t: Seq<i32>) -> bool {
    if s.len() == 0 {
        t.len() == 0
    } else {
        exists|lo: int, hi: int| is_best_range(s, lo, hi) && t == #[trigger] s.subrange(lo, hi)
    }
}

/// `t` is the maximum subarray of `s` that ends first: a best range of it
/// such that every range ending earlier has a smaller sum; empty when `s` is.
pub open spec fn is_first_max_subarray(s: Seq<i32>, t: Seq<i32>) -> bool {
    if s.len() == 0 {
        t.len() == 0
    } else {
        exists|lo: int, hi: int|
            is_best_range(s, lo, hi) && t == #[trigger] s.subrange(lo, hi) && forall|c: int, d: int|
                0 <= c < d < hi ==> #[trigger] range_sum(s, c, d) < range_sum(s, lo, hi)
    }
}

/// Extending a range by one position on the right adds that element.
proof fn lemma_range_step(s: Seq<i32>, a: int, b: int)
    requires
        0 <= a < b <= s.len(),
    ensures
        range_sum(s, a, b) == range_sum(s, a, b - 1) + s[b - 1],
{
    assert(s.subrange(a, b).drop_last() =~= s.subrange(a, b - 1));
}

/// A range's sum is the sum of its two parts.
proof fn lemma_range_split(s: Seq<i32>, a: int, b: int, c: int)
    requires
        0 <= a <= b <= c <= s.len(),
    ensures
        range_sum(s, a, c) == range_sum(s, a, b) + range_sum(s, b, c),
    decreases c - b,
{
    if c == b {
        assert(s.subrange(b, c) =~= Seq::<i32>::empty());
    } else {
        lemma_range_step(s, a, c);
        lemma_range_step(s, b, c);
        lemma_range_split(s, a, b, c - 1);
    }
}

/// A range of `m` elements sums to at most `m` times the largest `i32` in size.
proof fn lemma_range_bound(s: Seq<i32>, a: int, b: int)
    requires
        0 <= a <= b <= s.len(),
    ensures
        -2147483648 * (b - a) <= range_sum(s, a, b) <= 2147483647 * (b - a),
    decreases b - a,
{
    if b == a {
        assert(s.subrange(a, b) =~= Seq::<i32>::empty());
    } else {
        lemma_range_step(s, a, b);
        lemma_range_bound(s, a, b - 1);
    }
}

/// A sum over positions `l..=r` of a sequence indexed by `usize` fits in `i128`.
proof fn lemma_range_fits(s: Seq<i32>, a: int, b: int)
    requires
        0 <= a <= b <= s.len() <= usize::MAX,
    ensures
        i128::MIN <= range_sum(s, a, b) <= i128::MAX,
{
    lemma_range_bound(s, a, b);
    assert(-2147483648 * (b - a) >= i128::MIN && 2147483647 * (b - a) <= i128::MAX) by (nonlinear_arith)
        requires
            0 <= b - a <= usize::MAX,
    ;
}

/// A candidate range `l..=r` of the sequence and its sum.
struct Value {
    l: usize,
    r: usize,
    val: i128,
}

/// The best range crossing from `mid` to `mid + 1`, within `l..=r`: the best
/// left part ending at `mid` joined to the best right part starting at `mid + 1`.
fn find_cross_max_subarray(arr: &Vec<i32>, l: usize, mid: usize, r: usize) -> (v: Value)
    requires
        l <= mid < r < arr.len(),
    ensures
        l <= v.l <= mid < v.r <= r,
        v.val == range_sum(arr@, v.l as int, v.r + 1),
        forall|c: int, d: int| l <= c <= mid < d <= r ==> #[trigger] range_sum(arr@, c, d + 1) <= v.val,
{
    let ghost s = arr@;
    let mut sum: i128 = arr[mid] as i128;
    let mut left_big: i128 = sum;
    let mut best_l: usize = mid;
    proof {
        lemma_range_step(s, mid as int, mid + 1);
        assert(s.subrange(mid as int, mid as int) =~= Seq::<i32>::empty());
    }
    let mut i: usize = mid;
    while i > l
        invariant
            l <= i <= best_l <= mid < r < arr.len(),
            s == arr@,
            sum == range_sum(s, i as int, mid + 1),
            left_big == range_sum(s, best_l as int, mid + 1),
            forall|c: int| i <= c <= mid ==> #[trigger] range_sum(s, c, mid + 1) <= left_big,
        decreases i,
    {
        i -= 1;
        proof {
            lemma_range_split(s, i as int, i + 1, mid + 1);
            lemma_range_step(s, i as int, i + 1);
            assert(s.subrange(i as int, i as int) =~= Seq::<i32>::empty());
            lemma_range_fits(s, i as int, mid + 1);
        }
        sum += arr[i] as i128;
        if sum > left_big {
            left_big = sum;
            best_l = i;
        }
    }
    sum = arr[mid + 1] as i128;
    let mut right_big: i128 = sum;
    let mut best_r: usize = mid + 1;
    proof {
        lemma_range_step(s, mid + 1, mid + 2);
        assert(s.subrange(mid + 1, mid + 1) =~= Seq::<i32>::empty());
    }
    let mut j: usize = mid + 1;
    while j < r
        invariant
            mid < best_r <= j <= r < arr.len(),
            s == arr@,
            sum == range_sum(s, mid + 1, j + 1),
            right_big == range_sum(s, mid + 1, best_r + 1),
            forall|d: int| mid < d <= j ==> #[trigger] range_sum(s, mid + 1, d + 1) <= right_big,
        decreases r - j,
    {
        j += 1;
        proof {
            lemma_range_step(s, mid + 1, j + 1);
            lemma_range_fits(s, mid + 1, j + 1);
        }
        sum += arr[j] as i128;
        if sum > right_big {
            right_big = sum;
            best_r = j;
        }
    }
    proof {
        lemma_range_split(s, best_l as int, mid + 1, best_r + 1);
        lemma_range_fits(s, best_l as int, best_r + 1);
        assert forall|c: int, d: int| l <= c <= mid < d <= r implies #[trigger] range_sum(s, c, d + 1) <= left_big + right_big by {
            lemma_range_split(s, c, mid + 1, d + 1);
            assert(range_sum(s, c, mid + 1) <= left_big);
            assert(range_sum(s, mid + 1, d + 1) <= right_big);
        }
    }
    Value { l: best_l, r: best_r, val: left_big + right_big }
}

/// The best range within positions `l..=r`: the better of the two halves'
/// best ranges (the left one on a tie), unless the best crossing range
/// exceeds it.
fn find_max_subarray(arr: &Vec<i32>, l: usize, r: usize) -> (v: Value)
    requires
        l <= r < arr.len(),
    ensures
        l <= v.l <= v.r <= r,
        v.val == range_sum(arr@, v.l as int, v.r + 1),
        forall|c: int, d: int| l <= c <= d <= r ==> #[trigger] range_sum(arr@, c, d + 1) <= v.val,
    decreases r - l,
{
    if l == r {
        proof {
            lemma_range_step(arr@, l as int, l + 1);
            assert(arr@.subrange(l as int, l as int) =~= Seq::<i32>::empty());
        }
        return Value { l: l, r: r, val: arr[l] as i128 };
    }
    let mid = l + (r - l) / 2;
    let left = find_max_subarray(arr, l, mid);
    let right = find_max_subarray(arr, mid + 1, r);
    let cross = find_cross_max_subarray(arr, l, mid, r);
    let mut ret = if left.val > right.val {
        left
    } else {
        right
    };
    if ret.val < cross.val {
        ret = cross;
    }
    proof {
        assert forall|c: int, d: int| l <= c <= d <= r implies #[trigger] range_sum(arr@, c, d + 1) <= ret.val by {
            if d <= mid {
                assert(range_sum(arr@, c, d + 1) <= left.val);
            } else if c > mid {
                assert(range_sum(arr@, c, d + 1) <= right.val);
            } else {
                assert(range_sum(arr@, c, d + 1) <= cross.val);
            }
        }
    }
    ret
}

/// The best range `v.l..=v.r` of a non-empty `s`, as half-open positions.
proof fn lemma_best_of_value(s: Seq<i32>, v: Value)
    requires
        s.len() > 0,
        v.l <= v.r < s.len(),
        v.val == range_sum(s, v.l as int, v.r + 1),
        forall|c: int, d: int| 0 <= c <= d < s.len() ==> #[trigger] range_sum(s, c, d + 1) <= v.val,
    ensures
        is_best_range(s, v.l as int, v.r + 1),
        is_max_subarray(s, s.subrange(v.l as int, v.r + 1)),
{
    assert forall|c: int, d: int| 0 <= c < d <= s.len() implies #[trigger] range_sum(s, c, d) <= range_sum(s, v.l as int, v.r + 1) by {
        assert(range_sum(s, c, (d - 1) + 1) <= v.val);
    }
}

/// Finds a non-empty contiguous range of `arr` with the largest sum, by
/// divide and conquer; empty when `arr` is.
pub fn max_subarray_with_divide_and_conquer<'a>(arr: &'a Vec<i32>) -> (r: &'a [i32])
    ensures
        is_max_subarray(arr@, r@),
{
    if arr.len() == 0 {
        return slice_subrange(arr.as_slice(), 0, 0);
    }
    let res = find_max_subarray(arr, 0, arr.len() - 1);
    proof {
        lemma_best_of_value(arr@, res);
    }
    slice_subrange(arr.as_slice(), res.l, res.r + 1)
}

/// Finds a non-empty contiguous range of `arr` with the largest sum, by
/// dynamic programming: the best range ending at each position either
/// extends the one ending before it or starts afresh. Of equal sums the
/// first found is kept. Empty when `arr` is.
pub fn max_subarray_with_dp<'a>(arr: &'a Vec<i32>) -> (r: &'a [i32])
    ensures
        is_max_subarray(arr@, r@),
        is_first_max_subarray(arr@, r@),
{
    let n = arr.len();
    if n == 0 {
        return slice_subrange(arr.as_slice(), 0, 0);
    }
    let ghost s = arr@;
    let mut start: usize = 0;
    let mut cur: i128 = arr[0] as i128;
    let mut best = Value { l: 0, r: 0, val: cur };
    proof {
        lemma_range_step(s, 0, 1);
        assert(s.subrange(0, 0) =~= Seq::<i32>::empty());
    }
    let mut i: usize = 1;
    while i < n
        invariant
            1 <= i <= n == arr.len(),
            s == arr@,
            start < i,
            cur == range_sum(s, start as int, i as int),
            forall|c: int| 0 <= c < i ==> #[trigger] range_sum(s, c, i as int) <= cur,
            best.l <= best.r < i,
            best.val == range_sum(s, best.l as int, best.r + 1),
            forall|c: int, d: int| 0 <= c <= d < i ==> #[trigger] range_sum(s, c, d + 1) <= best.val,
            forall|c: int, d: int| 0 <= c <= d < best.r ==> #[trigger] range_sum(s, c, d + 1) < best.val,
        decreases n - i,
    {
        proof {
            lemma_range_step(s, start as int, i + 1);
            lemma_range_step(s, i as int, i + 1);
            assert(s.subrange(i as int, i as int) =~= Seq::<i32>::empty());
            lemma_range_fits(s, start as int, i + 1);
        }
        let sum = cur + arr[i] as i128;
        if sum > arr[i] as i128 {
            cur = sum;
        } else {
            start = i;
            cur = arr[i] as i128;
        }
        proof {
            assert forall|c: int| 0 <= c < i + 1 implies #[trigger] range_sum(s, c, i + 1) <= cur by {
                if c < i {
                    lemma_range_step(s, c, i + 1);
                }
            }
        }
        if cur > best.val {
            best = Value { l: start, r: i, val: cur };
        }
        proof {
            assert forall|c: int, d: int| 0 <= c <= d < i + 1 implies #[trigger] range_sum(s, c, d + 1) <= best.val by {
                if d == i {
                    assert(range_sum(s, c, i + 1) <= cur);
                }
            }
        }
        i += 1;
    }
    proof {
        lemma_best_of_value(s, best);
        assert forall|c: int, d: int| 0 <= c < d < best.r + 1 implies #[trigger] range_sum(s, c, d) < range_sum(s, best.l as int, best.r + 1) by {
            assert(range_sum(s, c, (d - 1) + 1) < best.val);
        }
        assert(s.subrange(best.l as int, best.r + 1) == s.subrange(best.l as int, best.r + 1));
    }
    slice_subrange(arr.as_slice(), best.l, best.r + 1)
}

} // verus!
