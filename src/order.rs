//! The ordering that drives every sort, and the exchange primitive shared by
//! the in-place algorithms.

use vstd::prelude::*;
use core::cmp::Ordering;

verus! {

broadcast use vstd::seq_lib::to_multiset_update;

/// Relies on `slice::swap`: it exchanges the elements at positions `a` and
/// `b`, and panics unless both are in bounds.
pub assume_specification<Elem>[ <[Elem]>::swap ](s: &mut [Elem], a: usize, b: usize)
    requires
        a < old(s)@.len(),
        b < old(s)@.len(),
    ensures
        final(s)@ == old(s)@.update(a as int, old(s)@[b as int]).update(b as int, old(s)@[a as int]),
;

/// The natural order of integers, or its inverse.
#[derive(Clone, Copy, Debug, PartialEq, Eq, Structural)]
pub enum SortOrder {
    /// The natural order of integers: smallest first.
    Ascending,
    /// The inverse of the natural order: largest first.
    Descending,
}

/// A total order on elements, given by a three-way comparison. Every sort
/// is driven by one.
pub trait Comparator<T> {
    /// `a` may stand before `b`: comparing `a` with `b` does not give `Greater`.
    spec fn le(&self, a: T, b: T) -> bool;

    /// The order is total: any two elements are comparable, and it is
    /// transitive.
    proof fn lemma_total_order(&self)
        ensures
            forall|a: T, b: T| #[trigger] self.le(a, b) || self.le(b, a),
            forall|a: T, b: T, c: T|
                #[trigger] self.le(a, b) && #[trigger] self.le(b, c) ==> self.le(a, c),
    ;

    /// Compares `a` with `b`: `Less` when `a` must come first, `Greater`
    /// when `b` must, `Equal` when either may.
    fn compare(&self, a: &T, b: &T) -> (r: Ordering)
        ensures
            (r == Ordering::Less) == !self.le(*b, *a),
            (r == Ordering::Greater) == !self.le(*a, *b),
    ;
}

/// The facts of `Comparator::lemma_total_order`, for use in invariants.
pub open spec fn is_total<T, C: Comparator<T>>(cmp: &C) -> bool {
    &&& forall|a: T, b: T| #[trigger] cmp.le(a, b) || cmp.le(b, a)
    &&& forall|a: T, b: T, c: T| #[trigger] cmp.le(a, b) && #[trigger] cmp.le(b, c) ==> cmp.le(a, c)
}

/// `a` may stand before `b` in a sequence sorted by `cmp`.
pub open spec fn before<T, C: Comparator<T>>(cmp: &C, a: T, b: T) -> bool {
    cmp.le(a, b)
}

/// `a` must stand before `b` (comparing them gives `Less`).
pub open spec fn strictly_before<T, C: Comparator<T>>(cmp: &C, a: T, b: T) -> bool {
    !before(cmp, b, a)
}

/// Every element of `s` may stand before every later element.
pub open spec fn sorted_in<T, C: Comparator<T>>(cmp: &C, s: Seq<T>) -> bool {
    forall|i: int, j: int| 0 <= i < j < s.len() ==> #[trigger] before(cmp, s[i], s[j])
}

/// `t` holds the same elements as `s`, each as many times.
pub open spec fn permutation_of<T>(t: Seq<T>, s: Seq<T>) -> bool {
    t.to_multiset() == s.to_multiset()
}

/// `t` is `s` rearranged into the order of `cmp`.
pub open spec fn sorts<T, C: Comparator<T>>(cmp: &C, s: Seq<T>, t: Seq<T>) -> bool {
    permutation_of(t, s) && sorted_in(cmp, t)
}

/// Orders `(key, value)` pairs by their keys alone, in the given direction:
/// pairs with equal keys are ranked as equal, whatever their values.
#[derive(Clone, Copy, Debug, PartialEq, Eq, Structural)]
pub struct ByKey(pub SortOrder);

impl Comparator<(i32, i32)> for ByKey {
    open spec fn le(&self, a: (i32, i32), b: (i32, i32)) -> bool {
        self.0.le(a.0, b.0)
    }

    proof fn lemma_total_order(&self) {
    }

    fn compare(&self, a: &(i32, i32), b: &(i32, i32)) -> (r: Ordering) {
        self.0.compare(&a.0, &b.0)
    }
}

/// `p` maps each position of `t` to a distinct position of `s` that holds
/// the same element: where each element of `t` came from.
pub open spec fn arrangement<T>(s: Seq<T>, t: Seq<T>, p: Seq<int>) -> bool {
    &&& p.len() == t.len() == s.len()
    &&& forall|k: int| 0 <= k < t.len() ==> 0 <= #[trigger] p[k] < s.len() && t[k] == s[p[k]]
    &&& forall|k1: int, k2: int| 0 <= k1 < k2 < t.len() ==> #[trigger] p[k1] != #[trigger] p[k2]
}

/// Of two elements of `t` that `cmp` ranks as equal, the one that came
/// from the earlier position of the input (by `p`) stands first.
pub open spec fn keeps_ties<T, C: Comparator<T>>(cmp: &C, t: Seq<T>, p: Seq<int>) -> bool {
    forall|k1: int, k2: int| 0 <= k1 < k2 < t.len() && #[trigger] before(cmp, t[k2], t[k1]) ==> p[k1] < p[k2]
}

/// `t` is `s` sorted by `cmp`, with elements that `cmp` ranks as equal in
/// their order in `s`.
pub open spec fn sorts_stably<T, C: Comparator<T>>(cmp: &C, s: Seq<T>, t: Seq<T>) -> bool {
    &&& sorts(cmp, s, t)
    &&& exists|p: Seq<int>| arrangement(s, t, p) && keeps_ties(cmp, t, p)
}

/// `s` with the elements at `i` and `j` exchanged.
pub open spec fn swapped<T>(s: Seq<T>, i: int, j: int) -> Seq<T> {
    s.update(i, s[j]).update(j, s[i])
}

impl Comparator<i32> for SortOrder {
    open spec fn le(&self, a: i32, b: i32) -> bool {
        match *self {
            SortOrder::Ascending => a <= b,
            SortOrder::Descending => a >= b,
        }
    }

    proof fn lemma_total_order(&self) {
    }

    fn compare(&self, a: &i32, b: &i32) -> (r: Ordering) {
        match self {
            SortOrder::Ascending => {
                if *a < *b {
                    Ordering::Less
                } else if *a > *b {
                    Ordering::Greater
                } else {
                    Ordering::Equal
                }
            },
            SortOrder::Descending => {
                if *a > *b {
                    Ordering::Less
                } else if *a < *b {
                    Ordering::Greater
                } else {
                    Ordering::Equal
                }
            },
        }
    }
}

/// Exchanges the elements at positions `i` and `j` of `arr`.
pub fn exchange<T>(arr: &mut Vec<T>, i: usize, j: usize)
    requires
        i < old(arr).len(),
        j < old(arr).len(),
    ensures
        final(arr)@ == swapped(old(arr)@, i as int, j as int),
        permutation_of(final(arr)@, old(arr)@),
{
    arr.as_mut_slice().swap(i, j);
    proof {
        broadcast use vstd::multiset::group_multiset_axioms;
        broadcast use vstd::seq_lib::to_multiset_contains;
        let s = old(arr)@;
        assert(s.to_multiset().contains(s[i as int]));
        let s1 = s.update(i as int, s[j as int]);
        assert(s1[j as int] == s[j as int]);
        assert(s1.update(j as int, s[i as int]).to_multiset() == s1.to_multiset().insert(s[i as int]).remove(s[j as int]));
        assert(s1.to_multiset() == s.to_multiset().insert(s[j as int]).remove(s[i as int]));
        assert(s1.to_multiset().insert(s[i as int]).remove(s[j as int]) =~= s.to_multiset());
    }
}

} // verus!
