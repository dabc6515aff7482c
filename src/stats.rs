//! Order statistics: least, greatest, both at once, and the element of a
//! given rank.

use vstd::prelude::*;
use crate::order::{TotalOrder, lt};
use crate::sort::{lemma_moved_from, quick_sort_partition};

verus! {

broadcast use vstd::seq_lib::group_to_multiset_ensures;

/// `v` is one of the elements of `s`, and no element of `s` comes before it.
pub open spec fn is_least<T: TotalOrder>(s: Seq<T>, v: T) -> bool {
    &&& s.contains(v)
    &&& forall|i: int| 0 <= i < s.len() ==> v.le(#[trigger] s[i])
}

/// `v` is one of the elements of `s`, and no element of `s` comes after it.
pub open spec fn is_greatest<T: TotalOrder>(s: Seq<T>, v: T) -> bool {
    &&& s.contains(v)
    &&& forall|i: int| 0 <= i < s.len() ==> (#[trigger] s[i]).le(v)
}

/// The least element, or `None` for an empty slice. Of equal least elements,
/// the first is returned.
pub fn min<T: TotalOrder>(values: &[T]) -> (r: Option<&T>)
    ensures
        r.is_none() == (values@.len() == 0),
        r.is_some() ==> is_least(values@, *r.unwrap()),
{
    if values.len() == 0 {
        return None;
    }
    let mut best: &T = &values[0];
    let ghost mut at: int = 0;
    proof {
        T::lemma_total_order();
        assert(best.le(values@[0]));
    }
    let mut i: usize = 1;
    while i < values.len()
        invariant
            1 <= i <= values@.len(),
            0 <= at < i,
            values@[at] == *best,
            forall|k: int| 0 <= k < i ==> best.le(#[trigger] values@[k]),
        decreases values@.len() - i,
    {
        proof {
            T::lemma_total_order();
        }
        if !best.less_eq(&values[i]) {
            best = &values[i];
            proof {
                at = i as int;
            }
        }
        i += 1;
    }
    assert(values@[at] == *best);
    Some(best)
}

/// The greatest element, or `None` for an empty slice. Of equal greatest
/// elements, the first is returned.
pub fn max<T: TotalOrder>(values: &[T]) -> (r: Option<&T>)
    ensures
        r.is_none() == (values@.len() == 0),
        r.is_some() ==> is_greatest(values@, *r.unwrap()),
{
    if values.len() == 0 {
        return None;
    }
    let mut best: &T = &values[0];
    let ghost mut at: int = 0;
    proof {
        T::lemma_total_order();
        assert(best.le(values@[0]));
    }
    let mut i: usize = 1;
    while i < values.len()
        invariant
            1 <= i <= values@.len(),
            0 <= at < i,
            values@[at] == *best,
            forall|k: int| 0 <= k < i ==> (#[trigger] values@[k]).le(*best),
        decreases values@.len() - i,
    {
        proof {
            T::lemma_total_order();
        }
        if !values[i].less_eq(best) {
            best = &values[i];
            proof {
                at = i as int;
            }
        }
        i += 1;
    }
    assert(values@[at] == *best);
    Some(best)
}

/// The least and the greatest element together, or `None` for an empty
/// slice. The elements are taken in pairs: the smaller of a pair is compared
/// with the least so far, the larger with the greatest so far, which makes
/// three comparisons for every two elements.
pub fn min_max<T: TotalOrder>(values: &[T]) -> (r: Option<(&T, &T)>)
    ensures
        r.is_none() == (values@.len() == 0),
        r.is_some() ==> is_least(values@, *r.unwrap().0) && is_greatest(
            values@,
            *r.unwrap().1,
        ),
{
    let n = values.len();
    if n == 0 {
        return None;
    }
    if n == 1 {
        proof {
            T::lemma_total_order();
            assert(values@[0] == values@[0]);
        }
        return Some((&values[0], &values[0]));
    }
    proof {
        T::lemma_total_order();
    }
    let mut lo: &T;
    let mut hi: &T;
    let ghost mut lo_at: int;
    let ghost mut hi_at: int;
    if values[0].less_eq(&values[1]) {
        lo = &values[0];
        hi = &values[1];
        proof {
            lo_at = 0;
            hi_at = 1;
        }
    } else {
        lo = &values[1];
        hi = &values[0];
        proof {
            lo_at = 1;
            hi_at = 0;
        }
    }
    let mut i: usize = 2;
    while i < n
        invariant
            n == values@.len(),
            2 <= i <= n,
            0 <= lo_at < i,
            0 <= hi_at < i,
            values@[lo_at] == *lo,
            values@[hi_at] == *hi,
            forall|k: int| 0 <= k < i ==> lo.le(#[trigger] values@[k]),
            forall|k: int| 0 <= k < i ==> (#[trigger] values@[k]).le(*hi),
        decreases n - i,
    {
        proof {
            T::lemma_total_order();
        }
        if i + 1 == n {
            let x = &values[i];
            if !lo.less_eq(x) {
                lo = x;
                proof {
                    lo_at = i as int;
                }
            }
            if !x.less_eq(hi) {
                hi = x;
                proof {
                    hi_at = i as int;
                }
            }
            i += 1;
        } else {
            let a = &values[i];
            let b = &values[i + 1];
            if a.less_eq(b) {
                if !lo.less_eq(a) {
                    lo = a;
                    proof {
                        lo_at = i as int;
                    }
                }
                if !b.less_eq(hi) {
                    hi = b;
                    proof {
                        hi_at = i + 1;
                    }
                }
            } else {
                if !lo.less_eq(b) {
                    lo = b;
                    proof {
                        lo_at = i + 1;
                    }
                }
                if !a.less_eq(hi) {
                    hi = a;
                    proof {
                        hi_at = i as int;
                    }
                }
            }
            i += 2;
        }
    }
    assert(values@[lo_at] == *lo);
    assert(values@[hi_at] == *hi);
    Some((lo, hi))
}

/// Rearranges `values` so that the element at `index` is the one a sorted
/// order would put there, with no later elements before it and no earlier
/// ones after it, and returns it; `None` when `index` is out of range. Ranges
/// are partitioned as quick sort does, following only the side that holds
/// `index`.
pub fn nth_element<T: TotalOrder>(index: usize, values: &mut Vec<T>) -> (r: Option<&T>)
    requires
        old(values)@.len() > 0,
    ensures
        final(values)@.to_multiset() == old(values)@.to_multiset(),
        r.is_none() == (index >= old(values)@.len()),
        r.is_none() ==> final(values)@ == old(values)@,
        r.is_some() ==> *r.unwrap() == final(values)@[index as int],
        r.is_some() ==> forall|k: int|
            0 <= k < index ==> (#[trigger] final(values)@[k]).le(final(values)@[index as int]),
        r.is_some() ==> forall|k: int|
            index < k < final(values)@.len() ==> final(values)@[index as int].le(
                #[trigger] final(values)@[k],
            ),
{
    let n = values.len();
    let mut left: usize = 0;
    let mut right: usize = n - 1;
    if index > right {
        return None;
    }
    loop
        invariant
            values@.len() == n,
            old(values)@.len() == n,
            left <= index <= right < n,
            values@.to_multiset() == old(values)@.to_multiset(),
            forall|a: int, b: int|
                0 <= a < left <= b < n ==> #[trigger] values@[a].le(#[trigger] values@[b]),
            forall|a: int, b: int|
                0 <= a <= right < b < n ==> #[trigger] values@[a].le(#[trigger] values@[b]),
        decreases right - left,
    {
        let ghost before = values@;
        let middle_index = quick_sort_partition(values, left, right);
        let ghost m = middle_index as int;
        proof {
            T::lemma_total_order();
            assert forall|a: int, b: int| 0 <= a < left <= b < n implies #[trigger] values@[a].le(
                #[trigger] values@[b],
            ) by {
                assert(values@[a] == before[a]);
                if b <= right {
                    let c = lemma_moved_from(before, values@, left as int, right as int, b);
                    assert(before[a].le(before[c]));
                }
            }
            assert forall|a: int, b: int| 0 <= a <= right < b < n implies #[trigger] values@[
                a
            ].le(#[trigger] values@[b]) by {
                assert(values@[b] == before[b]);
                if a >= left {
                    let c = lemma_moved_from(before, values@, left as int, right as int, a);
                    assert(before[c].le(before[b]));
                }
            }
        }
        if index == middle_index {
            proof {
                assert forall|k: int| 0 <= k < index implies (#[trigger] values@[k]).le(
                    values@[index as int],
                ) by {
                    if k >= left {
                        assert(values@[k].le(values@[m]));
                    }
                }
                assert forall|k: int| index < k < n implies values@[index as int].le(
                    #[trigger] values@[k],
                ) by {
                    if k <= right {
                        assert(lt(values@[m], values@[k]));
                    }
                }
            }
            return Some(&values[middle_index]);
        } else if middle_index > index {
            proof {
                assert forall|a: int, b: int| 0 <= a <= m - 1 < b < n implies #[trigger] values@[
                    a
                ].le(#[trigger] values@[b]) by {
                    if a >= left && b <= right {
                        assert(values@[a].le(values@[m]));
                        if b > m {
                            assert(lt(values@[m], values@[b]));
                        }
                    } else if a < left {
                        assert(values@[a].le(values@[b]));
                    }
                }
            }
            right = middle_index - 1;
        } else {
            proof {
                assert forall|a: int, b: int| 0 <= a < m + 1 <= b < n implies #[trigger] values@[
                    a
                ].le(#[trigger] values@[b]) by {
                    if a >= left && b <= right {
                        assert(lt(values@[m], values@[b]));
                        if a < m {
                            assert(values@[a].le(values@[m]));
                        }
                    } else if b > right {
                        assert(values@[a].le(values@[b]));
                    }
                }
            }
            left = middle_index + 1;
        }
    }
}

} // verus!
