//! In-place sorting: bubble sort, insertion sort and quick sort.

use vstd::prelude::*;
use crate::permutation::{lemma_insert_multiset, lemma_subrange_multiset, lemma_swap_multiset};
use crate::order::{TotalOrder, lt, sorted};

verus! {

broadcast use vstd::seq_lib::group_to_multiset_ensures;

/// Exchanges the elements at `i` and `j`.
pub(crate) fn swap<T: TotalOrder>(list: &mut Vec<T>, i: usize, j: usize)
    requires
        i < old(list).len(),
        j < old(list).len(),
    ensures
        final(list)@ == old(list)@.update(i as int, old(list)@[j as int]).update(
            j as int,
            old(list)@[i as int],
        ),
        final(list)@.to_multiset() == old(list)@.to_multiset(),
{
    proof {
        lemma_swap_multiset(list@, i as int, j as int);
    }
    let a = list[i];
    let b = list[j];
    list[i] = b;
    list[j] = a;
}

/// Sorts `list` in ascending order by repeated exchanges of neighbours:
/// each pass carries the greatest remaining element to the end of the
/// unsorted prefix.
pub fn bubble_sort<T: TotalOrder>(list: &mut Vec<T>)
    ensures
        sorted(final(list)@),
        final(list)@.to_multiset() == old(list)@.to_multiset(),
{
    proof {
        T::lemma_total_order();
    }
    let n = list.len();
    if n < 2 {
        return;
    }
    let mut i: usize = n - 1;
    while i >= 1
        invariant
            list@.len() == n,
            1 <= n,
            i < n,
            list@.to_multiset() == old(list)@.to_multiset(),
            forall|a: int, b: int| i < a < b < n ==> #[trigger] list@[a].le(#[trigger] list@[b]),
            forall|a: int, b: int|
                0 <= a <= i < b < n ==> #[trigger] list@[a].le(#[trigger] list@[b]),
        decreases i,
    {
        let mut j: usize = 0;
        proof {
            T::lemma_total_order();
        }
        while j < i
            invariant
                list@.len() == n,
                i < n,
                1 <= i,
                j <= i,
                list@.to_multiset() == old(list)@.to_multiset(),
                forall|a: int, b: int|
                    i < a < b < n ==> #[trigger] list@[a].le(#[trigger] list@[b]),
                forall|a: int, b: int|
                    0 <= a <= i < b < n ==> #[trigger] list@[a].le(#[trigger] list@[b]),
                forall|a: int| 0 <= a <= j ==> #[trigger] list@[a].le(list@[j as int]),
            decreases i - j,
        {
            proof {
                T::lemma_total_order();
            }
            let ghost before = list@;
            if !list[j].less_eq(&list[j + 1]) {
                swap(list, j, j + 1);
            }
            assert forall|a: int| 0 <= a <= j + 1 implies #[trigger] list@[a].le(
                list@[j + 1],
            ) by {
                if a < j {
                    assert(before[a].le(before[j as int]));
                }
            }
            j += 1;
        }
        i -= 1;
    }
}

/// Sorts `list` in ascending order by insertion: each element in turn is
/// moved in front of the first element of the sorted prefix that is greater
/// than it, the elements in between shifting up by one.
pub fn insert_sort<T: TotalOrder>(list: &mut Vec<T>)
    ensures
        sorted(final(list)@),
        final(list)@.to_multiset() == old(list)@.to_multiset(),
{
    let n = list.len();
    if n < 2 {
        return;
    }
    let mut i: usize = 1;
    while i < n
        invariant
            list@.len() == n,
            1 <= i <= n,
            list@.to_multiset() == old(list)@.to_multiset(),
            forall|a: int, b: int| 0 <= a < b < i ==> #[trigger] list@[a].le(#[trigger] list@[b]),
        decreases n - i,
    {
        proof {
            T::lemma_total_order();
        }
        let mut j: usize = 0;
        while j < i && list[j].less_eq(&list[i])
            invariant
                list@.len() == n,
                1 <= i < n,
                j <= i,
                forall|a: int| 0 <= a < j ==> #[trigger] list@[a].le(list@[i as int]),
            decreases i - j,
        {
            j += 1;
        }
        let ghost orig = list@;
        if j < i {
            let temp = list[i];
            let mut k: usize = i;
            while k > j
                invariant
                    list@.len() == n,
                    j <= k <= i < n,
                    forall|m: int|
                        0 <= m < n ==> #[trigger] list@[m] == (if m <= k || m > i {
                            orig[m]
                        } else {
                            orig[m - 1]
                        }),
                decreases k,
            {
                list[k] = list[k - 1];
                k -= 1;
            }
            list[j] = temp;
            proof {
                assert(list@ =~= orig.remove(i as int).insert(j as int, temp));
                vstd::seq_lib::to_multiset_remove(orig, i as int);
                lemma_insert_multiset(orig.remove(i as int), j as int, temp);
                assert(orig.to_multiset().count(temp) > 0) by {
                    assert(orig[i as int] == temp);
                    assert(orig.contains(temp));
                }
                assert(list@.to_multiset() =~= orig.to_multiset());
                assert(lt(temp, orig[j as int]));
                assert forall|a: int, b: int| 0 <= a < b < i + 1 implies #[trigger] list@[a].le(
                    #[trigger] list@[b],
                ) by {
                    if b < j {
                        assert(list@[a] == orig[a] && list@[b] == orig[b]);
                    } else if b == j {
                        assert(list@[a] == orig[a]);
                    } else if a < j {
                        assert(list@[a] == orig[a] && list@[b] == orig[b - 1]);
                        assert(orig[a].le(orig[b - 1]) || b - 1 == a);
                    } else if a == j {
                        assert(list@[b] == orig[b - 1]);
                        assert(orig[j as int].le(orig[b - 1]) || b - 1 == j);
                    } else {
                        assert(list@[a] == orig[a - 1] && list@[b] == orig[b - 1]);
                    }
                }
            }
        }
        i += 1;
    }
}

/// Some range still on the stack covers both positions `a` and `b`.
spec fn covered(stack: Seq<(usize, usize)>, a: int, b: int) -> bool {
    exists|p: int| 0 <= p < stack.len() && #[trigger] stack[p].0 <= a && b <= stack[p].1
}

/// The number of positions in the ranges still on the stack.
spec fn pending_len(stack: Seq<(usize, usize)>) -> nat
    decreases stack.len(),
{
    if stack.len() == 0 {
        0
    } else {
        (stack.last().1 + 1 - stack.last().0) as nat + pending_len(stack.drop_last())
    }
}

/// A value found inside `[l, r]` after the range was rearranged stood
/// somewhere inside `[l, r]` before.
pub(crate) proof fn lemma_moved_from<T>(before: Seq<T>, after: Seq<T>, l: int, r: int, a: int) -> (c: int)
    requires
        0 <= l <= a <= r < before.len(),
        before.len() == after.len(),
        after.subrange(l, r + 1).to_multiset() == before.subrange(l, r + 1).to_multiset(),
    ensures
        l <= c <= r,
        before[c] == after[a],
{
    let x = after.subrange(l, r + 1);
    let y = before.subrange(l, r + 1);
    assert(x[a - l] == after[a]);
    assert(x.contains(after[a]));
    assert(y.to_multiset().count(after[a]) > 0);
    assert(y.contains(after[a]));
    let k = choose|k: int| 0 <= k < y.len() && y[k] == after[a];
    l + k
}

/// Sorts `list` in ascending order: partitions a range around its middle
/// value, then keeps the two sides still to be sorted on an explicit stack
/// instead of recursing.
pub fn quick_sort<T: TotalOrder>(list: &mut Vec<T>)
    ensures
        sorted(final(list)@),
        final(list)@.to_multiset() == old(list)@.to_multiset(),
{
    if list.len() == 0 {
        return;
    }
    let n = list.len();
    let mut stack: Vec<(usize, usize)> = Vec::new();
    stack.push((0, n - 1));
    proof {
        assert(stack@.drop_last() =~= Seq::<(usize, usize)>::empty());
        assert forall|a: int, b: int| 0 <= a < b < n implies covered(stack@, a, b) || list@[
            a
        ].le(list@[b]) by {
            assert(stack@[0].0 <= a && b <= stack@[0].1);
        }
    }
    loop
        invariant
            list@.len() == n,
            n > 0,
            list@.to_multiset() == old(list)@.to_multiset(),
            forall|p: int| 0 <= p < stack@.len() ==> #[trigger] stack@[p].0 <= stack@[p].1 < n,
            forall|p: int, q: int|
                0 <= p < stack@.len() && 0 <= q < stack@.len() && p != q ==> #[trigger] stack@[p].1
                    < #[trigger] stack@[q].0 || stack@[q].1 < stack@[p].0,
            forall|a: int, b: int|
                0 <= a < b < n ==> covered(stack@, a, b) || #[trigger] list@[a].le(
                    #[trigger] list@[b],
                ),
        decreases pending_len(stack@),
    {
        let ghost old_stack = stack@;
        let ghost old_list = list@;
        match stack.pop() {
            None => {
                proof {
                    assert forall|a: int, b: int| 0 <= a < b < n implies #[trigger] list@[a].le(
                        #[trigger] list@[b],
                    ) by {
                        assert(!covered(stack@, a, b));
                    }
                }
                return;
            },
            Some((left, right)) => {
                let ghost rest = stack@;
                let ghost l = left as int;
                let ghost r = right as int;
                assert(rest == old_stack.drop_last());
                assert(old_stack.last() == (left, right));
                assert(pending_len(old_stack) == r - l + 1 + pending_len(rest));
                assert(l <= r) by {
                    assert(old_stack[old_stack.len() - 1].0 <= old_stack[old_stack.len() - 1].1);
                }
                if left < right {
                    let middle = quick_sort_partition(list, left, right);
                    let ghost m = middle as int;
                    if middle > left + 1 {
                        let ghost st = stack@;
                        stack.push((left, middle - 1));
                        assert(stack@.drop_last() == st);
                        assert(pending_len(stack@) == m - l + pending_len(st));
                    }
                    if middle + 1 < right {
                        let ghost st = stack@;
                        stack.push((middle + 1, right));
                        assert(stack@.drop_last() == st);
                        assert(pending_len(stack@) == r - m + pending_len(st));
                    }
                    proof {
                        T::lemma_total_order();
                        assert(forall|p: int| 0 <= p < rest.len() ==> stack@[p] == rest[p]);
                        assert(forall|p: int|
                            0 <= p < rest.len() ==> #[trigger] rest[p] == old_stack[p]);
                        assert forall|a: int, b: int| 0 <= a < b < n implies covered(stack@, a, b)
                            || #[trigger] list@[a].le(#[trigger] list@[b]) by {
                            let la = l <= a <= r;
                            let lb = l <= b <= r;
                            if la && lb {
                                if b < m {
                                    if m > l + 1 {
                                        let p = rest.len() as int;
                                        assert(stack@[p] == (left, (middle - 1) as usize));
                                        assert(stack@[p].0 <= a && b <= stack@[p].1);
                                    }
                                } else if a > m {
                                    if m + 1 < r {
                                        let p = stack@.len() - 1;
                                        assert(stack@[p] == ((middle + 1) as usize, right));
                                        assert(stack@[p].0 <= a && b <= stack@[p].1);
                                    }
                                } else if a == m {
                                    assert(lt(list@[m], list@[b]));
                                } else if b == m {
                                    assert(list@[a].le(list@[m]));
                                } else {
                                    assert(list@[a].le(list@[m]));
                                    assert(lt(list@[m], list@[b]));
                                }
                            } else if la {
                                let c = lemma_moved_from(old_list, list@, l, r, a);
                                assert(list@[b] == old_list[b]);
                                if covered(old_stack, c, b) {
                                    let p = choose|p: int|
                                        0 <= p < old_stack.len() && #[trigger] old_stack[p].0 <= c
                                            && b <= old_stack[p].1;
                                    if p != old_stack.len() - 1 {
                                        assert(old_stack[p].1 < old_stack[old_stack.len()
                                            - 1].0 || old_stack[old_stack.len() - 1].1
                                            < old_stack[p].0);
                                    }
                                }
                                assert(old_list[c].le(old_list[b]));
                            } else if lb {
                                let c = lemma_moved_from(old_list, list@, l, r, b);
                                assert(list@[a] == old_list[a]);
                                if covered(old_stack, a, c) {
                                    let p = choose|p: int|
                                        0 <= p < old_stack.len() && #[trigger] old_stack[p].0 <= a
                                            && c <= old_stack[p].1;
                                    if p != old_stack.len() - 1 {
                                        assert(old_stack[p].1 < old_stack[old_stack.len()
                                            - 1].0 || old_stack[old_stack.len() - 1].1
                                            < old_stack[p].0);
                                    }
                                }
                                assert(old_list[a].le(old_list[c]));
                            } else {
                                assert(list@[a] == old_list[a] && list@[b] == old_list[b]);
                                if covered(old_stack, a, b) {
                                    let p = choose|p: int|
                                        0 <= p < old_stack.len() && #[trigger] old_stack[p].0 <= a
                                            && b <= old_stack[p].1;
                                    assert(p != old_stack.len() - 1);
                                    assert(stack@[p] == old_stack[p]);
                                    assert(covered(stack@, a, b));
                                } else {
                                    assert(old_list[a].le(old_list[b]));
                                }
                            }
                        }
                    }
                } else {
                    proof {
                        assert(forall|p: int|
                            0 <= p < rest.len() ==> #[trigger] rest[p] == old_stack[p]);
                        assert forall|a: int, b: int| 0 <= a < b < n implies covered(stack@, a, b)
                            || #[trigger] list@[a].le(#[trigger] list@[b]) by {
                            if covered(old_stack, a, b) {
                                let p = choose|p: int|
                                    0 <= p < old_stack.len() && #[trigger] old_stack[p].0 <= a && b
                                        <= old_stack[p].1;
                                assert(p != old_stack.len() - 1);
                                assert(stack@[p] == old_stack[p]);
                            }
                        }
                    }
                }
            },
        }
    }
}

/// Rearranges `list[left..=right]` around the value that stood at its middle
/// position, and returns where that value ends up: no later values before
/// it, strictly later values after it. Nothing outside the range moves.
pub(crate) fn quick_sort_partition<T: TotalOrder>(
    list: &mut Vec<T>,
    left: usize,
    right: usize,
) -> (m: usize)
    requires
        left <= right < old(list).len(),
    ensures
        left <= m <= right,
        final(list)@.len() == old(list)@.len(),
        final(list)@.to_multiset() == old(list)@.to_multiset(),
        forall|k: int|
            0 <= k < old(list)@.len() && !(left <= k <= right) ==> final(list)@[k] == old(
                list,
            )@[k],
        final(list)@.subrange(left as int, right + 1).to_multiset() == old(list)@.subrange(
            left as int,
            right + 1,
        ).to_multiset(),
        forall|k: int| left <= k < m ==> #[trigger] final(list)@[k].le(final(list)@[m as int]),
        forall|k: int| m < k <= right ==> lt(final(list)@[m as int], #[trigger] final(list)@[k]),
{
    let ghost n = list@.len();
    let middle_index = left + (right - left + 1) / 2;
    let middle = list[middle_index];
    swap(list, left, middle_index);
    let mut i: usize = left + 1;
    let mut j: usize = right;
    while i <= j
        invariant
            list@.len() == n,
            left <= right < n,
            old(list)@.len() == n,
            left < i <= j + 1,
            left <= j <= right,
            list@[left as int] == middle,
            list@.to_multiset() == old(list)@.to_multiset(),
            forall|k: int|
                0 <= k < n && !(left <= k <= right) ==> list@[k] == old(list)@[k],
            forall|k: int| left < k < i && k <= j ==> #[trigger] list@[k].le(middle),
            forall|k: int| j < k <= right ==> lt(middle, #[trigger] list@[k]),
        decreases j + 1 - i,
    {
        proof {
            T::lemma_total_order();
        }
        while i < j && list[i].less_eq(&middle)
            invariant
                list@.len() == n,
                left < i <= j,
                j <= right < n,
                forall|k: int| left < k < i ==> #[trigger] list@[k].le(middle),
            decreases j - i,
        {
            i += 1;
        }
        while !list[j].less_eq(&middle)
            invariant
                list@.len() == n,
                left <= j <= right < n,
                left < i,
                i <= j + 1,
                list@[left as int] == middle,
                forall|k: int| left < k < i ==> #[trigger] list@[k].le(middle),
                forall|k: int| j < k <= right ==> lt(middle, #[trigger] list@[k]),
            decreases j,
        {
            proof {
                T::lemma_total_order();
                if j + 1 == i {
                    assert(list@[j as int].le(middle));
                }
            }
            j -= 1;
        }
        if i < j {
            swap(list, i, j);
            i += 1;
        } else {
            assert(j < list.len());
            i = j + 1;
        }
    }
    swap(list, j, left);
    proof {
        T::lemma_total_order();
        lemma_subrange_multiset(list@, old(list)@, left as int, right + 1);
    }
    j
}

} // verus!
