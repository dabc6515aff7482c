//! How rearranging a sequence leaves its multiset of values.

use vstd::prelude::*;

verus! {

broadcast use vstd::seq_lib::group_to_multiset_ensures;

/// Putting `v` at any position of `s` adds one `v` to its multiset.
pub(crate) proof fn lemma_insert_multiset<T>(s: Seq<T>, k: int, v: T)
    requires
        0 <= k <= s.len(),
    ensures
        s.insert(k, v).to_multiset() == s.to_multiset().insert(v),
{
    let t = s.insert(k, v);
    assert(t.remove(k) =~= s);
    vstd::seq_lib::to_multiset_remove(t, k);
    assert(t.to_multiset().count(v) > 0) by {
        assert(t[k] == v);
        assert(t.contains(v));
    }
    assert(t.to_multiset() =~= s.to_multiset().insert(v));
}

/// Writing `x` at position `i` trades one `s[i]` for one `x` in the multiset.
pub(crate) proof fn lemma_update_multiset<T>(s: Seq<T>, i: int, x: T)
    requires
        0 <= i < s.len(),
    ensures
        s.update(i, x).to_multiset() == s.to_multiset().remove(s[i]).insert(x),
{
    let t = s.update(i, x);
    assert(t.remove(i) =~= s.remove(i));
    vstd::seq_lib::to_multiset_remove(s, i);
    vstd::seq_lib::to_multiset_remove(t, i);
    assert(t.contains(x)) by {
        assert(t[i] == x);
    }
    assert(t.to_multiset() =~= t.to_multiset().remove(x).insert(x));
}

/// Exchanging two elements keeps the multiset.
pub(crate) proof fn lemma_swap_multiset<T>(s: Seq<T>, i: int, j: int)
    requires
        0 <= i < s.len(),
        0 <= j < s.len(),
    ensures
        s.update(i, s[j]).update(j, s[i]).to_multiset() == s.to_multiset(),
{
    let t = s.update(i, s[j]);
    lemma_update_multiset(s, i, s[j]);
    lemma_update_multiset(t, j, s[i]);
    assert(s.contains(s[i])) by {
        assert(s[i] == s[i]);
    }
    assert(t.contains(t[j])) by {
        assert(t[j] == t[j]);
    }
    assert(s.update(i, s[j]).update(j, s[i]).to_multiset() =~= s.to_multiset());
}

/// Two sequences that agree outside `[lo, hi)` and hold the same multiset
/// hold the same multiset inside `[lo, hi)`.
pub(crate) proof fn lemma_subrange_multiset<T>(s: Seq<T>, t: Seq<T>, lo: int, hi: int)
    requires
        0 <= lo <= hi <= s.len(),
        s.len() == t.len(),
        s.to_multiset() == t.to_multiset(),
        forall|k: int| 0 <= k < s.len() && !(lo <= k < hi) ==> s[k] == t[k],
    ensures
        s.subrange(lo, hi).to_multiset() == t.subrange(lo, hi).to_multiset(),
{
    let n = s.len() as int;
    assert(s.subrange(0, lo) =~= t.subrange(0, lo));
    assert(s.subrange(hi, n) =~= t.subrange(hi, n));
    assert(s =~= s.subrange(0, lo) + s.subrange(lo, hi) + s.subrange(hi, n));
    assert(t =~= t.subrange(0, lo) + t.subrange(lo, hi) + t.subrange(hi, n));
    vstd::seq_lib::lemma_multiset_commutative(s.subrange(0, lo), s.subrange(lo, hi));
    vstd::seq_lib::lemma_multiset_commutative(
        s.subrange(0, lo) + s.subrange(lo, hi),
        s.subrange(hi, n),
    );
    vstd::seq_lib::lemma_multiset_commutative(t.subrange(0, lo), t.subrange(lo, hi));
    vstd::seq_lib::lemma_multiset_commutative(
        t.subrange(0, lo) + t.subrange(lo, hi),
        t.subrange(hi, n),
    );
    broadcast use vstd::multiset::group_multiset_axioms;

    let a = s.subrange(0, lo);
    let b = s.subrange(hi, n);
    let x = s.subrange(lo, hi);
    let y = t.subrange(lo, hi);
    assert(s.to_multiset() == a.to_multiset().add(x.to_multiset()).add(b.to_multiset()));
    assert(t.to_multiset() == a.to_multiset().add(y.to_multiset()).add(b.to_multiset()));
    assert forall|v: T| x.to_multiset().count(v) == y.to_multiset().count(v) by {
        assert(s.to_multiset().count(v) == t.to_multiset().count(v));
        assert(a.to_multiset().add(x.to_multiset()).count(v) == a.to_multiset().count(v)
            + x.to_multiset().count(v));
        assert(a.to_multiset().add(y.to_multiset()).count(v) == a.to_multiset().count(v)
            + y.to_multiset().count(v));
        assert(s.to_multiset().count(v) == a.to_multiset().add(x.to_multiset()).count(v)
            + b.to_multiset().count(v));
        assert(t.to_multiset().count(v) == a.to_multiset().add(y.to_multiset()).count(v)
            + b.to_multiset().count(v));
    }
    assert(x.to_multiset() =~= y.to_multiset());
}

} // verus!
