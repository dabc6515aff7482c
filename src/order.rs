//! The total order that the tree, the sorts and the order statistics are
//! written against, and its facts about sorted sequences.

use vstd::prelude::*;
use vstd::relations::{antisymmetric, reflexive, sorted_by, strongly_connected, total_ordering};

verus! {

/// A total order on values that are cheap to copy: the ordering that the
/// tree, the sorting routines and the order statistics are written against.
pub trait TotalOrder: Copy + Sized {
    /// `self` is ordered no later than `other`.
    spec fn le(self, other: Self) -> bool;

    /// `le` is reflexive, antisymmetric, transitive and total.
    proof fn lemma_total_order()
        ensures
            forall|x: Self| #[trigger] x.le(x),
            forall|x: Self, y: Self| #[trigger] x.le(y) && #[trigger] y.le(x) ==> x == y,
            forall|x: Self, y: Self, z: Self|
                #![trigger x.le(y), y.le(z)]
                x.le(y) && y.le(z) ==> x.le(z),
            forall|x: Self, y: Self| #[trigger] x.le(y) || y.le(x),
    ;

    /// Executable `<=`.
    fn less_eq(&self, other: &Self) -> (r: bool)
        ensures
            r == self.le(*other),
    ;

    /// Executable `==`.
    fn equals(&self, other: &Self) -> (r: bool)
        ensures
            r == (*self == *other),
    ;
}

/// `a` comes strictly before `b`.
pub open spec fn lt<T: TotalOrder>(a: T, b: T) -> bool {
    !b.le(a)
}

/// Every element is ordered no later than each element after it.
pub open spec fn sorted<T: TotalOrder>(s: Seq<T>) -> bool {
    forall|i: int, j: int| 0 <= i < j < s.len() ==> #[trigger] s[i].le(#[trigger] s[j])
}

/// The order as a relation, in the shape that vstd's sequence library takes.
pub open spec fn leq<T: TotalOrder>() -> spec_fn(T, T) -> bool {
    |a: T, b: T| a.le(b)
}

/// `leq` is a total ordering in vstd's sense.
pub proof fn lemma_leq_total<T: TotalOrder>()
    ensures
        total_ordering(leq::<T>()),
{
    T::lemma_total_order();
    assert(reflexive(leq::<T>()));
    assert(antisymmetric(leq::<T>()));
    assert forall|x: T, y: T, z: T|
        #[trigger] leq::<T>()(x, y) && #[trigger] leq::<T>()(y, z) implies leq::<T>()(x, z) by {
        assert(x.le(y) && y.le(z));
    }
    assert(strongly_connected(leq::<T>()));
}

/// Two ascending sequences that hold the same values, count for count, are
/// one and the same sequence.
pub proof fn lemma_sorted_unique<T: TotalOrder>(a: Seq<T>, b: Seq<T>)
    requires
        sorted(a),
        sorted(b),
        a.to_multiset() == b.to_multiset(),
    ensures
        a == b,
{
    lemma_leq_total::<T>();
    assert(sorted_by(a, leq::<T>()));
    assert(sorted_by(b, leq::<T>()));
    vstd::seq_lib::lemma_sorted_unique(a, b, leq::<T>());
}

impl TotalOrder for i32 {
    open spec fn le(self, other: Self) -> bool {
        self <= other
    }

    proof fn lemma_total_order() {
    }

    fn less_eq(&self, other: &Self) -> (r: bool) {
        *self <= *other
    }

    fn equals(&self, other: &Self) -> (r: bool) {
        *self == *other
    }
}

impl TotalOrder for i64 {
    open spec fn le(self, other: Self) -> bool {
        self <= other
    }

    proof fn lemma_total_order() {
    }

    fn less_eq(&self, other: &Self) -> (r: bool) {
        *self <= *other
    }

    fn equals(&self, other: &Self) -> (r: bool) {
        *self == *other
    }
}

impl TotalOrder for u32 {
    open spec fn le(self, other: Self) -> bool {
        self <= other
    }

    proof fn lemma_total_order() {
    }

    fn less_eq(&self, other: &Self) -> (r: bool) {
        *self <= *other
    }

    fn equals(&self, other: &Self) -> (r: bool) {
        *self == *other
    }
}

impl TotalOrder for u64 {
    open spec fn le(self, other: Self) -> bool {
        self <= other
    }

    proof fn lemma_total_order() {
    }

    fn less_eq(&self, other: &Self) -> (r: bool) {
        *self <= *other
    }

    fn equals(&self, other: &Self) -> (r: bool) {
        *self == *other
    }
}

impl TotalOrder for usize {
    open spec fn le(self, other: Self) -> bool {
        self <= other
    }

    proof fn lemma_total_order() {
    }

    fn less_eq(&self, other: &Self) -> (r: bool) {
        *self <= *other
    }

    fn equals(&self, other: &Self) -> (r: bool) {
        *self == *other
    }
}

} // verus!
