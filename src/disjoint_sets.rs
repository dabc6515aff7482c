//! A disjoint-set forest kept in an arena: elements are numbered, and each
//! points at its parent by number.

use vstd::prelude::*;

verus! {

/// One element of a disjoint-set forest: its value, and the position of its
/// parent in the forest, or `None` for the root of a set.
pub struct SetElement<T> {
    pub value: T,
    parent: Option<usize>,
}

impl<T> SetElement<T> {
    /// The element is the root of its set.
    pub closed spec fn is_root(&self) -> bool {
        self.parent.is_none()
    }

    /// The value the element holds.
    pub closed spec fn held(&self) -> T {
        self.value
    }
}

/// Each element's parent lies in the forest, on a lower level.
spec fn parents_ok<T>(sets: Seq<SetElement<T>>, level: Seq<nat>) -> bool {
    &&& sets.len() <= usize::MAX
    &&& level.len() == sets.len()
    &&& forall|i: int|
        0 <= i < sets.len() ==> match #[trigger] sets[i].parent {
            Some(p) => p < sets.len() && level[p as int] < level[i],
            None => true,
        }
}

/// The root of the set of element `i`: its parents followed up to an element
/// that has none.
spec fn root_in<T>(sets: Seq<SetElement<T>>, level: Seq<nat>, i: int) -> int
    decreases level[i],
{
    if 0 <= i < sets.len() && 0 <= i < level.len() {
        match sets[i].parent {
            Some(p) => if 0 <= p < level.len() && level[p as int] < level[i] {
                root_in(sets, level, p as int)
            } else {
                i
            },
            None => i,
        }
    } else {
        i
    }
}

/// The root of an element is a root, on a level no higher than the
/// element's.
proof fn lemma_root_in<T>(sets: Seq<SetElement<T>>, level: Seq<nat>, i: int)
    requires
        parents_ok(sets, level),
        0 <= i < sets.len(),
    ensures
        0 <= root_in(sets, level, i) < sets.len(),
        sets[root_in(sets, level, i)].parent.is_none(),
        level[root_in(sets, level, i)] <= level[i],
        sets[i].parent.is_some() ==> level[root_in(sets, level, i)] < level[i],
    decreases level[i],
{
    if let Some(p) = sets[i].parent {
        assert(sets[i].parent == Some(p));
        lemma_root_in(sets, level, p as int);
    }
}

/// Pointing an element straight at its root keeps the forest well formed
/// and every element's root as it was.
proof fn lemma_root_compress<T>(
    sets: Seq<SetElement<T>>,
    level: Seq<nat>,
    x: int,
    compressed: Seq<SetElement<T>>,
    i: int,
)
    requires
        parents_ok(sets, level),
        0 <= x < sets.len(),
        sets[x].parent.is_some(),
        compressed == sets.update(
            x,
            SetElement { value: sets[x].value, parent: Some(root_in(sets, level, x) as usize) },
        ),
        0 <= i < sets.len(),
    ensures
        parents_ok(compressed, level),
        root_in(compressed, level, i) == root_in(sets, level, i),
    decreases level[i],
{
    lemma_root_in(sets, level, x);
    let r = root_in(sets, level, x);
    assert(r != x);
    assert((r as usize) as int == r);
    assert forall|k: int| 0 <= k < compressed.len() implies match #[trigger] compressed[k].parent {
        Some(p) => p < compressed.len() && level[p as int] < level[k],
        None => true,
    } by {
        if k != x {
            assert(compressed[k] == sets[k]);
            assert(sets[k].parent == compressed[k].parent);
        } else {
            assert(compressed[k].parent == Some(r as usize));
        }
    }
    if i == x {
        assert(compressed[r] == sets[r]);
        assert(compressed[x].parent == Some(r as usize));
        assert(compressed[r].parent.is_none());
        assert(root_in(compressed, level, r) == r);
    } else if let Some(p) = sets[i].parent {
        assert(sets[i].parent == Some(p));
        assert(compressed[i] == sets[i]);
        lemma_root_compress(sets, level, x, compressed, p as int);
    } else {
        assert(compressed[i] == sets[i]);
    }
}

/// An element's root is its parent's root.
proof fn lemma_root_parent<T>(sets: Seq<SetElement<T>>, level: Seq<nat>, i: int, p: usize)
    requires
        parents_ok(sets, level),
        0 <= i < sets.len(),
        sets[i].parent == Some(p),
    ensures
        root_in(sets, level, i) == root_in(sets, level, p as int),
{
    assert(match sets[i].parent {
        Some(q) => q < sets.len() && level[q as int] < level[i],
        None => true,
    });
}

/// The levels after the set of root `r2` is hung below root `r1`: that set
/// moves up above `r1`.
spec fn joined_levels<T>(sets: Seq<SetElement<T>>, level: Seq<nat>, r1: int, r2: int) -> Seq<nat> {
    Seq::new(
        level.len(),
        |k: int|
            if root_in(sets, level, k) == r2 {
                level[k] + level[r1] + 1
            } else {
                level[k]
            },
    )
}

/// Hanging root `r2` below root `r1` keeps the forest well formed, and moves
/// exactly the elements of `r2`'s set into `r1`'s.
proof fn lemma_root_join<T>(
    sets: Seq<SetElement<T>>,
    level: Seq<nat>,
    r1: int,
    r2: int,
    joined: Seq<SetElement<T>>,
    i: int,
)
    requires
        parents_ok(sets, level),
        0 <= r1 < sets.len(),
        0 <= r2 < sets.len(),
        r1 != r2,
        sets[r1].parent.is_none(),
        sets[r2].parent.is_none(),
        joined == sets.update(r2, SetElement { value: sets[r2].value, parent: Some(r1 as usize) }),
        0 <= i < sets.len(),
    ensures
        parents_ok(joined, joined_levels(sets, level, r1, r2)),
        root_in(joined, joined_levels(sets, level, r1, r2), i) == (if root_in(sets, level, i)
            == r2 {
            r1
        } else {
            root_in(sets, level, i)
        }),
    decreases level[i],
{
    let nl = joined_levels(sets, level, r1, r2);
    assert(root_in(sets, level, r1) == r1);
    assert(root_in(sets, level, r2) == r2);
    assert((r1 as usize) as int == r1);
    assert forall|k: int| 0 <= k < joined.len() implies match #[trigger] joined[k].parent {
        Some(p) => p < joined.len() && nl[p as int] < nl[k],
        None => true,
    } by {
        if k != r2 {
            assert(joined[k] == sets[k]);
            assert(sets[k].parent == joined[k].parent);
            if let Some(p) = sets[k].parent {
                lemma_root_parent(sets, level, k, p);
            }
        } else {
            assert(joined[k].parent == Some(r1 as usize));
        }
    }
    if i == r2 {
        assert(joined[r1] == sets[r1]);
        assert(joined[r2].parent == Some(r1 as usize));
        assert(root_in(joined, nl, r1) == r1);
    } else if let Some(p) = sets[i].parent {
        assert(sets[i].parent == Some(p));
        assert(joined[i] == sets[i]);
        lemma_root_parent(sets, level, i, p);
        lemma_root_join(sets, level, r1, r2, joined, p as int);
    } else {
        assert(joined[i] == sets[i]);
    }
}

/// A forest of disjoint sets, its elements numbered from 0 in the order of
/// their creation.
pub struct DisjointSet<T> {
    sets: Vec<SetElement<T>>,
    level: Ghost<Seq<nat>>,
}

impl<T> View for DisjointSet<T> {
    type V = Seq<SetElement<T>>;

    /// The elements, in creation order.
    closed spec fn view(&self) -> Seq<SetElement<T>> {
        self.sets@
    }
}

impl<T> DisjointSet<T> {
    /// Following parents from any element leads to a root.
    pub closed spec fn well_formed(&self) -> bool {
        parents_ok(self.sets@, self.level@)
    }

    /// The position of the root of the set that element `i` belongs to.
    pub closed spec fn root_of(&self, i: int) -> int {
        root_in(self.sets@, self.level@, i)
    }

    /// A forest with no elements.
    pub fn new() -> (r: DisjointSet<T>)
        ensures
            r.well_formed(),
            r@ == Seq::<SetElement<T>>::empty(),
    {
        DisjointSet { sets: Vec::new(), level: Ghost(Seq::empty()) }
    }

    /// Adds an element holding `value` as a set of its own, and returns its
    /// number.
    pub fn create_set(&mut self, value: T) -> (r: usize)
        requires
            old(self).well_formed(),
        ensures
            final(self).well_formed(),
            r == old(self)@.len(),
            final(self)@.len() == old(self)@.len() + 1,
            final(self)@[r as int].held() == value,
            final(self).root_of(r as int) == r,
            forall|i: int|
                0 <= i < old(self)@.len() ==> final(self)@[i] == old(self)@[i]
                    && #[trigger] final(self).root_of(i) == old(self).root_of(i),
    {
        let set = SetElement { value: value, parent: None };
        let ghost old_sets = self.sets@;
        let ghost old_level = self.level@;
        self.sets.push(set);
        self.level = Ghost(self.level@.push(0));
        let index = self.sets.len() - 1;
        proof {
            assert forall|i: int| 0 <= i < old_sets.len() implies #[trigger] root_in(
                self.sets@,
                self.level@,
                i,
            ) == root_in(old_sets, old_level, i) by {
                lemma_root_extend(old_sets, old_level, self.sets@, self.level@, i);
            }
            assert forall|k: int| 0 <= k < self.sets@.len() implies match #[trigger] self.sets@[
                k
            ].parent {
                Some(p) => p < self.sets@.len() && self.level@[p as int] < self.level@[k],
                None => true,
            } by {
                if k < old_sets.len() {
                    assert(self.sets@[k] == old_sets[k]);
                    assert(old_sets[k].parent == self.sets@[k].parent);
                }
            }
        }
        index
    }

    /// Element number `element`.
    pub fn element(&self, element: usize) -> (r: &SetElement<T>)
        requires
            element < self@.len(),
        ensures
            *r == self@[element as int],
    {
        &self.sets[element]
    }

    /// The root of the set that `element` belongs to. On the way, `element`
    /// is pointed straight at that root, so that later searches are shorter.
    pub fn find_root(&mut self, element: usize) -> (r: usize)
        requires
            old(self).well_formed(),
            element < old(self)@.len(),
        ensures
            final(self).well_formed(),
            r == old(self).root_of(element as int),
            final(self)@.len() == old(self)@.len(),
            forall|i: int|
                0 <= i < old(self)@.len() ==> (#[trigger] final(self)@[i]).held() == old(
                    self,
                )@[i].held() && final(self).root_of(i) == old(self).root_of(i),
    {
        let mut root = element;
        while self.sets[root].parent.is_some()
            invariant
                self.well_formed(),
                root < self.sets@.len(),
                root_in(self.sets@, self.level@, root as int) == root_in(
                    self.sets@,
                    self.level@,
                    element as int,
                ),
            decreases self.level@[root as int],
        {
            let parent = self.sets[root].parent.unwrap();
            proof {
                lemma_root_parent(self.sets@, self.level@, root as int, parent);
            }
            root = parent;
        }
        if root != element {
            let ghost before = self.sets@;
            proof {
                lemma_root_in(before, self.level@, element as int);
            }
            self.sets[element].parent = Some(root);
            proof {
                assert(self.sets@ =~= before.update(
                    element as int,
                    SetElement {
                        value: before[element as int].value,
                        parent: Some(root_in(before, self.level@, element as int) as usize),
                    },
                ));
                assert forall|i: int| 0 <= i < before.len() implies #[trigger] root_in(
                    self.sets@,
                    self.level@,
                    i,
                ) == root_in(before, self.level@, i) by {
                    lemma_root_compress(before, self.level@, element as int, self.sets@, i);
                }
                lemma_root_compress(before, self.level@, element as int, self.sets@, 0);
            }
        }
        root
    }

    /// Joins the sets of `first` and `second`: the root of `second`'s set is
    /// hung below the root of `first`'s, which is returned.
    pub fn union(&mut self, first: usize, second: usize) -> (r: usize)
        requires
            old(self).well_formed(),
            first < old(self)@.len(),
            second < old(self)@.len(),
        ensures
            final(self).well_formed(),
            r == old(self).root_of(first as int),
            final(self)@.len() == old(self)@.len(),
            forall|i: int|
                0 <= i < old(self)@.len() ==> (#[trigger] final(self)@[i]).held() == old(
                    self,
                )@[i].held() && final(self).root_of(i) == (if old(self).root_of(i) == old(
                    self,
                ).root_of(second as int) {
                    old(self).root_of(first as int)
                } else {
                    old(self).root_of(i)
                }),
    {
        let first_root = self.find_root(first);
        let second_root = self.find_root(second);
        if first_root != second_root {
            let ghost before = self.sets@;
            let ghost level = self.level@;
            proof {
                lemma_root_in(before, level, first as int);
                lemma_root_in(before, level, second as int);
            }
            self.sets[second_root].parent = Some(first_root);
            proof {
                assert(self.sets@ =~= before.update(
                    second_root as int,
                    SetElement {
                        value: before[second_root as int].value,
                        parent: Some(first_root),
                    },
                ));
                lemma_root_join(
                    before,
                    level,
                    first_root as int,
                    second_root as int,
                    self.sets@,
                    0,
                );
                assert forall|i: int| 0 <= i < before.len() implies #[trigger] root_in(
                    self.sets@,
                    joined_levels(before, level, first_root as int, second_root as int),
                    i,
                ) == (if root_in(before, level, i) == second_root {
                    first_root as int
                } else {
                    root_in(before, level, i)
                }) by {
                    lemma_root_join(
                        before,
                        level,
                        first_root as int,
                        second_root as int,
                        self.sets@,
                        i,
                    );
                }
            }
            self.level = Ghost(joined_levels(before, level, first_root as int, second_root as int));
        }
        first_root
    }
}

/// Adding elements after the others leaves the roots of the others as they
/// were.
proof fn lemma_root_extend<T>(
    sets: Seq<SetElement<T>>,
    level: Seq<nat>,
    more: Seq<SetElement<T>>,
    more_level: Seq<nat>,
    i: int,
)
    requires
        parents_ok(sets, level),
        sets.len() <= more.len(),
        more_level.len() == more.len(),
        forall|k: int|
            #![trigger sets[k]]
            0 <= k < sets.len() ==> more[k] == sets[k] && more_level[k] == level[k],
        0 <= i < sets.len(),
    ensures
        root_in(more, more_level, i) == root_in(sets, level, i),
    decreases level[i],
{
    if let Some(p) = sets[i].parent {
        assert(sets[i].parent == Some(p));
        assert(more[i] == sets[i]);
        lemma_root_extend(sets, level, more, more_level, p as int);
    }
}

} // verus!
