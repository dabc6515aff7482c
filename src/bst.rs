//! A binary search tree that keeps duplicates, with in-order traversal by an
//! explicit stack and a teardown that never recurses.

use vstd::prelude::*;
use crate::order::{TotalOrder, leq, lemma_leq_total, lemma_sorted_unique, lt, sorted};
use crate::permutation::lemma_insert_multiset;

verus! {

broadcast use vstd::seq_lib::group_to_multiset_ensures;

type NodePointer<T> = Option<Box<Node<T>>>;

/// One node of a tree: a value and the two subtrees that hang below it.
pub struct Node<T: TotalOrder> {
    pub value: T,
    left: NodePointer<T>,
    right: NodePointer<T>,
}

/// The values of a subtree, read in order: left subtree, node, right subtree.
pub closed spec fn values_of<T: TotalOrder>(link: NodePointer<T>) -> Seq<T>
    decreases link,
{
    match link {
        None => Seq::empty(),
        Some(node) => values_of(node.left) + seq![node.value] + values_of(node.right),
    }
}

/// Every element of `s` is ordered no later than `v`.
spec fn all_le<T: TotalOrder>(s: Seq<T>, v: T) -> bool {
    forall|i: int| 0 <= i < s.len() ==> #[trigger] s[i].le(v)
}

/// Every element of `s` comes strictly after `v`.
spec fn all_gt<T: TotalOrder>(s: Seq<T>, v: T) -> bool {
    forall|i: int| 0 <= i < s.len() ==> lt(v, #[trigger] s[i])
}

/// The search-tree property, at every node of the subtree: values no later
/// than the node's own sit on its left, values after it on its right.
pub closed spec fn well_formed_link<T: TotalOrder>(link: NodePointer<T>) -> bool
    decreases link,
{
    match link {
        None => true,
        Some(node) => {
            &&& all_le(values_of(node.left), node.value)
            &&& all_gt(values_of(node.right), node.value)
            &&& well_formed_link(node.left)
            &&& well_formed_link(node.right)
        },
    }
}

/// The number of nodes of a subtree.
spec fn size_of<T: TotalOrder>(link: NodePointer<T>) -> nat
    decreases link,
{
    match link {
        None => 0,
        Some(node) => size_of(node.left) + 1 + size_of(node.right),
    }
}

/// A well-formed subtree reads in ascending order.
proof fn lemma_link_sorted<T: TotalOrder>(link: NodePointer<T>)
    requires
        well_formed_link(link),
    ensures
        sorted(values_of(link)),
    decreases link,
{
    if let Some(node) = link {
        lemma_link_sorted(node.left);
        lemma_link_sorted(node.right);
        T::lemma_total_order();
        let l = values_of(node.left);
        let r = values_of(node.right);
        let s = values_of(link);
        assert(s == l + seq![node.value] + r);
        assert forall|i: int, j: int| 0 <= i < j < s.len() implies #[trigger] s[i].le(
            #[trigger] s[j],
        ) by {
            let n = l.len() as int;
            if j < n {
                assert(s[i] == l[i] && s[j] == l[j]);
            } else if j == n {
                assert(s[i] == l[i] && s[j] == node.value);
            } else if i > n {
                assert(s[i] == r[i - n - 1] && s[j] == r[j - n - 1]);
            } else if i == n {
                assert(s[j] == r[j - n - 1]);
                assert(lt(node.value, r[j - n - 1]));
            } else {
                assert(s[i] == l[i] && s[j] == r[j - n - 1]);
                assert(l[i].le(node.value));
                assert(lt(node.value, r[j - n - 1]));
            }
        }
    }
}

impl<T: TotalOrder> Node<T> {
    /// A leaf holding `value`.
    pub fn new(value: T) -> (r: Node<T>)
        ensures
            values_of(Some(Box::new(r))) == seq![value],
            well_formed_link(Some(Box::new(r))),
    {
        let r = Node { value: value, left: None, right: None };
        proof {
            let link = Some(Box::new(r));
            reveal_with_fuel(values_of, 2);
            reveal_with_fuel(well_formed_link, 2);
            assert(values_of(link) =~= seq![value]);
        }
        r
    }
}

/// Below a node, a value other than the node's own can only be on the side
/// that the comparison with the node's value points to.
proof fn lemma_contains_side<T: TotalOrder>(node: Box<Node<T>>, value: T)
    requires
        well_formed_link(Some(node)),
        value != node.value,
    ensures
        values_of(Some(node)).contains(value) == (if value.le(node.value) {
            values_of(node.left).contains(value)
        } else {
            values_of(node.right).contains(value)
        }),
{
    let l = values_of(node.left);
    let r = values_of(node.right);
    let s = values_of(Some(node));
    assert(s == l + seq![node.value] + r);
    let n = l.len() as int;
    if s.contains(value) {
        let i = choose|i: int| 0 <= i < s.len() && s[i] == value;
        if i < n {
            assert(l[i] == value);
            assert(value.le(node.value));
        } else if i > n {
            assert(r[i - n - 1] == value);
            assert(lt(node.value, r[i - n - 1]));
        }
    }
    if value.le(node.value) && l.contains(value) {
        let i = choose|i: int| 0 <= i < l.len() && l[i] == value;
        assert(s[i] == value);
    }
    if !value.le(node.value) && r.contains(value) {
        let i = choose|i: int| 0 <= i < r.len() && r[i] == value;
        assert(s[n + 1 + i] == value);
    }
}

/// The subtree at the bottom of the right edge of a subtree: the one whose
/// top node holds its greatest value and has no right child.
spec fn rightmost<T: TotalOrder>(link: NodePointer<T>) -> NodePointer<T>
    decreases link,
{
    match link {
        Some(node) => if node.right.is_some() {
            rightmost(node.right)
        } else {
            link
        },
        None => link,
    }
}

/// `link` with the subtree at the bottom of its right edge replaced by `x`.
spec fn with_rightmost<T: TotalOrder>(link: NodePointer<T>, x: NodePointer<T>) -> NodePointer<T>
    decreases link,
{
    match link {
        Some(node) => if node.right.is_some() {
            Some(
                Box::new(
                    Node { value: node.value, left: node.left, right: with_rightmost(node.right, x) },
                ),
            )
        } else {
            x
        },
        None => x,
    }
}

/// The values of `link` that come before its rightmost subtree.
spec fn before_rightmost<T: TotalOrder>(link: NodePointer<T>) -> Seq<T>
    decreases link,
{
    match link {
        Some(node) => if node.right.is_some() {
            values_of(node.left) + seq![node.value] + before_rightmost(node.right)
        } else {
            Seq::empty()
        },
        None => Seq::empty(),
    }
}

/// How the values of a subtree split around its rightmost subtree.
proof fn lemma_rightmost<T: TotalOrder>(link: NodePointer<T>, x: NodePointer<T>)
    requires
        link.is_some(),
    ensures
        rightmost(link).is_some(),
        rightmost(link).unwrap().right.is_none(),
        values_of(link) == before_rightmost(link) + values_of(rightmost(link)),
        values_of(with_rightmost(link, x)) == before_rightmost(link) + values_of(x),
        size_of(rightmost(link)) <= size_of(link),
        well_formed_link(link) ==> well_formed_link(rightmost(link)),
    decreases link,
{
    let node = link.unwrap();
    if node.right.is_some() {
        lemma_rightmost(node.right, x);
        assert(values_of(link) =~= before_rightmost(link) + values_of(rightmost(link)));
        assert(values_of(with_rightmost(link, x)) =~= before_rightmost(link) + values_of(x));
    } else {
        assert(before_rightmost(link) =~= Seq::<T>::empty());
        assert(values_of(link) =~= before_rightmost(link) + values_of(rightmost(link)));
        assert(values_of(with_rightmost(link, x)) =~= before_rightmost(link) + values_of(x));
    }
}

/// Replacing the rightmost subtree by a well-formed one that holds a prefix
/// of its values keeps the whole subtree well formed.
proof fn lemma_rightmost_well_formed<T: TotalOrder>(link: NodePointer<T>, x: NodePointer<T>)
    requires
        link.is_some(),
        well_formed_link(link),
        well_formed_link(x),
        values_of(x).len() <= values_of(rightmost(link)).len(),
        forall|i: int|
            0 <= i < values_of(x).len() ==> #[trigger] values_of(x)[i] == values_of(
                rightmost(link),
            )[i],
    ensures
        well_formed_link(with_rightmost(link, x)),
    decreases link,
{
    let node = link.unwrap();
    if node.right.is_some() {
        lemma_rightmost_well_formed(node.right, x);
        lemma_rightmost(node.right, x);
        let old_r = values_of(node.right);
        let new_r = values_of(with_rightmost(node.right, x));
        let pre = before_rightmost(node.right);
        let rm = values_of(rightmost(node.right));
        assert forall|i: int| 0 <= i < new_r.len() implies lt(node.value, #[trigger] new_r[i]) by {
            if i < pre.len() {
                assert(new_r[i] == old_r[i]);
            } else {
                assert(new_r[i] == values_of(x)[i - pre.len()]);
                assert(old_r[i] == rm[i - pre.len()]);
            }
        }
    }
}

/// The slot that holds the greatest value of a nonempty subtree: found by
/// following right children to the node that has none.
fn max_node_mut<T: TotalOrder>(root: &mut NodePointer<T>) -> (r: &mut NodePointer<T>)
    requires
        old(root).is_some(),
    ensures
        *r == rightmost(*old(root)),
        *final(root) == with_rightmost(*old(root), *final(r)),
    decreases *old(root),
{
    let go_right = match root {
        Some(node) => node.right.is_some(),
        None => false,
    };
    if go_right {
        match root {
            Some(node) => max_node_mut(&mut node.right),
            None => root,
        }
    } else {
        root
    }
}

/// Removes the node at the top of a nonempty subtree, in one of four ways:
/// a leaf is dropped; a node with one child is replaced by that child; a node
/// with two children takes over the value of its in-order predecessor (the
/// greatest value on its left), whose node, which has no right child, is then
/// removed in turn.
fn delete_node<T: TotalOrder>(link: &mut NodePointer<T>)
    requires
        old(link).is_some(),
        well_formed_link(*old(link)),
    ensures
        well_formed_link(*final(link)),
        values_of(*final(link)) == values_of(*old(link)).remove(
            values_of(old(link).unwrap().left).len() as int,
        ),
    decreases size_of(*old(link)),
{
    let mut this = link.take().unwrap();
    let ghost l = values_of(this.left);
    let ghost r = values_of(this.right);
    assert(values_of(*old(link)) == l + seq![this.value] + r);
    let left = this.left.take();
    let right = this.right.take();
    if left.is_none() && right.is_none() {
        assert(values_of(*link) =~= values_of(*old(link)).remove(l.len() as int));
    } else if left.is_none() {
        *link = right;
        assert(values_of(*link) =~= values_of(*old(link)).remove(l.len() as int));
    } else if right.is_none() {
        *link = left;
        assert(values_of(*link) =~= values_of(*old(link)).remove(l.len() as int));
    } else {
        this.left = left;
        this.right = right;
        let ghost v = this.value;
        let ghost old_left = this.left;
        proof {
            lemma_rightmost(old_left, None);
        }
        let next = max_node_mut(&mut this.left);
        let ghost pred = *next;
        this.value = next.as_ref().unwrap().value;
        proof {
            assert(size_of(pred) < size_of(*old(link)));
            assert(values_of(pred) == values_of(pred.unwrap().left) + seq![pred.unwrap().value]);
        }
        delete_node(next);
        proof {
            let max = this.value;
            let nl = values_of(this.left);
            lemma_rightmost(old_left, *next);
            assert(values_of(*next) =~= values_of(pred).drop_last());
            lemma_rightmost_well_formed(old_left, *next);
            assert(nl =~= l.drop_last());
            T::lemma_total_order();
            lemma_link_sorted(old_left);
            assert(max == l[l.len() - 1]);
            assert forall|i: int| 0 <= i < nl.len() implies #[trigger] nl[i].le(max) by {
                assert(nl[i] == l[i]);
            }
            assert forall|i: int| 0 <= i < r.len() implies lt(max, #[trigger] r[i]) by {
                assert(lt(v, r[i]));
                assert(max.le(v));
            }
        }
        *link = Some(this);
        assert(values_of(*link) =~= values_of(*old(link)).remove(l.len() as int));
    }
}

/// One step of a walk down from the root: whether it went left, the value of
/// the node it left, and that node's other subtree.
type Step<T> = (bool, T, NodePointer<T>);

/// The node that a step left, with `sub` in the place the walk went to.
spec fn step_node<T: TotalOrder>(step: Step<T>, sub: NodePointer<T>) -> NodePointer<T> {
    if step.0 {
        Some(Box::new(Node { value: step.1, left: sub, right: step.2 }))
    } else {
        Some(Box::new(Node { value: step.1, left: step.2, right: sub }))
    }
}

/// The tree that a walk from the root came down through, with `sub` in the
/// place it reached.
spec fn plug<T: TotalOrder>(path: Seq<Step<T>>, sub: NodePointer<T>) -> NodePointer<T>
    decreases path.len(),
{
    if path.len() == 0 {
        sub
    } else {
        plug(path.drop_last(), step_node(path.last(), sub))
    }
}

/// `v` belongs where the walk went: no later than each node it went left of,
/// strictly after each node it went right of.
spec fn fits<T: TotalOrder>(path: Seq<Step<T>>, v: T) -> bool {
    forall|k: int|
        0 <= k < path.len() ==> if (#[trigger] path[k]).0 {
            v.le(path[k].1)
        } else {
            lt(path[k].1, v)
        }
}

/// The values of the tree around the place a walk reached: those before it
/// and those after it.
spec fn around<T: TotalOrder>(path: Seq<Step<T>>) -> (Seq<T>, Seq<T>)
    decreases path.len(),
{
    if path.len() == 0 {
        (Seq::empty(), Seq::empty())
    } else {
        let outer = around(path.drop_last());
        let step = path.last();
        if step.0 {
            (outer.0, seq![step.1] + values_of(step.2) + outer.1)
        } else {
            (outer.0 + values_of(step.2) + seq![step.1], outer.1)
        }
    }
}

/// The values of a plugged tree: those around the place, and the plugged
/// subtree's in between.
proof fn lemma_plug_values<T: TotalOrder>(path: Seq<Step<T>>, sub: NodePointer<T>)
    ensures
        values_of(plug(path, sub)) == around(path).0 + values_of(sub) + around(path).1,
    decreases path.len(),
{
    if path.len() == 0 {
        assert(values_of(plug(path, sub)) =~= around(path).0 + values_of(sub) + around(path).1);
    } else {
        let inner = step_node(path.last(), sub);
        lemma_plug_values(path.drop_last(), inner);
        assert(values_of(inner) == values_of(inner.unwrap().left) + seq![inner.unwrap().value]
            + values_of(inner.unwrap().right));
        assert(values_of(plug(path, sub)) =~= around(path).0 + values_of(sub) + around(path).1);
    }
}

/// A tree stays well formed when the subtree at a place is replaced by a
/// well-formed one whose values all belong at that place.
proof fn lemma_plug_well_formed<T: TotalOrder>(
    path: Seq<Step<T>>,
    old_sub: NodePointer<T>,
    sub: NodePointer<T>,
)
    requires
        well_formed_link(plug(path, old_sub)),
        well_formed_link(sub),
        forall|i: int| 0 <= i < values_of(sub).len() ==> fits(path, #[trigger] values_of(sub)[i]),
    ensures
        well_formed_link(plug(path, sub)),
    decreases path.len(),
{
    if path.len() > 0 {
        let step = path.last();
        let outer = path.drop_last();
        let old_node = step_node(step, old_sub);
        let node = step_node(step, sub);
        lemma_plug_fits(outer, old_node);
        let vs = values_of(sub);
        assert(well_formed_link(old_node));
        assert forall|i: int| 0 <= i < vs.len() implies fits(outer, #[trigger] vs[i]) by {
            assert(fits(path, vs[i]));
            assert forall|k: int| 0 <= k < outer.len() implies if (#[trigger] outer[k]).0 {
                vs[i].le(outer[k].1)
            } else {
                lt(outer[k].1, vs[i])
            } by {
                assert(outer[k] == path[k]);
            }
        }
        assert forall|i: int| 0 <= i < vs.len() implies (if step.0 {
            (#[trigger] vs[i]).le(step.1)
        } else {
            lt(step.1, vs[i])
        }) by {
            assert(fits(path, vs[i]));
            assert(path[path.len() - 1] == step);
        }
        let nv = values_of(node);
        lemma_plug_fits(outer, old_node);
        assert forall|i: int| 0 <= i < nv.len() implies fits(outer, #[trigger] nv[i]) by {
            let ov = values_of(old_node);
            if step.0 {
                assert(nv =~= vs + seq![step.1] + values_of(step.2));
                assert(ov =~= values_of(old_sub) + seq![step.1] + values_of(step.2));
                if i >= vs.len() {
                    assert(nv[i] == ov[i - vs.len() + values_of(old_sub).len()]);
                }
            } else {
                assert(nv =~= values_of(step.2) + seq![step.1] + vs);
                assert(ov =~= values_of(step.2) + seq![step.1] + values_of(old_sub));
                if i < values_of(step.2).len() + 1 {
                    assert(nv[i] == ov[i]);
                }
            }
        }
        lemma_plug_well_formed(outer, old_node, node);
    }
}

/// In a well-formed tree, every value of the subtree at a place belongs
/// there, and that subtree is well formed.
proof fn lemma_plug_fits<T: TotalOrder>(path: Seq<Step<T>>, sub: NodePointer<T>)
    requires
        well_formed_link(plug(path, sub)),
    ensures
        well_formed_link(sub),
        forall|i: int| 0 <= i < values_of(sub).len() ==> fits(path, #[trigger] values_of(sub)[i]),
    decreases path.len(),
{
    if path.len() > 0 {
        let step = path.last();
        let outer = path.drop_last();
        let node = step_node(step, sub);
        lemma_plug_fits(outer, node);
        let vs = values_of(sub);
        let nv = values_of(node);
        assert forall|i: int| 0 <= i < vs.len() implies fits(path, #[trigger] vs[i]) by {
            let j = if step.0 {
                i
            } else {
                values_of(step.2).len() + 1 + i
            };
            if step.0 {
                assert(nv =~= vs + seq![step.1] + values_of(step.2));
            } else {
                assert(nv =~= values_of(step.2) + seq![step.1] + vs);
            }
            assert(nv[j] == vs[i]);
            assert(fits(outer, nv[j]));
            assert forall|k: int| 0 <= k < path.len() implies if (#[trigger] path[k]).0 {
                vs[i].le(path[k].1)
            } else {
                lt(path[k].1, vs[i])
            } by {
                if k < outer.len() {
                    assert(outer[k] == path[k]);
                }
            }
        }
    }
}

/// A binary search tree over a totally ordered value type. Equal values are
/// placed to the left of each other, so duplicates are kept.
pub struct Tree<T: TotalOrder> {
    pub root: NodePointer<T>,
}

impl<T: TotalOrder> View for Tree<T> {
    type V = Seq<T>;

    /// The values of the tree in order.
    closed spec fn view(&self) -> Seq<T> {
        values_of(self.root)
    }
}

impl<T: TotalOrder> Tree<T> {
    /// The search-tree property holds at every node.
    pub closed spec fn well_formed(&self) -> bool {
        well_formed_link(self.root)
    }

    /// An empty tree.
    pub fn new() -> (r: Tree<T>)
        ensures
            r.well_formed(),
            r@ == Seq::<T>::empty(),
    {
        Tree { root: None }
    }

    /// Adds `value` to the tree, as a new leaf: walks down from the root,
    /// left where `value` is no later than a node's value and right
    /// otherwise, to an empty slot, and puts the leaf there.
    pub fn insert(&mut self, value: T)
        requires
            old(self).well_formed(),
        ensures
            final(self).well_formed(),
            sorted(final(self)@),
            final(self)@.to_multiset() == old(self)@.to_multiset().insert(value),
    {
        let mut root = self.root.take();
        let ghost old_root = root;
        let ghost mut path: Seq<Step<T>> = Seq::empty();
        let mut current = &mut root;
        while current.is_some()
            invariant
                after_borrow(root) == plug(path, *final(current)),
                old_root == plug(path, *current),
                well_formed_link(old_root),
                fits(path, value),
            decreases size_of(*current),
        {
            match current {
                Some(node) => {
                    let ghost before = path;
                    if value.less_eq(&node.value) {
                        proof {
                            path = path.push((true, node.value, node.right));
                            assert(path.drop_last() =~= before);
                        }
                        current = &mut node.left;
                    } else {
                        proof {
                            path = path.push((false, node.value, node.left));
                            assert(path.drop_last() =~= before);
                        }
                        current = &mut node.right;
                    }
                    proof {
                        assert forall|k: int| 0 <= k < path.len() implies if (#[trigger] path[k]).0 {
                            value.le(path[k].1)
                        } else {
                            lt(path[k].1, value)
                        } by {
                            if k < before.len() {
                                assert(path[k] == before[k]);
                            }
                        }
                    }
                },
                None => {},
            }
        }
        let leaf = Some(Box::new(Node::new(value)));
        proof {
            lemma_plug_values(path, None);
            lemma_plug_values(path, leaf);
            lemma_plug_well_formed(path, None, leaf);
            assert(values_of(None::<Box<Node<T>>>) =~= Seq::<T>::empty());
        }
        *current = leaf;
        self.root = root;
        proof {
            let k = around(path).0.len() as int;
            assert(self@ =~= old(self)@.insert(k, value));
            lemma_insert_multiset(old(self)@, k, value);
            lemma_link_sorted(self.root);
        }
    }

    /// Whether some node holds `value`.
    pub fn find(&self, value: T) -> (r: bool)
        requires
            self.well_formed(),
        ensures
            r == self@.contains(value),
    {
        let mut current: &NodePointer<T> = &self.root;
        loop
            invariant
                well_formed_link(*current),
                self@.contains(value) == values_of(*current).contains(value),
            decreases size_of(*current),
        {
            match current {
                None => {
                    return false;
                },
                Some(node) => {
                    if value.equals(&node.value) {
                        assert(values_of(*current)[values_of(node.left).len() as int] == value);
                        return true;
                    }
                    proof {
                        lemma_contains_side(*node, value);
                    }
                    if value.less_eq(&node.value) {
                        current = &node.left;
                    } else {
                        current = &node.right;
                    }
                },
            }
        }
    }

    /// Removes one occurrence of `value`, if the tree holds it, and says
    /// whether it did. Walks down from the root as `find` does; the first
    /// node holding `value` is removed from its slot.
    pub fn remove(&mut self, value: T) -> (r: bool)
        requires
            old(self).well_formed(),
        ensures
            final(self).well_formed(),
            sorted(final(self)@),
            r == old(self)@.contains(value),
            final(self)@.to_multiset() == old(self)@.to_multiset().remove(value),
            !r ==> *final(self) == *old(self),
    {
        let mut root = self.root.take();
        let ghost old_root = root;
        let ghost mut path: Seq<Step<T>> = Seq::empty();
        let mut current = &mut root;
        while current.is_some()
            invariant
                after_borrow(root) == plug(path, *final(current)),
                old_root == plug(path, *current),
                old_root == old(self).root,
                well_formed_link(old_root),
                well_formed_link(*current),
                values_of(old_root).contains(value) == values_of(*current).contains(value),
            decreases size_of(*current),
        {
            let current_value = current.as_ref().unwrap().value;
            if value.equals(&current_value) {
                let ghost old_sub = *current;
                proof {
                    lemma_plug_fits(path, old_sub);
                    lemma_plug_values(path, old_sub);
                }
                delete_node(current);
                let ghost new_sub = *current;
                let ghost j = values_of(old_sub.unwrap().left).len() as int;
                proof {
                    let ov = values_of(old_sub);
                    let nv = values_of(new_sub);
                    assert(ov == values_of(old_sub.unwrap().left) + seq![current_value]
                        + values_of(old_sub.unwrap().right));
                    assert(ov[j] == value);
                    assert forall|i: int| 0 <= i < nv.len() implies fits(path, #[trigger] nv[i]) by {
                        if i < j {
                            assert(nv[i] == ov[i]);
                        } else {
                            assert(nv[i] == ov[i + 1]);
                        }
                    }
                    lemma_plug_well_formed(path, old_sub, new_sub);
                    lemma_plug_values(path, new_sub);
                }
                self.root = root;
                proof {
                    let k = around(path).0.len() + j;
                    assert(self@ =~= old(self)@.remove(k));
                    assert(old(self)@[k] == value);
                    vstd::seq_lib::to_multiset_remove(old(self)@, k);
                    lemma_link_sorted(self.root);
                }
                return true;
            }
            match current {
                Some(node) => {
                    let ghost before = path;
                    proof {
                        lemma_contains_side(*node, value);
                    }
                    if value.less_eq(&node.value) {
                        proof {
                            path = path.push((true, node.value, node.right));
                            assert(path.drop_last() =~= before);
                        }
                        current = &mut node.left;
                    } else {
                        proof {
                            path = path.push((false, node.value, node.left));
                            assert(path.drop_last() =~= before);
                        }
                        current = &mut node.right;
                    }
                    proof {
                        lemma_plug_fits(path, *current);
                    }
                },
                None => {},
            }
        }
        self.root = root;
        proof {
            assert(!old(self)@.contains(value));
            assert(old(self)@.to_multiset().count(value) == 0);
            assert(old(self)@.to_multiset().remove(value) =~= old(self)@.to_multiset());
            lemma_link_sorted(self.root);
        }
        false
    }

    /// The least value, or `None` for an empty tree.
    pub fn min(&self) -> (r: Option<T>)
        ensures
            r == (if self@.len() == 0 {
                None
            } else {
                Some(self@[0])
            }),
    {
        match &self.root {
            None => None,
            Some(root) => {
                let mut node: &Box<Node<T>> = root;
                loop
                    invariant
                        self@.len() > 0,
                        values_of(Some(*node)).len() > 0,
                        values_of(Some(*node))[0] == self@[0],
                    decreases size_of(Some(*node)),
                {
                    assert(values_of(Some(*node)) == values_of(node.left) + seq![node.value]
                        + values_of(node.right));
                    match &node.left {
                        None => {
                            return Some(node.value);
                        },
                        Some(left) => {
                            assert(values_of(Some(*left)).len() > 0);
                            node = left;
                        },
                    }
                }
            },
        }
    }

    /// The greatest value, or `None` for an empty tree.
    pub fn max(&self) -> (r: Option<T>)
        ensures
            r == (if self@.len() == 0 {
                None
            } else {
                Some(self@.last())
            }),
    {
        match &self.root {
            None => None,
            Some(root) => {
                let mut node: &Box<Node<T>> = root;
                loop
                    invariant
                        self@.len() > 0,
                        values_of(Some(*node)).len() > 0,
                        values_of(Some(*node)).last() == self@.last(),
                    decreases size_of(Some(*node)),
                {
                    assert(values_of(Some(*node)) == values_of(node.left) + seq![node.value]
                        + values_of(node.right));
                    match &node.right {
                        None => {
                            return Some(node.value);
                        },
                        Some(right) => {
                            assert(values_of(Some(*right)).len() > 0);
                            node = right;
                        },
                    }
                }
            },
        }
    }

    /// A cursor that yields the tree's values in ascending order.
    pub fn iter(&self) -> (r: TreeIntoIterator<'_, T>)
        ensures
            r@ == self@,
    {
        let mut stack: Vec<(bool, &Box<Node<T>>)> = Vec::new();
        if let Some(node) = &self.root {
            stack.push((false, node));
            assert(stack@.drop_last() =~= Seq::<(bool, &Box<Node<T>>)>::empty());
            assert(pending(stack@.drop_last()) == Seq::<T>::empty());
            assert(stack@.last() == (false, node));
            assert(entry_values((false, node)) == values_of(self.root));
            assert(pending(stack@) =~= self@);
        }
        TreeIntoIterator { stack: stack }
    }
}

/// The number of nodes on the path from the top of a subtree down its left
/// edge.
spec fn left_spine<T: TotalOrder>(link: NodePointer<T>) -> nat
    decreases link,
{
    match link {
        None => 0,
        Some(node) => 1 + left_spine(node.left),
    }
}

impl<T: TotalOrder> Drop for Tree<T> {
    /// Tears the tree down without recursion and without allocating. While the
    /// top node has a left child, that child is rotated up; once the top node
    /// has none, its right subtree is detached and the node, now childless, is
    /// dropped. Each node is dropped exactly once, after its children have
    /// been moved away from it.
    fn drop(&mut self)
        opens_invariants none
        no_unwind
    {
        let mut current: NodePointer<T> = None;
        core::mem::swap(&mut current, &mut self.root);
        loop
            decreases size_of(current), left_spine(current),
        {
            match current {
                None => {
                    return;
                },
                Some(mut node) => {
                    let ghost top = node;
                    let mut left: NodePointer<T> = None;
                    core::mem::swap(&mut left, &mut node.left);
                    match left {
                        None => {
                            let mut right: NodePointer<T> = None;
                            core::mem::swap(&mut right, &mut node.right);
                            current = right;
                            assert(size_of(current) < size_of(Some(top)));
                        },
                        Some(mut child) => {
                            let ghost below = child;
                            core::mem::swap(&mut node.left, &mut child.right);
                            child.right = Some(node);
                            assert(top.left == Some(below));
                            assert(size_of(Some(node)) == size_of(below.right) + 1 + size_of(
                                top.right,
                            ));
                            current = Some(child);
                            assert(size_of(Some(below)) == size_of(below.left) + 1 + size_of(
                                below.right,
                            ));
                            assert(size_of(current) == size_of(Some(top)));
                            assert(left_spine(current) == 1 + left_spine(below.left));
                            assert(left_spine(Some(below)) == 1 + left_spine(below.left));
                            assert(left_spine(Some(top)) == 1 + left_spine(top.left));
                        },
                    }
                },
            }
        }
    }
}

/// What one entry of a cursor's stack has yet to yield: a node whose left
/// side is not entered yet yields its whole subtree; a node whose left side
/// is done yields its own value, then its right subtree.
spec fn entry_values<T: TotalOrder>(entry: (bool, &Box<Node<T>>)) -> Seq<T> {
    if entry.0 {
        seq![entry.1.value] + values_of(entry.1.right)
    } else {
        values_of(Some(*entry.1))
    }
}

/// What a cursor's stack has yet to yield, its top entry first.
spec fn pending<T: TotalOrder>(stack: Seq<(bool, &Box<Node<T>>)>) -> Seq<T>
    decreases stack.len(),
{
    if stack.len() == 0 {
        Seq::empty()
    } else {
        entry_values(stack.last()) + pending(stack.drop_last())
    }
}

/// A bound on the steps a cursor's stack still needs: each node counts twice
/// until its left side is entered, once more until its value is yielded.
spec fn entry_weight<T: TotalOrder>(entry: (bool, &Box<Node<T>>)) -> nat {
    if entry.0 {
        1 + 2 * size_of(entry.1.right)
    } else {
        2 * size_of(Some(*entry.1))
    }
}

spec fn stack_weight<T: TotalOrder>(stack: Seq<(bool, &Box<Node<T>>)>) -> nat
    decreases stack.len(),
{
    if stack.len() == 0 {
        0
    } else {
        entry_weight(stack.last()) + stack_weight(stack.drop_last())
    }
}

/// An in-order cursor over a tree. It reads the tree without changing it,
/// holding the path still to be walked on a stack instead of recursing.
pub struct TreeIntoIterator<'a, T: TotalOrder> {
    stack: Vec<(bool, &'a Box<Node<T>>)>,
}

impl<'a, T: TotalOrder> View for TreeIntoIterator<'a, T> {
    type V = Seq<T>;

    /// The values still to be yielded, in order.
    closed spec fn view(&self) -> Seq<T> {
        pending(self.stack@)
    }
}

impl<'a, T: TotalOrder> TreeIntoIterator<'a, T> {
    /// Yields the next value, or `None` once every value has been yielded.
    pub fn next(&mut self) -> (r: Option<T>)
        ensures
            old(self)@.len() == 0 ==> r.is_none() && final(self)@ == old(self)@,
            old(self)@.len() > 0 ==> r == Some(old(self)@[0]) && final(self)@ == old(
                self,
            )@.drop_first(),
    {
        loop
            invariant
                self@ == old(self)@,
            decreases stack_weight(self.stack@),
        {
            let ghost before = self.stack@;
            match self.stack.pop() {
                None => {
                    return None;
                },
                Some((left_visited, node)) => {
                    let ghost rest = self.stack@;
                    assert(rest == before.drop_last());
                    assert(values_of(Some(*node)) == values_of(node.left) + seq![node.value]
                        + values_of(node.right));
                    if left_visited {
                        if let Some(right) = &node.right {
                            self.stack.push((false, right));
                            assert(self.stack@.drop_last() == rest);
                        }
                        assert(old(self)@ =~= seq![node.value] + self@);
                        assert(old(self)@.drop_first() =~= self@);
                        return Some(node.value);
                    } else {
                        self.stack.push((true, node));
                        assert(self.stack@.drop_last() == rest);
                        let ghost middle = self.stack@;
                        assert(pending(middle) == entry_values((true, node)) + pending(rest));
                        assert(stack_weight(middle) == entry_weight((true, node)) + stack_weight(
                            rest,
                        ));
                        if let Some(left) = &node.left {
                            self.stack.push((false, left));
                            assert(self.stack@.drop_last() == middle);
                            assert(pending(self.stack@) == entry_values((false, left)) + pending(
                                middle,
                            ));
                            assert(stack_weight(self.stack@) == entry_weight((false, left))
                                + stack_weight(middle));
                        }
                        assert(self@ =~= old(self)@);
                    }
                },
            }
        }
    }

    /// Yields every remaining value, in order, into a vector.
    pub fn collect(self) -> (r: Vec<T>)
        ensures
            r@ == self@,
    {
        let mut cursor = self;
        let mut out: Vec<T> = Vec::new();
        loop
            invariant
                out@ + cursor@ == self@,
            decreases cursor@.len(),
        {
            match cursor.next() {
                None => {
                    assert(out@ =~= self@);
                    return out;
                },
                Some(v) => {
                    out.push(v);
                    assert(out@ + cursor@ =~= self@);
                },
            }
        }
    }
}

/// Whatever sequence of insertions and removals built a tree, its in-order
/// traversal is non-decreasing.
pub proof fn lemma_well_formed_sorted<T: TotalOrder>(tree: &Tree<T>)
    requires
        tree.well_formed(),
    ensures
        sorted(tree@),
{
    lemma_link_sorted(tree.root);
}

/// A tree that holds the values of `values`, count for count, reads back in
/// order as exactly `values` sorted: duplicates are kept, and the order in
/// which the values were inserted makes no difference.
pub proof fn lemma_round_trip<T: TotalOrder>(tree: &Tree<T>, values: Seq<T>)
    requires
        tree.well_formed(),
        tree@.to_multiset() == values.to_multiset(),
    ensures
        tree@ == values.sort_by(leq::<T>()),
{
    lemma_link_sorted(tree.root);
    lemma_leq_total::<T>();
    values.lemma_sort_by_ensures(leq::<T>());
    let s = values.sort_by(leq::<T>());
    assert(sorted(s)) by {
        assert forall|i: int, j: int| 0 <= i < j < s.len() implies #[trigger] s[i].le(
            #[trigger] s[j],
        ) by {
            assert(leq::<T>()(s[i], s[j]));
        }
    }
    lemma_sorted_unique(tree@, s);
}

} // verus!
