//! A singly linked list with cursors that read, change or take its values.

use vstd::prelude::*;

verus! {

/// `s` read from its last element to its first.
pub open spec fn reversed<T>(s: Seq<T>) -> Seq<T> {
    Seq::new(s.len(), |i: int| s[s.len() - 1 - i])
}

/// A singly linked list: values are added at either end and taken from the
/// front. The elements are held in a vector whose last slot is the front of
/// the list, so that adding or taking at the front costs O(1).
pub struct List<T> {
    items: Vec<T>,
}

impl<T> View for List<T> {
    type V = Seq<T>;

    /// The values from the front of the list to its back.
    closed spec fn view(&self) -> Seq<T> {
        reversed(self.items@)
    }
}

impl<T> List<T> {
    /// An empty list.
    pub fn new() -> (r: List<T>)
        ensures
            r@ == Seq::<T>::empty(),
    {
        let r = List { items: Vec::new() };
        assert(r@ =~= Seq::<T>::empty());
        r
    }

    /// Adds `value` at the back.
    pub fn push_back(&mut self, value: T)
        ensures
            final(self)@ == old(self)@.push(value),
    {
        self.items.insert(0, value);
        assert(self@ =~= old(self)@.push(value));
    }

    /// Adds `value` at the front.
    pub fn push_front(&mut self, value: T)
        ensures
            final(self)@ == seq![value] + old(self)@,
    {
        self.items.push(value);
        assert(self@ =~= seq![value] + old(self)@);
    }

    /// Takes the front value, or `None` from an empty list.
    pub fn pop(&mut self) -> (r: Option<T>)
        ensures
            old(self)@.len() == 0 ==> r.is_none() && final(self)@ == old(self)@,
            old(self)@.len() > 0 ==> r == Some(old(self)@[0]) && final(self)@ == old(
                self,
            )@.drop_first(),
    {
        let r = self.items.pop();
        assert(old(self)@.len() > 0 ==> self@ =~= old(self)@.drop_first());
        r
    }

    /// The front value, or `None` for an empty list.
    pub fn peek(&self) -> (r: Option<&T>)
        ensures
            self@.len() == 0 ==> r.is_none(),
            self@.len() > 0 ==> r == Some(&self@[0]),
    {
        let n = self.items.len();
        if n == 0 {
            None
        } else {
            Some(&self.items[n - 1])
        }
    }

    /// Reverses the order of the values.
    pub fn reverse(&mut self)
        ensures
            final(self)@ == reversed(old(self)@),
    {
        let mut out: Vec<T> = Vec::new();
        let ghost start = self.items@;
        while self.items.len() > 0
            invariant
                out@ + reversed(self.items@) == reversed(start),
            decreases self.items@.len(),
        {
            let ghost before = self.items@;
            let value = self.items.pop().unwrap();
            out.push(value);
            assert(out@ + reversed(self.items@) =~= reversed(start)) by {
                assert(before == self.items@.push(value));
                assert(reversed(before) =~= seq![value] + reversed(self.items@));
            }
        }
        assert(out@ =~= reversed(start));
        self.items = out;
        assert(self@ =~= reversed(reversed(start)));
        assert(reversed(reversed(start)) =~= start);
        assert(reversed(old(self)@) =~= start);
    }

    /// A cursor over the values, front first, that leaves the list as it is.
    pub fn iter(&self) -> (r: ListIterator<'_, T>)
        ensures
            r.well_formed(),
            r@ == self@,
    {
        let r = ListIterator { items: &self.items, remaining: self.items.len() };
        assert(r.items@.subrange(0, r.remaining as int) =~= self.items@);
        r
    }

    /// A cursor over the values, front first, that hands out mutable
    /// references to them.
    pub fn iter_mut(&mut self) -> (r: ListMutIterator<'_, T>)
        ensures
            r.well_formed(),
            r@ == old(self)@,
    {
        let remaining = self.items.len();
        let r = ListMutIterator { items: &mut self.items, remaining: remaining };
        assert(r.items@.subrange(0, r.remaining as int) =~= old(self).items@);
        r
    }

    /// A cursor that takes the values out of the list, front first.
    pub fn into_iter(self) -> (r: ListIntoIterator<T>)
        ensures
            r@ == self@,
    {
        ListIntoIterator { list: self }
    }
}

/// A cursor over a list, front first, handing out shared references.
pub struct ListIterator<'a, T> {
    items: &'a Vec<T>,
    remaining: usize,
}

impl<'a, T> View for ListIterator<'a, T> {
    type V = Seq<T>;

    /// The values still to be handed out, in order.
    closed spec fn view(&self) -> Seq<T> {
        reversed(self.items@.subrange(0, self.remaining as int))
    }
}

impl<'a, T> ListIterator<'a, T> {
    /// The cursor's position lies within the list.
    pub closed spec fn well_formed(&self) -> bool {
        self.remaining <= self.items@.len()
    }

    /// Hands out the next value, or `None` once all have been handed out.
    pub fn next(&mut self) -> (r: Option<&'a T>)
        requires
            old(self).well_formed(),
        ensures
            final(self).well_formed(),
            old(self)@.len() == 0 ==> r.is_none() && final(self)@ == old(self)@,
            old(self)@.len() > 0 ==> r == Some(&old(self)@[0]) && final(self)@ == old(
                self,
            )@.drop_first(),
    {
        if self.remaining == 0 {
            None
        } else {
            self.remaining = self.remaining - 1;
            let r = &self.items[self.remaining];
            assert(self@ =~= old(self)@.drop_first());
            Some(r)
        }
    }
}

/// A cursor over a list, front first, handing out mutable references; each
/// lasts until the cursor is used again.
pub struct ListMutIterator<'a, T> {
    items: &'a mut Vec<T>,
    remaining: usize,
}

impl<'a, T> View for ListMutIterator<'a, T> {
    type V = Seq<T>;

    /// The values still to be handed out, in order.
    closed spec fn view(&self) -> Seq<T> {
        reversed(self.items@.subrange(0, self.remaining as int))
    }
}

impl<'a, T> ListMutIterator<'a, T> {
    /// The cursor's position lies within the list.
    pub closed spec fn well_formed(&self) -> bool {
        self.remaining <= self.items@.len()
    }

    /// Hands out the next value for change, or `None` once all have been
    /// handed out.
    pub fn next(&mut self) -> (r: Option<&mut T>)
        requires
            old(self).well_formed(),
        ensures
            final(self).well_formed(),
            old(self)@.len() == 0 ==> r.is_none() && final(self)@ == old(self)@,
            old(self)@.len() > 0 ==> r.is_some() && *r.unwrap() == old(self)@[0],
            old(self)@.len() > 0 ==> final(self)@ == old(self)@.drop_first(),
    {
        if self.remaining == 0 {
            None
        } else {
            self.remaining = self.remaining - 1;
            let at = self.remaining;
            Some(&mut self.items[at])
        }
    }
}

/// A cursor that owns a list and takes its values out, front first.
pub struct ListIntoIterator<T> {
    list: List<T>,
}

impl<T> View for ListIntoIterator<T> {
    type V = Seq<T>;

    /// The values still to be taken, in order.
    closed spec fn view(&self) -> Seq<T> {
        self.list@
    }
}

impl<T> ListIntoIterator<T> {
    /// Takes the next value, or `None` once the list is empty.
    pub fn next(&mut self) -> (r: Option<T>)
        ensures
            old(self)@.len() == 0 ==> r.is_none() && final(self)@ == old(self)@,
            old(self)@.len() > 0 ==> r == Some(old(self)@[0]) && final(self)@ == old(
                self,
            )@.drop_first(),
    {
        self.list.pop()
    }
}

} // verus!
