//! Doubly linked list interface: an indexed sequence reachable from both
//! ends.
//!
//! The abstract state is a sequence of elements, head first. The contract
//! is the same as for the singly linked variant: positional `get`, `set`,
//! `insert` and `remove`, with out-of-range positions ruled out by the
//! preconditions, and `push_front` / `push_back` at the two ends.

use vstd::prelude::*;

verus! {

pub struct DoublyLinkedList<T> {
    elems: Vec<T>,
}

impl<T: Copy> DoublyLinkedList<T> {
    /// The abstract contents, head first.
    pub closed spec fn view(&self) -> Seq<T> {
        self.elems@
    }

    /// An empty list.
    pub fn new() -> (l: Self)
        ensures
            l@ == Seq::<T>::empty(),
    {
        DoublyLinkedList { elems: Vec::new() }
    }

    pub fn len(&self) -> (r: usize)
        ensures
            r == self@.len(),
    {
        self.elems.len()
    }

    /// Appends `v` at the tail end.
    pub fn push_back(&mut self, v: T)
        ensures
            final(self)@ == old(self)@.push(v),
    {
        self.elems.push(v);
    }

    /// Prepends `v` at the head end.
    pub fn push_front(&mut self, v: T)
        ensures
            final(self)@ == old(self)@.insert(0, v),
    {
        self.elems.insert(0, v);
    }

    /// Returns the element at position `i`.
    pub fn get(&self, i: usize) -> (r: T)
        requires
            i < self@.len(),
        ensures
            r == self@[i as int],
    {
        self.elems[i]
    }

    /// Overwrites the element at position `i` with `v`.
    pub fn set(&mut self, i: usize, v: T)
        requires
            i < old(self)@.len(),
        ensures
            final(self)@ == old(self)@.update(i as int, v),
    {
        self.elems[i] = v;
    }

    /// Removes the element at position `i`, shifting the tail left.
    pub fn remove(&mut self, i: usize)
        requires
            i < old(self)@.len(),
        ensures
            final(self)@ == old(self)@.remove(i as int),
    {
        self.elems.remove(i);
    }

    /// Inserts `v` at position `i`, shifting the tail right. Position 0
    /// behaves as `push_front`, position `len` as `push_back`.
    pub fn insert(&mut self, i: usize, v: T)
        requires
            i <= old(self)@.len(),
        ensures
            final(self)@ == old(self)@.insert(i as int, v),
    {
        if i == self.elems.len() {
            self.elems.push(v);
            proof {
                assert(self@ =~= old(self)@.insert(i as int, v));
            }
        } else {
            self.elems.insert(i, v);
        }
    }
}

} // verus!
