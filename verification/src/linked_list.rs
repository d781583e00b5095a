//! Singly linked list interface: an indexed sequence with front and back
//! insertion and positional access.
//!
//! The abstract state is a sequence of elements, front first. Out-of-range
//! positions are ruled out by the preconditions: `get`, `set` and `remove`
//! need `i < len`, `insert` needs `i <= len`. `insert(len, v)` behaves as
//! `push_back` and `insert(0, v)` as `push_front`.

use vstd::prelude::*;

verus! {

pub struct LinkedList<T> {
    elems: Vec<T>,
}

impl<T: Copy> LinkedList<T> {
    /// The abstract contents, front first.
    pub closed spec fn view(&self) -> Seq<T> {
        self.elems@
    }

    /// An empty list.
    pub fn new() -> (l: Self)
        ensures
            l@ == Seq::<T>::empty(),
    {
        LinkedList { elems: Vec::new() }
    }

    pub fn len(&self) -> (r: usize)
        ensures
            r == self@.len(),
    {
        self.elems.len()
    }

    /// Prepends `v` at position 0.
    pub fn push_front(&mut self, v: T)
        ensures
            final(self)@ == old(self)@.insert(0, v),
    {
        self.elems.insert(0, v);
    }

    /// Appends `v` after the last element.
    pub fn push_back(&mut self, v: T)
        ensures
            final(self)@ == old(self)@.push(v),
    {
        self.elems.push(v);
    }

    /// Overwrites the element at position `i` with `v`.
    pub fn set(&mut self, i: usize, v: T)
        requires
            i < old(self)@.len(),
        ensures
            final(self)@ == old(self)@.update(i as int, v),
    {
        self.elems[i] = v;
    }

    /// Returns the element at position `i`.
    pub fn get(&self, i: usize) -> (r: T)
        requires
            i < self@.len(),
        ensures
            r == self@[i as int],
    {
        self.elems[i]
    }

    /// Removes the element at position `i`, shifting the tail left.
    pub fn remove(&mut self, i: usize)
        requires
            i < old(self)@.len(),
        ensures
            final(self)@ == old(self)@.remove(i as int),
    {
        self.elems.remove(i);
    }

    /// Inserts `v` at position `i`, shifting the tail right.
    pub fn insert(&mut self, i: usize, v: T)
        requires
            i <= old(self)@.len(),
        ensures
            final(self)@ == old(self)@.insert(i as int, v),
    {
        self.elems.insert(i, v);
    }
}

/// Reading a position directly after overwriting it gives back the value
/// that was written, and no other position changes.
pub proof fn lemma_get_after_set<T>(s: Seq<T>, i: int, v: T)
    requires
        0 <= i < s.len(),
    ensures
        s.update(i, v)[i] == v,
        forall|j: int| 0 <= j < s.len() && j != i ==> s.update(i, v)[j] == s[j],
{
}

/// Inserting a value at a position and then removing that same position
/// leaves the contents of the list unchanged.
pub proof fn lemma_insert_then_remove_identity<T>(s: Seq<T>, i: int, v: T)
    requires
        0 <= i <= s.len(),
    ensures
        s.insert(i, v).remove(i) == s,
{
    assert(s.insert(i, v).remove(i) =~= s);
}

} // verus!
