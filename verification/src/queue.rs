//! First-in-first-out queue.
//!
//! The abstract state is a sequence of elements, oldest first. `push`
//! places a new element at the head end (the back of the sequence), `pop`
//! removes the oldest element from the tail end (the front of the
//! sequence), and `peek` looks at the head end without removing anything.

use vstd::prelude::*;

verus! {

pub struct Queue<T> {
    elems: Vec<T>,
}

impl<T: Copy> Queue<T> {
    /// The abstract contents, oldest first.
    pub closed spec fn view(&self) -> Seq<T> {
        self.elems@
    }

    /// An empty queue.
    pub fn new() -> (q: Self)
        ensures
            q@ == Seq::<T>::empty(),
    {
        Queue { elems: Vec::new() }
    }

    /// Inserts `v` at the head end.
    pub fn push(&mut self, v: T)
        ensures
            final(self)@ == old(self)@.push(v),
    {
        self.elems.push(v);
    }

    /// Removes and returns the oldest element; `None` on an empty queue.
    pub fn pop(&mut self) -> (r: Option<T>)
        ensures
            old(self)@.len() == 0 ==> r is None && final(self)@ == old(self)@,
            old(self)@.len() > 0 ==> r == Some(old(self)@.first())
                && final(self)@ == old(self)@.drop_first(),
    {
        if self.elems.len() == 0 {
            None
        } else {
            let v = self.elems.remove(0);
            proof {
                assert(self@ =~= old(self)@.drop_first());
            }
            Some(v)
        }
    }

    /// Returns the element at the head end, the most recently pushed one,
    /// without removing it; `None` on an empty queue.
    pub fn peek(&self) -> (r: Option<T>)
        ensures
            self@.len() == 0 ==> r is None,
            self@.len() > 0 ==> r == Some(self@.last()),
    {
        if self.elems.len() == 0 {
            None
        } else {
            Some(self.elems[self.elems.len() - 1])
        }
    }

    pub fn len(&self) -> (r: usize)
        ensures
            r == self@.len(),
    {
        self.elems.len()
    }

    pub fn is_empty(&self) -> (r: bool)
        ensures
            r == (self@.len() == 0),
    {
        self.elems.len() == 0
    }
}

} // verus!
