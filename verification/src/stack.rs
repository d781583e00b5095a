//! Last-in-first-out stack.
//!
//! The abstract state is a sequence of elements, oldest first; the top of
//! the stack is the last element of the sequence.

use vstd::prelude::*;

verus! {

pub struct Stack<T> {
    elems: Vec<T>,
}

impl<T: Copy> Stack<T> {
    /// The abstract contents, bottom first.
    pub closed spec fn view(&self) -> Seq<T> {
        self.elems@
    }

    /// An empty stack.
    pub fn new() -> (s: Self)
        ensures
            s@ == Seq::<T>::empty(),
    {
        Stack { elems: Vec::new() }
    }

    /// Places `v` on top of the stack.
    pub fn push(&mut self, v: T)
        ensures
            final(self)@ == old(self)@.push(v),
    {
        self.elems.push(v);
    }

    /// Removes and returns the top element; `None` on an empty stack.
    pub fn pop(&mut self) -> (r: Option<T>)
        ensures
            old(self)@.len() == 0 ==> r is None && final(self)@ == old(self)@,
            old(self)@.len() > 0 ==> r == Some(old(self)@.last())
                && final(self)@ == old(self)@.drop_last(),
    {
        if self.elems.len() == 0 {
            None
        } else {
            self.elems.pop()
        }
    }

    /// Returns the top element without removing it; `None` on an empty stack.
    pub fn top(&self) -> (r: Option<T>)
        ensures
            self@.len() == 0 ==> r is None,
            self@.len() > 0 ==> r == Some(self@.last()),
    {
        if self.elems.len() == 0 {
            None
        } else {
            Some(self.elems[self.elems.len() - 1])
        }
    }

    pub fn is_empty(&self) -> (r: bool)
        ensures
            r == (self@.len() == 0),
    {
        self.elems.len() == 0
    }

    pub fn len(&self) -> (r: usize)
        ensures
            r == self@.len(),
    {
        self.elems.len()
    }
}

} // verus!
