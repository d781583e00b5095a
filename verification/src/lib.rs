//! A small collection of verified container and algorithm exercises: a
//! binary search tree over an ordered multiset of values, a singly and a
//! doubly linked list, a stack, a queue, a family of comparison sorts,
//! and a Karatsuba multiplier.
//!
//! Every public operation carries a contract over a mathematical view of
//! its data structure — a sequence for the containers, plain integers
//! for the arithmetic — and the contracts are machine-checked.

pub mod bst;
pub mod doubly_linked_list;
pub mod karatsuba;
pub mod linked_list;
pub mod queue;
pub mod sorted_seqs;
pub mod sorting;
pub mod stack;
pub mod utils;
