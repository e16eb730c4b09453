//! Verified algorithm exercises.
//!
//! The centre is a pair of fixed-capacity containers over slot storage, a
//! bounded stack and a bounded queue, and the two simulations built on them:
//! a postfix evaluator and a round-robin scheduler. Around them stand sorts
//! (bubble, insertion, selection, merge, and a stability check on cards),
//! searches (linear, binary, a sorted dictionary, subset sums), a list of
//! commands, and a best-trade search, each with a reader of its text input.

pub mod slots;
pub mod stack;
pub mod queue;
pub mod text;
pub mod order;
pub mod alds_bubble_sort;
pub mod alds_insertion_sort;
pub mod alds_maximum_profit;
pub mod selection_sort;
pub mod stable_sort;
pub mod merge_sort;
pub mod linear_search;
pub mod binary_search;
pub mod dictionary;
pub mod doubly_linked_list;
pub mod exhaustive_search;
