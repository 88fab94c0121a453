//! A sorted container stored as a flat list of blocks.
//!
//! [`SortedList`] keeps its elements in ascending order inside a sequence of
//! contiguous blocks of bounded length. Looking an element up costs two binary
//! searches; inserting and removing shift elements inside one block only and
//! split, merge or rebalance blocks when one grows or shrinks too far.
//!
//! The container is single-threaded: it has no internal locking, and a caller
//! that shares it between threads supplies its own exclusion.
pub mod blocks;
pub mod history;
pub mod layout;
pub mod order;
pub mod sorted;
pub mod sorted_list;

pub use sorted_list::{Iter, SortedList};
