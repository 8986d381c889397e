//! An in-memory index from string keys to metadata, answering "every entry
//! whose key starts with this prefix" with a binary search over the keys kept
//! in lexicographic order.

use vstd::prelude::*;

pub mod index;
pub mod order;
pub mod search;
pub mod sort;

pub use index::{Match, PrefixMatch};
