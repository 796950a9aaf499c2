//! An in-memory prefix-completion index.
//!
//! Items are indexed under byte-string keys, each with an integer score. A query
//! for a prefix hands out the items that have a key beginning with it, best score
//! first, and looks only at as much of the index as that takes.

pub mod cursor;
mod explore;
pub mod heap;
pub mod key;
pub mod laws;
pub mod marker;
mod node;
mod shape;
pub mod tree;

pub use cursor::CompletionIter;
pub use key::{Completable, Key};
pub use tree::CompletionTree;
