//! An ordered map backed by an unbalanced binary search tree.
//!
//! The map keeps its entries sorted by a comparator and is specified by the
//! ascending sequence of its entries: every contract relates that sequence
//! before an operation to the sequence after it.
//!
//! - `order` holds the comparators, among them those of the `compare`
//!   crate that follow `Ord`, and what it takes for a comparator to order
//!   keys and to place other values among them.
//! - `model` holds the sequences of entries and what lookups, insertions
//!   and removals mean on them.
//! - `node` holds the tree: nodes and links, paths, entries and iteration.
//! - `map` holds the map itself and its iterators.
//! - `laws` holds what is true of every map.

pub mod laws;
pub mod map;
pub mod model;
pub mod node;
pub mod order;

pub use map::{Entry, Find, IntoIter, IntoRange, Iter, IterMut, Range, RangeMut, TreeMap};
pub use node::entry::{OccupiedEntry, VacantEntry};
pub use order::Comparator;
