//! A compact, read-only index from every node of a forest to the sorted set of
//! its transitive descendants, together with the builder that accumulates
//! parent/child edges and rejects hierarchies that are not forests.
//!
//! Edges are handed to a [`ConsolidatedMapBuilder`] one at a time; each
//! accepted edge adds the child and all that is below it to the descendants
//! of the parent and of all that is above it. `build` then sorts every
//! node's descendants and packs them into a [`ConsolidatedMap`], which
//! answers queries without allocating.
//!
//! ```
//! use consolidated_map::{ConsolidatedMapBuilder, InsertError};
//!
//! let mut builder = ConsolidatedMapBuilder::new();
//! assert_eq!(builder.insert(10, 20), Ok(()));
//! assert_eq!(builder.insert(20, 30), Ok(()));
//! assert_eq!(builder.insert(30, 10), Err(InsertError::CircularReference));
//!
//! let map = builder.build();
//! assert!(map.contains_child(10, 30));
//!
//! let mut walk = map.consolidated(10);
//! assert_eq!(walk.next(), Some(10));
//! assert_eq!(walk.next(), Some(20));
//! assert_eq!(walk.next(), Some(30));
//! assert_eq!(walk.next(), None);
//! ```
//!
//! Nodes are named by identifiers that fit into 32 bits, and the memory
//! taken grows with the largest identifier used, so identifiers are best
//! small and dense.
//!
//! The modules: [`forest`] holds the mathematical model, a forest as one
//! optional parent per node, and what follows from it; [`builder`] and
//! [`index`] hold the two data structures, with contracts over that model;
//! [`bulk`] builds an index from a slice of edges; [`laws`] states what
//! holds of all of them together.

pub mod builder;
pub mod bulk;
pub mod forest;
pub mod index;
pub mod laws;
mod lists;
pub mod sorting;

pub use builder::{ConsolidatedMapBuilder, InsertError};
pub use index::{Children, ConsolidatedBy, ConsolidatedMap};
