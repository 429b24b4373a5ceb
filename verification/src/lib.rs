//! Formal concept analysis of a relation between objects and attributes.
//!
//! A [`Context`] holds which object has which attribute. From it come the
//! two derivation operators and their closures, the list of its concepts in
//! lectic order, the lattice of the concepts, the canonical basis of the
//! implications between its attributes, and attribute exploration with an
//! oracle.
//!
//! Every function is verified against a contract over mathematical values:
//! names are sequences of characters, sets of names are sequences of names,
//! and a context is its `ContextView`. What does not follow from one
//! contract alone is proved as a lemma beside the functions it speaks of:
//! in `galois` for the closures, in `closed_sets` for the step to the next
//! closed set, in `enumeration` for the list of concepts, in `completeness`
//! for the canonical basis and in `covering` for the lattice.
//!
//! The incidence grid is an array of the `ndarray` crate, and tables are
//! read by the `csv` crate. What is taken on trust of both is in `grid` and
//! `reader`.

pub mod names;
pub mod order;
pub mod text;
pub mod error;
pub mod lectic;
pub mod closed_sets;
pub mod grid;
pub mod context;
pub mod galois;
pub mod reader;
pub mod table;
pub mod implications;
pub mod concept;
pub mod lattice;
pub mod covering;
pub mod enumeration;
pub mod basis;
pub mod completeness;

pub use crate::concept::Concept;
pub use crate::context::Context;
pub use crate::implications::Implication;
pub use crate::lattice::Lattice;
pub use crate::lectic::{lexical_m, next_closure};
