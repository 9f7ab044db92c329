//! A library for Urbit's noun data model: finite binary trees whose leaves
//! are arbitrary-precision unsigned integers ("atoms") and whose internal
//! nodes are ordered pairs ("cells"), together with the canonical bitwise
//! serialization format (the "jam" encoder and "cue" decoder) that
//! deduplicates repeated subtrees through back-references.

pub mod atom;
pub mod bits;
pub mod cell;
pub mod convert;
pub mod laws;
pub mod marker;
pub mod noun;
pub mod ops;
pub mod serdes;

pub use crate::atom::Atom;
pub use crate::atom::Builder as AtomBuilder;
pub use crate::atom::Iter as AtomIter;
pub use crate::cell::Cell;
pub use crate::noun::Noun;
