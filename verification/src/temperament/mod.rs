//! Temperament structures: declared ambient lattices and their elements, and
//! the enumeration order of a bounded search over lattice coordinates.
pub mod image;
pub mod search;
