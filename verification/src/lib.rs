//! Exact structural time, scores, ambient pitch lattices and realization
//! records.
pub mod algebra;
pub mod error;
pub mod text;
pub mod time;
pub mod score;
pub mod realization;
pub mod temperament;
