//! Structural time: exact beat positions, rhythm trees, meter, grid
//! quantization and temporal constraint networks.
pub mod beat;
pub mod rhythm;
pub mod meter;
pub mod quantize;
pub mod constraint;
pub mod paths;
pub mod elimination;
pub mod substitution;
pub mod rate;
