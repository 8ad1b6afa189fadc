//! Realization: provenance references, optimization outcomes, the layers of
//! the pipeline, residual kinds and the bounded events of a compiled plan.
pub mod provenance;
pub mod optimization;
pub mod plan;
pub mod record;
pub mod residual;
