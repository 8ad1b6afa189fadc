//! The kinds of realization residual. The seven kinds live in different
//! spaces, and only some of them may be added to one another.
use vstd::prelude::*;

verus! {

/// Which kind of loss a residual describes.
#[derive(Debug, Clone, Copy, PartialEq, Eq, Hash, PartialOrd, Ord)]
pub enum ResidualKind {
    /// An exact element of the kernel.
    StructuralKernel,
    /// A real interval on the log-frequency line.
    TuningDeviation,
    /// A real measurement difference, with an uncertainty.
    EmpiricalFit,
    /// A real duration on the physical timeline.
    TemporalRealization,
    /// An exact structural duration lost to a device grid.
    Grid,
    /// A real control value, requested against encoded.
    DeviceControl,
    /// Symbolic notation information with no numeric value at all.
    Notation,
}

impl ResidualKind {
    /// Whether two residuals of this kind may be added: kernel elements,
    /// tuning deviations, physical durations and grid losses add; fits with
    /// uncertainties, device control values and notation do not.
    pub fn is_additive(self) -> (r: bool)
        ensures
            r == (self is StructuralKernel || self is TuningDeviation || self is TemporalRealization
                || self is Grid),
    {
        match self {
            ResidualKind::StructuralKernel => true,
            ResidualKind::TuningDeviation => true,
            ResidualKind::TemporalRealization => true,
            ResidualKind::Grid => true,
            _ => false,
        }
    }
}

} // verus!
