//! Error types, one per layer.
use crate::score::id::EventId;
use crate::temperament::image::LatticeId;
use vstd::prelude::*;

verus! {

/// Errors of the structural time layer.
#[derive(Debug, Clone, PartialEq, Eq)]
pub enum TimeError {
    /// A ratio was given a zero denominator.
    ZeroDenominator,
    /// A duration that must be strictly positive was not.
    NonPositiveDuration,
    /// A span whose end precedes its start.
    ReversedBeatSpan,
    /// A weight that must be strictly positive was not.
    NonPositiveWeight,
    /// A division with no children.
    EmptyDivision,
    /// A cycle or grid with no pulses.
    EmptyCycle,
    /// An onset or rotation outside its cycle.
    OnsetOutsideCycle { index: u32, pulses: u32 },
    /// A proportion that must be strictly positive was not.
    NonPositiveRatio,
    /// A time signature with a zero numerator or a denominator that is not a power of two.
    InvalidTimeSignature { numerator: u32, denominator: u32 },
    /// A metric level not contained in the level below it.
    LevelNotNested { level: usize },
    /// A group that leaves its parent's span.
    GroupOutsideParent,
    /// Two sibling groups that overlap.
    OverlappingGroups,
    /// A negative number of ticks where a span is required.
    NegativeSpan,
    /// A constraint names a variable that was never declared.
    UnknownTimeVariable { variable: String },
    /// An elimination step would exceed its declared row budget.
    EliminationBudgetExceeded { budget: usize },
    /// A time outside the span it was looked up in.
    OutsideBeatSpan,
    /// An exact value left the 64-bit range that this implementation stores.
    Overflow,
}

/// Errors of the score layer.
#[derive(Debug, Clone, PartialEq, Eq)]
pub enum ScoreError {
    /// A note or rest with a global scope: sound and notated rests belong to a
    /// voice, a staff or a part.
    SoundingEventWithoutContext { event: EventId },
    /// Two events with one identity.
    DuplicateEvent { event: EventId },
    /// A reference to an event that is not in the score.
    UnknownEvent { event: EventId },
    /// A tie from an event to itself.
    SelfTie { event: EventId },
    /// A tie whose target does not follow its source.
    MisorderedTie { from: EventId, to: EventId },
    /// A tie between events that are not both notes.
    TieBetweenNonNotes { from: EventId, to: EventId },
    /// A tie between events of different scopes.
    TieAcrossScopes { from: EventId, to: EventId },
    /// A tie between different pitches.
    TiedPitchesDiffer { from: EventId, to: EventId },
    /// A grace event anchored to another grace event.
    GraceAnchorIsGrace { event: EventId },
    /// A placement variable that the temporal network does not declare.
    UndeclaredTemporalVariable { variable: String },
    /// A transformation component that does not compose.
    UncomposableTransform { component: String },
    /// A time scale factor that is not strictly positive.
    NonPositiveTimeScale,
    /// An exact value left the 64-bit range that this implementation stores.
    Overflow,
}

/// Errors of the realization layer.
#[derive(Debug, Clone, PartialEq, Eq)]
pub enum RealizationError {
    /// An event starts or ends past the largest tick a plan may reference.
    TickOutOfRange { tick: u64 },
    /// A pitch lies past the range a plan may reference.
    PitchOutOfRange { millicents: i32 },
    /// A plan resolution of zero ticks per beat, which is not a grid.
    ZeroResolution,
}

/// Errors of the temperament layer.
#[derive(Debug, Clone, PartialEq, Eq)]
pub enum TemperamentError {
    /// A coordinate vector of the wrong length for the lattice.
    CoordinateRank { expected: usize, found: usize },
    /// Operands from two different declared ambient lattices.
    AmbientMismatch { expected: LatticeId, found: LatticeId },
    /// A coordinate left the 64-bit range that this implementation stores.
    Overflow,
}

} // verus!
