//! The rate/duration orientation rule for exact tempo proportions.
//!
//! A bare `3/2` does not say whether it means "half again as fast" or "half
//! again as long", and those are opposite instructions. [`OrientedRatio`]
//! pairs the exact proportion with the quantity it multiplies, and applying
//! it to the reciprocal quantity inverts it, visibly and without the caller
//! having to remember. A rate ratio is never reused as a duration ratio
//! without that inversion.
use crate::algebra::{fits, lemma_den_product, rat_div, rat_eq, rat_mul, reduce, Q};
use crate::error::TimeError;
use crate::time::beat::{BeatDuration, Beats};
use vstd::prelude::*;

verus! {

broadcast use crate::algebra::lemma_q_view;

/// Which quantity an exact proportion multiplies.
#[derive(Debug, Clone, Copy, PartialEq, Eq, Hash, Structural)]
pub enum RatioOrientation {
    /// The ratio multiplies a rate: larger means faster.
    Rate,
    /// The ratio multiplies a duration: larger means longer.
    Duration,
}

/// The opposite orientation.
pub open spec fn flip(o: RatioOrientation) -> RatioOrientation {
    match o {
        RatioOrientation::Rate => RatioOrientation::Duration,
        RatioOrientation::Duration => RatioOrientation::Rate,
    }
}

/// The reciprocal of a positive pair, as the pair with its terms swapped.
pub open spec fn inverse(p: (int, int)) -> (int, int) {
    (p.1, p.0)
}

impl RatioOrientation {
    /// The opposite orientation.
    pub fn flipped(self) -> (r: RatioOrientation)
        ensures
            r == flip(self),
    {
        match self {
            RatioOrientation::Rate => RatioOrientation::Duration,
            RatioOrientation::Duration => RatioOrientation::Rate,
        }
    }
}

/// An exact positive proportion together with the quantity it multiplies.
/// There is no way to apply a bare rational to both a rate and a duration.
#[derive(Debug, Clone, Copy, PartialEq, Eq, Structural)]
pub struct OrientedRatio {
    ratio: Q,
    orientation: RatioOrientation,
}

/// The factor a proportion applies to a rate.
pub open spec fn rate_factor_of(ratio: (int, int), orientation: RatioOrientation) -> (int, int) {
    match orientation {
        RatioOrientation::Rate => ratio,
        RatioOrientation::Duration => inverse(ratio),
    }
}

/// The factor a proportion applies to a duration.
pub open spec fn duration_factor_of(ratio: (int, int), orientation: RatioOrientation) -> (
    int,
    int,
) {
    match orientation {
        RatioOrientation::Rate => inverse(ratio),
        RatioOrientation::Duration => ratio,
    }
}

impl OrientedRatio {
    #[verifier::type_invariant]
    spec fn inv(self) -> bool {
        self.ratio@.0 > 0
    }

    /// The exact proportion.
    pub closed spec fn ratio_view(&self) -> (int, int) {
        self.ratio@
    }

    /// What the proportion multiplies.
    pub closed spec fn orientation_view(&self) -> RatioOrientation {
        self.orientation
    }

    /// Declares a positive exact proportion and what it multiplies. A
    /// proportion acts on positive quantities, and a non-positive one has no
    /// meaning here.
    pub fn new(ratio: Q, orientation: RatioOrientation) -> (r: Result<OrientedRatio, TimeError>)
        ensures
            r is Ok <==> ratio@.0 > 0,
            r is Err ==> r == Err::<OrientedRatio, TimeError>(TimeError::NonPositiveRatio),
            r matches Ok(o) ==> o.ratio_view() == ratio@ && o.orientation_view() == orientation,
    {
        if !ratio.is_positive() {
            return Err(TimeError::NonPositiveRatio);
        }
        Ok(OrientedRatio { ratio, orientation })
    }

    /// The exact proportion, as declared; it is strictly positive.
    pub fn ratio(&self) -> (r: &Q)
        ensures
            r@ == self.ratio_view(),
            r@.0 > 0,
    {
        proof {
            use_type_invariant(self);
        }
        &self.ratio
    }

    /// What the proportion was declared to multiply.
    pub fn orientation(&self) -> (r: RatioOrientation)
        ensures
            r == self.orientation_view(),
    {
        self.orientation
    }

    /// The same proportion, re-expressed for the reciprocal quantity: the
    /// ratio inverts and the orientation flips, so the two forms describe the
    /// same change.
    pub fn reoriented(&self) -> (r: OrientedRatio)
        ensures
            r.ratio_view() == inverse(self.ratio_view()),
            r.orientation_view() == flip(self.orientation_view()),
    {
        proof {
            use_type_invariant(self);
        }
        OrientedRatio { ratio: self.ratio.recip(), orientation: self.orientation.flipped() }
    }

    /// The factor this proportion applies to a rate.
    pub fn rate_factor(&self) -> (r: Q)
        ensures
            r@ == rate_factor_of(self.ratio_view(), self.orientation_view()),
    {
        proof {
            use_type_invariant(self);
        }
        match self.orientation {
            RatioOrientation::Rate => self.ratio,
            RatioOrientation::Duration => self.ratio.recip(),
        }
    }

    /// The factor this proportion applies to a duration.
    pub fn duration_factor(&self) -> (r: Q)
        ensures
            r@ == duration_factor_of(self.ratio_view(), self.orientation_view()),
    {
        proof {
            use_type_invariant(self);
        }
        match self.orientation {
            RatioOrientation::Rate => self.ratio.recip(),
            RatioOrientation::Duration => self.ratio,
        }
    }

    /// Applies this proportion to an exact structural duration; the result
    /// is an error only where it leaves the stored range.
    pub fn scale_duration(&self, duration: &BeatDuration) -> (r: Result<BeatDuration, TimeError>)
        ensures
            r is Ok <==> fits(
                reduce(rat_mul(duration@, duration_factor_of(self.ratio_view(), self.orientation_view()))),
            ),
            r is Err ==> r == Err::<BeatDuration, TimeError>(TimeError::Overflow),
            r matches Ok(d) ==> d@ == reduce(
                rat_mul(duration@, duration_factor_of(self.ratio_view(), self.orientation_view())),
            ),
    {
        proof {
            use_type_invariant(self);
        }
        duration.scale(&self.duration_factor())
    }

    /// Applies this proportion to a signed exact duration; `None` where the
    /// result leaves the stored range.
    pub fn scale_signed_duration(&self, duration: &Beats) -> (r: Option<Beats>)
        ensures
            r is Some <==> fits(
                reduce(rat_mul(duration@, duration_factor_of(self.ratio_view(), self.orientation_view()))),
            ),
            r matches Some(b) ==> b@ == reduce(
                rat_mul(duration@, duration_factor_of(self.ratio_view(), self.orientation_view())),
            ),
    {
        duration.scale(&self.duration_factor())
    }
}

/// Reorienting twice gives back the declared proportion.
pub proof fn law_reorienting_twice_is_identity(ratio: (int, int), orientation: RatioOrientation)
    ensures
        inverse(inverse(ratio)) == ratio,
        flip(flip(orientation)) == orientation,
{
}

/// Reorienting describes the same change: it applies the same factor to a
/// rate and the same factor to a duration.
pub proof fn law_reorienting_keeps_the_change(ratio: (int, int), orientation: RatioOrientation)
    ensures
        rate_factor_of(inverse(ratio), flip(orientation)) == rate_factor_of(ratio, orientation),
        duration_factor_of(inverse(ratio), flip(orientation)) == duration_factor_of(
            ratio,
            orientation,
        ),
{
}

/// A proportion's rate factor and duration factor are reciprocal: whatever
/// makes a rate faster makes the corresponding duration shorter by the same
/// proportion.
pub proof fn law_rate_and_duration_factors_are_reciprocal(ratio: (int, int), orientation: RatioOrientation)
    requires
        ratio.0 > 0,
        ratio.1 > 0,
    ensures
        rat_eq(
            rat_mul(rate_factor_of(ratio, orientation), duration_factor_of(ratio, orientation)),
            (1int, 1int),
        ),
        rate_factor_of(ratio, orientation) == rat_div((1int, 1int), duration_factor_of(ratio, orientation)),
{
    let (a, b) = (ratio.0, ratio.1);
    assert((a * b) * 1 == 1 * (b * a)) by (nonlinear_arith);
    lemma_den_product(a, b);
}

} // verus!
