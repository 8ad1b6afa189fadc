use lib::algebra::Q;
use lib::error::TimeError;
use lib::time::beat::{BeatDuration, Beats};
use lib::time::rate::{OrientedRatio, RatioOrientation};

fn three_halves(orientation: RatioOrientation) -> OrientedRatio {
    OrientedRatio::new(Q::new(3, 2), orientation).unwrap()
}

#[test]
fn the_same_numeral_declared_the_other_way_means_the_opposite() {
    let faster = three_halves(RatioOrientation::Rate);
    let longer = three_halves(RatioOrientation::Duration);
    assert_ne!(faster, longer, "the numeral alone does not determine it");

    let beat = BeatDuration::one();
    assert_eq!(longer.scale_duration(&beat).unwrap().get(), Q::new(3, 2));
    assert_eq!(faster.scale_duration(&beat).unwrap().get(), Q::new(2, 3));

    // Reorienting is the identity on the physical change.
    let reoriented = faster.reoriented();
    assert_eq!(reoriented.orientation(), RatioOrientation::Duration);
    assert_eq!(reoriented.duration_factor(), faster.duration_factor());
    assert_eq!(reoriented.rate_factor(), faster.rate_factor());
    assert_eq!(reoriented.reoriented(), faster);
}

#[test]
fn a_non_positive_proportion_is_rejected() {
    assert_eq!(
        OrientedRatio::new(Q::integer(0), RatioOrientation::Rate),
        Err(TimeError::NonPositiveRatio)
    );
    assert!(OrientedRatio::new(Q::integer(-3), RatioOrientation::Duration).is_err());
}

#[test]
fn a_metric_modulation_chain_is_exact() {
    let mut duration = BeatDuration::one();
    for (numer, denom) in [(3, 2), (5, 4), (4, 5), (2, 3)] {
        let step = OrientedRatio::new(Q::new(numer, denom), RatioOrientation::Rate).unwrap();
        duration = step.scale_duration(&duration).unwrap();
    }
    assert_eq!(duration, BeatDuration::one());
}

#[test]
fn a_rate_ratio_inverts_when_it_crosses_to_a_duration() {
    let faster = three_halves(RatioOrientation::Rate);
    assert_eq!(faster.rate_factor().numer(), 3);
    assert_eq!(faster.duration_factor(), Q::new(2, 3));
    assert_eq!(faster.ratio(), &Q::new(3, 2));
    assert_eq!(RatioOrientation::Rate.flipped(), RatioOrientation::Duration);
}

#[test]
fn a_signed_duration_follows_the_duration_factor() {
    let twice = OrientedRatio::new(Q::integer(2), RatioOrientation::Rate).unwrap();
    let back = Beats::ratio(-3, 1).unwrap();
    assert_eq!(twice.scale_signed_duration(&back).unwrap(), Beats::ratio(-3, 2).unwrap());
    let longer = OrientedRatio::new(Q::integer(2), RatioOrientation::Duration).unwrap();
    assert_eq!(longer.scale_signed_duration(&back).unwrap(), Beats::ratio(-6, 1).unwrap());
}

#[test]
fn factors_of_a_proportion_multiply_to_one() {
    let r = OrientedRatio::new(Q::new(5, 4), RatioOrientation::Duration).unwrap();
    let product = r.rate_factor().checked_mul(&r.duration_factor()).unwrap();
    assert_eq!(product, Q::integer(1));
}
