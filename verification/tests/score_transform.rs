use lib::algebra::Q;
use lib::error::ScoreError;
use lib::realization::provenance::ProvenanceId;
use lib::score::id::EventId;
use lib::score::transform::{
    EventRelation, PitchTransform, ProvenanceChain, ScoreTransform, TimeTransform,
};
use lib::time::beat::{BeatTime, Beats};

fn id(name: &str) -> EventId {
    EventId::new(name)
}

fn add_i64(left: &i64, right: &i64) -> Result<i64, ScoreError> {
    Ok(left + right)
}

#[test]
fn a_relation_expresses_splits_and_merges() {
    // One event splits into two; two merge into one.
    let split = EventRelation::from_pairs(vec![
        (id("a"), id("x")),
        (id("a"), id("y")),
        (id("b"), id("z")),
        (id("c"), id("z")),
    ]);
    assert_eq!(split.images(&id("a")).len(), 2, "a split");
    assert_eq!(split.preimages(&id("z")).len(), 2, "a merge");
    assert!(!split.is_bijective());

    let renaming = EventRelation::from_pairs(vec![(id("a"), id("x")), (id("b"), id("y"))]);
    assert!(renaming.is_bijective());
}

#[test]
fn relations_compose_by_pullback_with_identity_neutral() {
    let first = EventRelation::from_pairs(vec![(id("a"), id("m")), (id("a"), id("n"))]);
    let second = EventRelation::from_pairs(vec![(id("m"), id("z")), (id("n"), id("z"))]);
    let composite = first.compose(&second);
    assert_eq!(composite.edges().len(), 2, "two routes from a to z");
    assert_eq!(composite.preimages(&id("z")).len(), 2);

    let identity = EventRelation::identity(&[&id("a")]);
    assert_eq!(identity.compose(&first), first);
    let middles = EventRelation::identity(&[&id("m"), &id("n")]);
    assert_eq!(first.compose(&middles), first);
}

#[test]
fn affine_time_transformations_compose() {
    // Double the durations, then shift by one beat.
    let augment = TimeTransform::scale(Q::integer(2)).unwrap();
    let shift = TimeTransform::shift(Beats::ratio(1, 1).unwrap());
    let both = augment.compose(&shift).unwrap().unwrap();

    let at = BeatTime::ratio(3, 1).unwrap();
    assert_eq!(
        both.apply(&at).unwrap(),
        shift.apply(&augment.apply(&at).unwrap()).unwrap(),
        "composition agrees with applying the two in order"
    );
    assert_eq!(both.apply(&at).unwrap().get(), Q::integer(7));

    // The other order is a different transformation, as it should be.
    let reversed = shift.compose(&augment).unwrap().unwrap();
    assert_ne!(reversed, both);
    assert_eq!(reversed.apply(&at).unwrap().get(), Q::integer(8));

    // Identity is neutral on both sides.
    let identity = TimeTransform::identity();
    assert_eq!(identity.compose(&both).unwrap().unwrap(), both);
    assert_eq!(both.compose(&identity).unwrap().unwrap(), both);
}

#[test]
fn a_non_positive_time_scale_is_rejected() {
    assert!(matches!(TimeTransform::scale(Q::integer(0)), Err(ScoreError::NonPositiveTimeScale)));
    assert!(TimeTransform::scale(Q::integer(-1)).is_err());
}

#[test]
fn transpositions_compose_by_adding() {
    let up_a_fifth = PitchTransform::Transpose(7i64);
    let up_a_fourth = PitchTransform::Transpose(5i64);
    let both = up_a_fifth.compose(&up_a_fourth, add_i64).unwrap().unwrap();
    assert_eq!(both, PitchTransform::Transpose(12));

    let identity = PitchTransform::Identity;
    assert_eq!(identity.compose(&up_a_fifth, add_i64).unwrap().unwrap(), up_a_fifth);
    assert_eq!(up_a_fifth.compose(&identity, add_i64).unwrap().unwrap(), up_a_fifth);
}

#[test]
fn the_compositional_claim_is_withdrawn_where_it_is_unearned() {
    let plain: ScoreTransform<i64> = ScoreTransform::new(
        EventRelation::identity(&[&id("a")]),
        PitchTransform::Transpose(2),
        TimeTransform::identity(),
        ProvenanceChain::of(ProvenanceId::new("p1")),
    );
    assert!(plain.claims_compositional());

    // A pitch change conditioned on metric position: legitimate, and not
    // composable here.
    let dependent: ScoreTransform<i64> = ScoreTransform::new(
        EventRelation::identity(&[&id("a")]),
        PitchTransform::Declared { name: String::from("umt:transform:metric-conditioned") },
        TimeTransform::identity(),
        ProvenanceChain::of(ProvenanceId::new("p2")),
    );
    assert!(!dependent.claims_compositional());
    assert!(
        plain.compose(&dependent, add_i64).is_none(),
        "the label is not offered without the operation"
    );
    assert!(dependent.compose(&plain, add_i64).is_none());

    // A declared temporal component is evaluated by nobody here.
    let declared_time: ScoreTransform<i64> = ScoreTransform::new(
        EventRelation::new(),
        PitchTransform::Identity,
        TimeTransform::Declared { name: String::from("umt:transform:rubato") },
        ProvenanceChain::new(),
    );
    assert!(!declared_time.claims_compositional());
    assert!(matches!(
        declared_time.time().apply(&BeatTime::zero()),
        Err(ScoreError::UncomposableTransform { .. })
    ));
}

#[test]
fn composition_is_associative_and_chains_provenance() {
    let make = |shift: i64, provenance: &str| -> ScoreTransform<i64> {
        ScoreTransform::new(
            EventRelation::identity(&[&id("a")]),
            PitchTransform::Transpose(shift),
            TimeTransform::shift(Beats::ratio(shift, 1).unwrap()),
            ProvenanceChain::of(ProvenanceId::new(provenance)),
        )
    };
    let (f, g, h) = (make(1, "p1"), make(2, "p2"), make(3, "p3"));

    let left = f
        .compose(&g, add_i64)
        .unwrap()
        .unwrap()
        .compose(&h, add_i64)
        .unwrap()
        .unwrap();
    let right = f
        .compose(&g.compose(&h, add_i64).unwrap().unwrap(), add_i64)
        .unwrap()
        .unwrap();
    assert_eq!(left, right);

    // Provenance composes by concatenation, oldest first.
    assert_eq!(
        left.provenance().steps(),
        &[ProvenanceId::new("p1"), ProvenanceId::new("p2"), ProvenanceId::new("p3")]
    );
    assert_eq!(left.pitch(), &PitchTransform::Transpose(6));
}

#[test]
fn the_identity_transformation_is_neutral() {
    let identity: ScoreTransform<i64> = ScoreTransform::identity(&[&id("a")]);
    assert!(identity.claims_compositional());
    assert_eq!(identity.pitch(), &PitchTransform::Identity);
    assert_eq!(identity.time(), &TimeTransform::identity());

    let transform: ScoreTransform<i64> = ScoreTransform::new(
        EventRelation::identity(&[&id("a")]),
        PitchTransform::Transpose(4),
        TimeTransform::shift(Beats::ratio(2, 1).unwrap()),
        ProvenanceChain::new(),
    );
    assert_eq!(identity.compose(&transform, add_i64).unwrap().unwrap(), transform);
    assert_eq!(transform.compose(&identity, add_i64).unwrap().unwrap(), transform);
}

#[test]
fn a_failed_interval_addition_is_reported() {
    let refuse = |_: &i64, _: &i64| -> Result<i64, ScoreError> {
        Err(ScoreError::UncomposableTransform { component: String::from("mismatch") })
    };
    let up = PitchTransform::Transpose(1i64);
    assert!(matches!(up.compose(&up.clone(), refuse), Some(Err(ScoreError::UncomposableTransform { .. }))));
}

#[test]
fn a_composite_scale_that_leaves_storage_is_reported_and_small_ones_compose() {
    let huge: ScoreTransform<i64> = ScoreTransform::new(
        EventRelation::new(),
        PitchTransform::Identity,
        TimeTransform::scale(Q::integer(i64::MAX)).unwrap(),
        ProvenanceChain::new(),
    );
    let double: ScoreTransform<i64> = ScoreTransform::new(
        EventRelation::new(),
        PitchTransform::Identity,
        TimeTransform::scale(Q::integer(2)).unwrap(),
        ProvenanceChain::new(),
    );
    assert_eq!(huge.compose(&double, add_i64), Some(Err(ScoreError::Overflow)));
    let composed = double.compose(&double, add_i64).unwrap().unwrap();
    assert_eq!(
        composed.time().apply(&BeatTime::ratio(3, 1).unwrap()),
        Ok(BeatTime::ratio(12, 1).unwrap())
    );
}
