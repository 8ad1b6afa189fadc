use lib::algebra::Q;
use lib::error::TimeError;
use lib::time::beat::{BeatDuration, BeatSpan, BeatTime, Beats};
use lib::time::meter::{Grouping, LayerRelation, LevelNumbering, Meter, MetricLayering, TimeSignature};

fn span(start: i64, end: i64) -> BeatSpan {
    BeatSpan::new(BeatTime::ratio(start, 1).unwrap(), BeatTime::ratio(end, 1).unwrap()).unwrap()
}

#[test]
fn f10_six_eight_and_three_four_share_a_span_and_differ_in_structure() {
    let six_eight = Meter::compound(TimeSignature::new(6, 8).unwrap()).unwrap();
    let three_four = Meter::simple(TimeSignature::new(3, 4).unwrap()).unwrap();

    // Same total span, same pulse resolution.
    assert_eq!(six_eight.period().unwrap(), Beats::ratio(3, 1).unwrap());
    assert_eq!(three_four.period().unwrap(), Beats::ratio(3, 1).unwrap());
    assert_eq!(six_eight.pulse_count(), 6);
    assert_eq!(three_four.pulse_count(), 6);
    assert_eq!(six_eight.pulse(), three_four.pulse());
    assert_eq!(*six_eight.pulse(), BeatDuration::ratio(1, 2).unwrap());

    // Different primary-beat point sets, in eighth-note units.
    assert_eq!(six_eight.primary_beat_pulses(), &[0, 3]);
    assert_eq!(three_four.primary_beat_pulses(), &[0, 2, 4]);
    assert_ne!(six_eight, three_four);

    // And therefore different metrical weights away from the downbeat.
    assert_eq!(six_eight.weight(0), 3, "downbeat, present at every level");
    assert_eq!(six_eight.weight(3), 2);
    assert_eq!(six_eight.weight(2), 1);
    assert_eq!(three_four.weight(2), 2);
    assert_eq!(three_four.weight(3), 1);

    // The exact structural time of the second primary beat differs.
    let origin = BeatTime::zero();
    assert_eq!(six_eight.pulse_time(&origin, 3).unwrap().get(), Q::new(3, 2));
    assert_eq!(three_four.pulse_time(&origin, 2).unwrap().get(), Q::integer(1));
}

#[test]
fn an_additive_meter_is_not_a_subgroup() {
    // 2+2+3 in eighths: primaries at {0, 2, 4} of a seven-pulse bar.
    let bar = Meter::additive(BeatDuration::ratio(1, 2).unwrap(), &[2, 2, 3]).unwrap();
    assert_eq!(bar.pulse_count(), 7);
    assert_eq!(bar.primary_beat_pulses(), &[0, 2, 4]);
    assert_eq!(bar.period().unwrap(), Beats::ratio(7, 2).unwrap());

    // 2 and 4 are primaries; 2 + 4 = 6 mod 7 is not.
    assert!(bar.primary_beat_pulses().contains(&2));
    assert!(bar.primary_beat_pulses().contains(&4));
    assert!(!bar.primary_beat_pulses().contains(&6));
}

#[test]
fn levels_must_nest_and_the_numbering_is_recorded() {
    let pulse = BeatDuration::ratio(1, 2).unwrap();
    // A level that is not a subset of the finer one below it.
    assert_eq!(
        Meter::new(pulse, 4, &[vec![0, 2], vec![1]], LevelNumbering::FinestIsZero),
        Err(TimeError::LevelNotNested { level: 2 })
    );
    // A pulse index outside the period.
    assert!(matches!(
        Meter::new(pulse, 4, &[vec![4]], LevelNumbering::FinestIsZero),
        Err(TimeError::OnsetOutsideCycle { .. })
    ));

    let meter = Meter::new(pulse, 4, &[vec![0, 2], vec![0]], LevelNumbering::FinestIsZero).unwrap();
    assert_eq!(meter.numbering(), LevelNumbering::FinestIsZero);
    assert_eq!(meter.level_count(), 3);
    assert_eq!(meter.level(0).unwrap(), &[0, 1, 2, 3]);
    assert_eq!(meter.level(2).unwrap(), &[0]);
    assert!(meter.level(3).is_none());
}

#[test]
fn time_signatures_validate_and_measure() {
    assert!(TimeSignature::new(0, 4).is_err());
    assert!(TimeSignature::new(4, 0).is_err());
    assert!(TimeSignature::new(4, 3).is_err(), "not a power of two");

    let four_four = TimeSignature::new(4, 4).unwrap();
    assert_eq!(four_four.pulse_duration(), BeatDuration::one());
    assert_eq!(four_four.bar_duration(), BeatDuration::ratio(4, 1).unwrap());
    assert_eq!(four_four.to_string(), "4/4");

    let six_eight = TimeSignature::new(6, 8).unwrap();
    assert_eq!(six_eight.bar_duration(), BeatDuration::ratio(3, 1).unwrap());

    // A compound constructor rejects a numerator that is not a multiple of
    // three, because that is what compound means.
    assert!(Meter::compound(TimeSignature::new(4, 8).unwrap()).is_err());
}

#[test]
fn grouping_is_separate_from_meter_and_can_precede_the_downbeat() {
    let bar_start = BeatTime::ratio(4, 1).unwrap();
    // A phrase beginning a beat before the barline: an anacrusis.
    let phrase = Grouping::leaf(span(3, 8)).labelled("phrase 1");
    assert!(phrase.is_anacrusis_to(&bar_start));
    assert_eq!(phrase.label(), Some("phrase 1"));

    // A group entirely after the reference is not.
    let later = Grouping::leaf(span(4, 8));
    assert!(!later.is_anacrusis_to(&bar_start));
}

#[test]
fn nested_groups_are_validated() {
    let outer = span(0, 8);
    let inside = || Grouping::leaf(span(0, 4));
    let after = Grouping::leaf(span(4, 8));
    assert!(Grouping::with_children(outer, vec![inside(), after]).is_ok());

    let overlapping = Grouping::leaf(span(3, 8));
    assert_eq!(
        Grouping::with_children(outer, vec![inside(), overlapping]),
        Err(TimeError::OverlappingGroups)
    );

    let escaping = Grouping::leaf(span(0, 9));
    assert_eq!(
        Grouping::with_children(outer, vec![escaping]),
        Err(TimeError::GroupOutsideParent)
    );
}

#[test]
fn polyrhythm_and_polymeter_are_distinguished_by_period() {
    let three_four = || Meter::simple(TimeSignature::new(3, 4).unwrap()).unwrap();
    let six_eight = Meter::compound(TimeSignature::new(6, 8).unwrap()).unwrap();
    let four_four = Meter::simple(TimeSignature::new(4, 4).unwrap()).unwrap();

    // Same period, different internal organization.
    let hemiola = MetricLayering::new(three_four(), six_eight);
    assert_eq!(hemiola.relation(), Some(LayerRelation::Polyrhythm));
    assert_eq!(hemiola.realignment_period().unwrap(), Beats::ratio(3, 1).unwrap());

    // Different periods: 3 beats against 4 realign after 12.
    let against = MetricLayering::new(three_four(), four_four);
    assert_eq!(against.relation(), Some(LayerRelation::Polymeter));
    assert_eq!(against.realignment_period().unwrap(), Beats::ratio(12, 1).unwrap());
}

#[test]
fn realignment_is_exact_for_fractional_periods() {
    // A seven-eighths bar against a three-quarters bar: 7/2 and 3 realign
    // after 21 beats.
    let seven_eight = Meter::additive(BeatDuration::ratio(1, 2).unwrap(), &[2, 2, 3]).unwrap();
    let three_four = Meter::simple(TimeSignature::new(3, 4).unwrap()).unwrap();
    let layering = MetricLayering::new(seven_eight, three_four);
    assert_eq!(layering.relation(), Some(LayerRelation::Polymeter));
    assert_eq!(
        layering.realignment_period().unwrap(),
        Beats::ratio(21, 1).unwrap(),
        "six seven-eight bars against seven three-four bars"
    );
}

#[test]
fn a_bar_spans_one_period_from_its_origin() {
    let three_four = Meter::simple(TimeSignature::new(3, 4).unwrap()).unwrap();
    let bar = three_four.bar_span(&BeatTime::ratio(2, 1).unwrap()).unwrap();
    assert_eq!(bar.start().get(), Q::integer(2));
    assert_eq!(bar.end().get(), Q::integer(5));
    assert_eq!(three_four.signature(), Some(TimeSignature::new(3, 4).unwrap()));
}

#[test]
fn the_first_failing_level_is_reported_and_range_comes_before_nesting() {
    let pulse = BeatDuration::ratio(1, 2).unwrap();
    // The first level is out of range; the second is not nested in it.
    assert_eq!(
        Meter::new(pulse, 4, &[vec![6, 5], vec![1]], LevelNumbering::FinestIsZero),
        Err(TimeError::OnsetOutsideCycle { index: 5, pulses: 4 })
    );
    // The first level is valid, the second both misses it and leaves the cycle.
    assert_eq!(
        Meter::new(pulse, 4, &[vec![0, 2], vec![1, 9]], LevelNumbering::FinestIsZero),
        Err(TimeError::OnsetOutsideCycle { index: 9, pulses: 4 })
    );
    assert_eq!(
        Meter::new(pulse, 4, &[vec![4]], LevelNumbering::FinestIsZero),
        Err(TimeError::OnsetOutsideCycle { index: 4, pulses: 4 })
    );
}
