use lib::algebra::Q;
use lib::error::TimeError;
use lib::time::beat::{BeatDuration, BeatSpan, BeatTime, RawBeatSpan};
use lib::time::meter::{LevelNumbering, Meter, RawMeter, TimeSignature};
use lib::time::rhythm::{CyclicRhythm, RawCyclicRhythm, RawRhythmTree, RhythmTree};

#[test]
fn a_span_round_trips_through_its_wire_form() {
    let span = BeatSpan::new(BeatTime::ratio(1, 3).unwrap(), BeatTime::ratio(3, 2).unwrap()).unwrap();
    let raw = RawBeatSpan::from(span);
    assert_eq!(raw.start, BeatTime::ratio(1, 3).unwrap());
    assert_eq!(raw.end, BeatTime::ratio(3, 2).unwrap());
    assert_eq!(BeatSpan::try_from(raw), Ok(span));
}

#[test]
fn a_reversed_wire_span_is_rejected() {
    let raw = RawBeatSpan {
        start: BeatTime::ratio(2, 1).unwrap(),
        end: BeatTime::ratio(1, 1).unwrap(),
    };
    assert_eq!(BeatSpan::try_from(raw), Err(TimeError::ReversedBeatSpan));
    let instant = RawBeatSpan {
        start: BeatTime::ratio(1, 1).unwrap(),
        end: BeatTime::ratio(1, 1).unwrap(),
    };
    assert!(BeatSpan::try_from(instant).unwrap().is_instant());
}

#[test]
fn a_cycle_round_trips_and_its_wire_onsets_are_normalised() {
    let cycle = CyclicRhythm::new(8, &[0, 3, 6], 3).unwrap();
    let raw = RawCyclicRhythm::from(CyclicRhythm::new(8, &[0, 3, 6], 3).unwrap());
    assert_eq!(raw.pulses, 8);
    assert_eq!(raw.onsets, vec![0, 3, 6]);
    assert_eq!(raw.rotation, 3);
    assert_eq!(CyclicRhythm::try_from(raw), Ok(cycle));

    let messy = RawCyclicRhythm { pulses: 8, onsets: vec![6, 0, 3, 3], rotation: 0 };
    let tidy = CyclicRhythm::try_from(messy).unwrap();
    assert_eq!(tidy.onsets(), &[0, 3, 6]);
}

#[test]
fn a_wire_cycle_is_revalidated() {
    let outside = RawCyclicRhythm { pulses: 4, onsets: vec![1, 5], rotation: 0 };
    assert_eq!(
        CyclicRhythm::try_from(outside),
        Err(TimeError::OnsetOutsideCycle { index: 5, pulses: 4 })
    );
    let empty = RawCyclicRhythm { pulses: 0, onsets: vec![], rotation: 0 };
    assert_eq!(CyclicRhythm::try_from(empty), Err(TimeError::EmptyCycle));
    let rotated_out = RawCyclicRhythm { pulses: 4, onsets: vec![0], rotation: 4 };
    assert_eq!(
        CyclicRhythm::try_from(rotated_out),
        Err(TimeError::OnsetOutsideCycle { index: 4, pulses: 4 })
    );
}

#[test]
fn a_meter_round_trips_through_its_wire_form() {
    let meter = Meter::compound(TimeSignature::new(6, 8).unwrap()).unwrap();
    let raw = RawMeter::from(Meter::compound(TimeSignature::new(6, 8).unwrap()).unwrap());
    assert_eq!(raw.levels, vec![vec![0, 1, 2, 3, 4, 5], vec![0, 3], vec![0]]);
    assert_eq!(raw.pulses, 6);
    assert_eq!(raw.signature, Some(TimeSignature::new(6, 8).unwrap()));
    assert_eq!(Meter::try_from(raw), Ok(meter));
}

#[test]
fn a_wire_meter_is_revalidated() {
    let pulse = BeatDuration::ratio(1, 2).unwrap();
    let not_nested = RawMeter {
        signature: None,
        pulse,
        pulses: 6,
        levels: vec![vec![0, 1, 2, 3, 4, 5], vec![0, 3], vec![1]],
        numbering: LevelNumbering::FinestIsZero,
    };
    assert_eq!(Meter::try_from(not_nested), Err(TimeError::LevelNotNested { level: 2 }));

    // The finest level is always the full lattice, whatever the wire says.
    let sparse_base = RawMeter {
        signature: None,
        pulse,
        pulses: 4,
        levels: vec![vec![0], vec![2, 0]],
        numbering: LevelNumbering::FinestIsZero,
    };
    let meter = Meter::try_from(sparse_base).unwrap();
    assert_eq!(meter.level(0).unwrap(), &[0, 1, 2, 3]);
    assert_eq!(meter.level(1).unwrap(), &[0, 2]);

    let no_cycle = RawMeter {
        signature: None,
        pulse,
        pulses: 0,
        levels: vec![],
        numbering: LevelNumbering::FinestIsZero,
    };
    assert_eq!(Meter::try_from(no_cycle), Err(TimeError::EmptyCycle));
}

#[test]
fn a_rhythm_tree_round_trips_through_its_wire_form() {
    let inner = RhythmTree::additive(&[1, 2]).unwrap();
    let tree = RhythmTree::division(vec![inner, RhythmTree::leaf(3).unwrap()]).unwrap();
    let raw = RawRhythmTree::from(RhythmTree::division(vec![
        RhythmTree::additive(&[1, 2]).unwrap(),
        RhythmTree::leaf(3).unwrap(),
    ])
    .unwrap());
    assert_eq!(raw.weight, Q::integer(1));
    assert_eq!(raw.children.len(), 2);
    assert_eq!(raw.children[0].children[1].weight, Q::integer(2));
    assert_eq!(raw.children[1].weight, Q::integer(3));
    assert!(raw.children[1].children.is_empty());
    assert_eq!(RhythmTree::try_from(raw), Ok(tree));
}

#[test]
fn a_wire_tree_with_a_non_positive_weight_anywhere_is_rejected() {
    let raw = RawRhythmTree {
        weight: Q::integer(1),
        children: vec![
            RawRhythmTree { weight: Q::integer(1), children: vec![] },
            RawRhythmTree {
                weight: Q::integer(2),
                children: vec![RawRhythmTree { weight: Q::new(-3, 2), children: vec![] }],
            },
        ],
    };
    assert_eq!(RhythmTree::try_from(raw), Err(TimeError::NonPositiveWeight));
    let fractional = RawRhythmTree { weight: Q::new(3, 2), children: vec![] };
    assert_eq!(RhythmTree::try_from(fractional).unwrap().weight(), Q::new(3, 2));
}
