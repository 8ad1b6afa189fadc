use lib::realization::plan::{PlannedEvent, RealtimeContract, MAX_MILLICENTS, MAX_TICK};
use lib::realization::provenance::FormatVersion;
use lib::realization::record::{Layer, RoundTripBasis, SaturationBehaviour};
use lib::realization::residual::ResidualKind;

#[test]
fn layers_between_two_others_come_in_pipeline_order() {
    assert_eq!(
        Layer::between(Layer::L0Notation, Layer::L4Device),
        vec![Layer::L1Exact, Layer::L2Quotient, Layer::L3Metric]
    );
    assert_eq!(Layer::between(Layer::L1Exact, Layer::L3Metric), vec![Layer::L2Quotient]);
    assert!(Layer::between(Layer::L1Exact, Layer::L2Quotient).is_empty(), "adjacent");
    assert!(Layer::between(Layer::L3Metric, Layer::L1Exact).is_empty(), "out of order");
    assert!(Layer::between(Layer::L2Quotient, Layer::L2Quotient).is_empty());
}

#[test]
fn only_some_residual_kinds_add() {
    assert!(ResidualKind::StructuralKernel.is_additive());
    assert!(ResidualKind::TuningDeviation.is_additive());
    assert!(ResidualKind::TemporalRealization.is_additive());
    assert!(ResidualKind::Grid.is_additive());
    assert!(!ResidualKind::EmpiricalFit.is_additive());
    assert!(!ResidualKind::DeviceControl.is_additive());
    assert!(!ResidualKind::Notation.is_additive());
}

#[test]
fn a_planned_event_ends_one_past_its_last_tick() {
    let event = PlannedEvent { onset_tick: 1920, duration_ticks: 480, millicents: Some(70_000), voice: 0 };
    assert_eq!(event.end_tick(), 2400);
    let long = PlannedEvent { onset_tick: u32::MAX - 1, duration_ticks: 5, millicents: None, voice: 1 };
    assert_eq!(long.end_tick(), u32::MAX, "saturates rather than wrapping");
    assert_eq!(MAX_TICK, u32::MAX / 2);
    assert_eq!(MAX_MILLICENTS, 24_000_000);
}

#[test]
fn a_realtime_contract_is_satisfied_only_when_every_guarantee_holds() {
    let all = RealtimeContract {
        no_allocation_on_read: true,
        no_arbitrary_precision: true,
        bounded_ranges_validated: true,
        device_mapping_resolved: true,
        events_sorted: true,
    };
    assert!(all.is_satisfied());
    let unsorted = RealtimeContract { events_sorted: false, ..all };
    assert!(!unsorted.is_satisfied());
}

#[test]
fn record_vocabulary_is_plain_data() {
    let basis = RoundTripBasis::InjectiveOnDomain { domain: "12-EDO classes".into() };
    assert_ne!(basis, RoundTripBasis::SourceRetained);
    assert_ne!(RoundTripBasis::NotReversible, RoundTripBasis::SourceRetained);
    assert_eq!(SaturationBehaviour::Declared("fold".into()), SaturationBehaviour::Declared("fold".into()));
    assert_ne!(SaturationBehaviour::Clamp, SaturationBehaviour::Wrap);
    let version = FormatVersion { format: "mei".into(), version: "5.0".into() };
    assert_eq!(version.clone(), version);
    assert_ne!(SaturationBehaviour::Reject, SaturationBehaviour::Clamp);
}
