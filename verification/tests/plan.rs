use lib::error::RealizationError;
use lib::realization::plan::{PerformancePlan, PlannedEvent, MAX_MILLICENTS, MAX_TICK};
use lib::realization::provenance::ProvenanceId;

fn note(onset: u32, duration: u32, millicents: i32, voice: u16) -> PlannedEvent {
    PlannedEvent {
        onset_tick: onset,
        duration_ticks: duration,
        millicents: Some(millicents),
        voice,
    }
}

fn plan() -> PerformancePlan<()> {
    PerformancePlan::builder(960)
        .reference_millicents(0)
        .event(note(1920, 480, 70_000, 0))
        .unwrap()
        .event(note(0, 960, 0, 0))
        .unwrap()
        .event(note(960, 960, 40_000, 1))
        .unwrap()
        .provenance(ProvenanceId::new("umt:prov:compile-1"))
        .build()
        .unwrap()
}

fn assert_send_sync<T: Send + Sync>() {}

#[test]
fn building_sorts_once_so_reading_can_seek() {
    let plan = plan();
    let onsets: Vec<u32> = plan.events().iter().map(|event| event.onset_tick).collect();
    assert_eq!(onsets, [0, 960, 1920], "inserted out of order, stored sorted");
    assert_eq!(plan.voice_count(), 2);
    assert_eq!(plan.ticks_per_beat(), 960);
    assert_eq!(plan.end_tick(), 2400);
}

#[test]
fn a_window_is_two_binary_searches_over_a_borrowed_slice() {
    let plan = plan();
    assert_eq!(plan.events_in(0, 960).len(), 1);
    assert_eq!(plan.events_in(960, 2400).len(), 2);
    assert_eq!(plan.events_in(2400, 9999).len(), 0);
    assert_eq!(plan.events_in(500, 500).len(), 0, "an empty window");
    assert_eq!(plan.events_in(1000, 100).len(), 0, "a reversed window");

    // The window really is a subslice of the plan's own storage: nothing
    // was copied to produce it.
    let window = plan.events_in(0, 3000);
    assert_eq!(window.as_ptr(), plan.events().as_ptr());
    assert_eq!(window.len(), plan.events().len());
}

#[test]
fn ranges_are_validated_at_build_time_so_readers_need_not_check() {
    let builder = PerformancePlan::<()>::builder(960);
    assert!(matches!(
        builder.clone().event(note(MAX_TICK, 1, 0, 0)),
        Err(RealizationError::TickOutOfRange { .. })
    ));
    assert!(matches!(
        builder.clone().event(note(0, 1, MAX_MILLICENTS + 1, 0)),
        Err(RealizationError::PitchOutOfRange { .. })
    ));
    assert!(builder.event(note(0, 1, -MAX_MILLICENTS, 0)).is_ok());
    assert!(matches!(
        PerformancePlan::<()>::builder(0).build(),
        Err(RealizationError::ZeroResolution)
    ));
}

#[test]
fn the_realtime_contract_is_a_value_not_a_marker_trait() {
    let contract = plan().realtime_contract();
    assert!(contract.is_satisfied());
    assert!(contract.no_allocation_on_read);
    assert!(contract.no_arbitrary_precision);
    assert!(contract.bounded_ranges_validated);
    assert!(contract.device_mapping_resolved);
    assert!(contract.events_sorted);
}

#[test]
fn a_plan_is_send_and_sync_so_it_can_cross_to_the_audio_thread() {
    assert_send_sync::<PerformancePlan<()>>();
    assert_send_sync::<PlannedEvent>();
}

#[test]
fn control_events_are_instants_without_pitch() {
    let plan = PerformancePlan::<Vec<u64>>::builder(96)
        .event(PlannedEvent {
            onset_tick: 0,
            duration_ticks: 0,
            millicents: None,
            voice: 0,
        })
        .unwrap()
        .build()
        .unwrap();
    assert_eq!(plan.events()[0].millicents, None);
    assert_eq!(plan.events()[0].end_tick(), 0);
    assert!(plan.provenance().is_none());
    assert!(plan.residuals().is_empty());
}

#[test]
fn events_with_equal_onsets_are_ordered_by_duration_pitch_and_voice() {
    let plan = PerformancePlan::<()>::builder(480)
        .event(note(0, 480, 200, 1))
        .unwrap()
        .event(PlannedEvent { onset_tick: 0, duration_ticks: 480, millicents: None, voice: 3 })
        .unwrap()
        .event(note(0, 240, 900, 0))
        .unwrap()
        .event(note(0, 480, 200, 0))
        .unwrap()
        .build()
        .unwrap();
    let order: Vec<(u32, Option<i32>, u16)> = plan
        .events()
        .iter()
        .map(|e| (e.duration_ticks, e.millicents, e.voice))
        .collect();
    assert_eq!(
        order,
        vec![(240, Some(900), 0), (480, None, 3), (480, Some(200), 0), (480, Some(200), 1)]
    );
    assert_eq!(plan.voice_count(), 4);
    assert_eq!(plan.end_tick(), 480);
}

#[test]
fn an_event_ending_past_the_last_tick_is_refused_with_its_end() {
    let refused = PerformancePlan::<()>::builder(960).event(note(MAX_TICK - 1, 5, 0, 0));
    assert_eq!(
        refused.err(),
        Some(RealizationError::TickOutOfRange { tick: u64::from(MAX_TICK) + 4 })
    );
    let lowest = PerformancePlan::<()>::builder(960).event(note(0, 1, i32::MIN, 0));
    assert_eq!(
        lowest.err(),
        Some(RealizationError::PitchOutOfRange { millicents: i32::MIN })
    );
    let empty = PerformancePlan::<()>::builder(960).build().unwrap();
    assert_eq!(empty.end_tick(), 0);
    assert_eq!(empty.voice_count(), 0);
    assert!(empty.events_in(0, 10).is_empty());
}
