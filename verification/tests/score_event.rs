use lib::error::ScoreError;
use lib::realization::provenance::ProvenanceId;
use lib::score::event::{EventContent, GraceRule, ScoreEvent, TemporalPlacement};
use lib::score::id::{EventId, EventScope, StaffId, VoiceId};
use lib::time::beat::{BeatDuration, BeatTime, Beats};
use lib::time::constraint::TimeVarId;

fn voice() -> EventScope {
    EventScope::VoiceLocal(VoiceId::new("soprano"))
}

#[test]
fn a_fixed_placement_yields_an_exact_span() {
    let placement =
        TemporalPlacement::fixed(BeatTime::ratio(3, 2).unwrap(), BeatDuration::ratio(1, 3).unwrap());
    let span = placement.span().unwrap();
    assert_eq!(span.start(), BeatTime::ratio(3, 2).unwrap());
    assert_eq!(span.duration().unwrap(), Beats::ratio(1, 3).unwrap());
    assert!(placement.is_fixed());
    assert!(!placement.is_constrained());
    assert!(placement.variables().is_empty());
}

#[test]
fn a_constrained_placement_has_no_onset_to_offer() {
    let placement = TemporalPlacement::ConstraintPlacement {
        onset: TimeVarId::new("entry"),
        offset: Some(TimeVarId::new("entry-end")),
    };
    assert_eq!(placement.onset(), None, "and none is fabricated");
    assert_eq!(placement.span(), None);
    assert!(placement.is_constrained());
    assert_eq!(placement.variables().len(), 2);
}

#[test]
fn a_grace_placement_names_its_anchor_and_rule() {
    let placement =
        TemporalPlacement::Grace { anchor: EventId::new("e2"), rule: GraceRule::BeforeAnchor };
    assert!(!placement.is_fixed());
    assert_eq!(placement.span(), None);
    assert_ne!(GraceRule::BeforeAnchor, GraceRule::OnAnchor);
}

#[test]
fn a_rest_is_never_global() {
    let placement = TemporalPlacement::fixed(BeatTime::zero(), BeatDuration::one());
    assert!(matches!(
        ScoreEvent::<()>::new(
            EventId::new("r1"),
            EventScope::Global,
            placement.clone(),
            EventContent::Rest,
        ),
        Err(ScoreError::SoundingEventWithoutContext { .. })
    ));
    assert!(
        ScoreEvent::<()>::new(
            EventId::new("r1"),
            EventScope::StaffLocal(StaffId::new("upper")),
            placement.clone(),
            EventContent::Rest,
        )
        .is_ok(),
        "a staff context is enough"
    );
    assert!(ScoreEvent::<()>::new(EventId::new("r1"), voice(), placement, EventContent::Rest)
        .is_ok());
}

#[test]
fn a_note_is_never_global_either() {
    let placement = TemporalPlacement::fixed(BeatTime::zero(), BeatDuration::one());
    assert!(ScoreEvent::new(
        EventId::new("n1"),
        EventScope::Global,
        placement.clone(),
        EventContent::Note { pitch: 60u8 },
    )
    .is_err());
    assert!(ScoreEvent::<u8>::new(
        EventId::new("n1"),
        EventScope::Global,
        placement,
        EventContent::UnpitchedNote,
    )
    .is_err());
}

#[test]
fn a_global_control_event_needs_no_voice() {
    let event = ScoreEvent::<()>::new(
        EventId::new("tempo-1"),
        EventScope::Global,
        TemporalPlacement::fixed(BeatTime::zero(), BeatDuration::one()),
        EventContent::Control {
            declared_type: "umt:control:tempo".into(),
            value: "quarter = 120".into(),
        },
    )
    .unwrap();
    assert!(event.scope().is_global());
    assert_eq!(event.scope().voice(), None);
    assert!(!event.content().is_sounding());
    assert!(event.pitch().is_none());
}

#[test]
fn the_pitch_attachment_can_be_rewritten_without_touching_anything_else() {
    let event = ScoreEvent::new(
        EventId::new("n1"),
        voice(),
        TemporalPlacement::fixed(BeatTime::zero(), BeatDuration::one()),
        EventContent::Note { pitch: 7i64 },
    )
    .unwrap()
    .with_provenance(ProvenanceId::new("p1"));

    let rewritten: ScoreEvent<String> = event
        .clone()
        .try_map_pitch(|pitch| Ok::<_, core::convert::Infallible>(format!("{pitch}")))
        .unwrap();

    assert_eq!(rewritten.id(), event.id());
    assert_eq!(rewritten.scope(), event.scope());
    assert_eq!(rewritten.placement(), event.placement());
    assert_eq!(rewritten.provenance(), event.provenance());
    assert_eq!(rewritten.pitch().unwrap(), "7");
}

#[test]
fn a_failed_pitch_conversion_is_reported() {
    let event = ScoreEvent::new(
        EventId::new("n2"),
        voice(),
        TemporalPlacement::fixed(BeatTime::zero(), BeatDuration::one()),
        EventContent::Note { pitch: -1i64 },
    )
    .unwrap();
    let converted = event.try_map_pitch(|pitch| u8::try_from(pitch).map_err(|_| "negative"));
    assert_eq!(converted.err(), Some("negative"));
}
