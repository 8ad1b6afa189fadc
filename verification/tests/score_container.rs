use lib::algebra::Q;
use lib::error::ScoreError;
use lib::score::container::{loss_set_description, Score, ScoreContext, Tie};
use lib::score::event::{EventContent, GraceRule, ScoreEvent, TemporalPlacement};
use lib::score::id::{EventId, EventScope, VoiceId};
use lib::time::beat::{BeatDuration, BeatTime, Beats};
use lib::time::constraint::{DifferenceConstraint, StpProblem, TimeVarId};

// Pitches here are plain step numbers standing in for structural pitch
// points: the score is generic over its pitch attachment.

fn soprano() -> EventScope {
    EventScope::VoiceLocal(VoiceId::new("soprano"))
}

fn note(id: &str, onset: i64, duration: i64, step: i64) -> ScoreEvent<i64> {
    ScoreEvent::new(
        EventId::new(id),
        soprano(),
        TemporalPlacement::fixed(
            BeatTime::ratio(onset, 1).unwrap(),
            BeatDuration::ratio(duration, 1).unwrap(),
        ),
        EventContent::Note { pitch: step },
    )
    .unwrap()
}

#[test]
fn a_score_is_indexed_by_event_identity() {
    let score = Score::builder()
        .event(note("n1", 0, 2, 0))
        .unwrap()
        .event(note("n2", 2, 2, 7))
        .unwrap()
        .build()
        .unwrap();

    assert_eq!(score.len(), 2);
    assert!(!score.is_empty());
    assert_eq!(score.event(&EventId::new("n1")).unwrap().pitch(), Some(&0));
    assert!(score.event(&EventId::new("n3")).is_none());
    assert_eq!(score.to_string(), "score of 2 events, 0 ties");
}

#[test]
fn duplicate_event_identities_are_rejected() {
    let builder = Score::builder().event(note("n1", 0, 2, 0)).unwrap();
    assert!(matches!(
        builder.event(note("n1", 2, 2, 7)),
        Err(ScoreError::DuplicateEvent { .. })
    ));
}

#[test]
fn a_tie_relates_two_noteheads_and_merges_neither() {
    let score = Score::builder()
        .event(note("n1", 2, 2, 0))
        .unwrap()
        .event(note("n2", 4, 2, 0))
        .unwrap()
        .tie(Tie::new(EventId::new("n1"), EventId::new("n2")))
        .unwrap()
        .build()
        .unwrap();

    assert_eq!(score.len(), 2);
    assert_eq!(score.ties().len(), 1);
    assert!(score.event(&EventId::new("n1")).is_some());
    assert!(score.event(&EventId::new("n2")).is_some());

    let gestures = score.sounding_gestures().unwrap();
    assert_eq!(gestures.len(), 1);
    assert!(gestures[0].is_tied());
    assert_eq!(gestures[0].sources(), &[EventId::new("n1"), EventId::new("n2")]);
    assert_eq!(gestures[0].span().duration().unwrap(), Beats::ratio(4, 1).unwrap());
    assert_eq!(gestures[0].span().start(), BeatTime::ratio(2, 1).unwrap());
}

fn tie_base() -> lib::score::container::ScoreBuilder<i64> {
    Score::builder()
        .event(note("n1", 0, 2, 0))
        .unwrap()
        .event(note("n2", 2, 2, 0))
        .unwrap()
        .event(note("n3", 4, 2, 7))
        .unwrap()
        .event(
            ScoreEvent::new(
                EventId::new("r1"),
                soprano(),
                TemporalPlacement::fixed(BeatTime::ratio(6, 1).unwrap(), BeatDuration::one()),
                EventContent::Rest,
            )
            .unwrap(),
        )
        .unwrap()
        .event(
            ScoreEvent::new(
                EventId::new("n4"),
                EventScope::VoiceLocal(VoiceId::new("alto")),
                TemporalPlacement::fixed(
                    BeatTime::ratio(2, 1).unwrap(),
                    BeatDuration::ratio(2, 1).unwrap(),
                ),
                EventContent::Note { pitch: 0 },
            )
            .unwrap(),
        )
        .unwrap()
}

#[test]
fn ties_are_validated_against_what_a_tie_means() {
    assert!(matches!(
        tie_base().tie(Tie::new(EventId::new("n1"), EventId::new("n1"))),
        Err(ScoreError::SelfTie { .. })
    ));
    assert!(matches!(
        tie_base().tie(Tie::new(EventId::new("n1"), EventId::new("r1"))),
        Err(ScoreError::TieBetweenNonNotes { .. })
    ));
    assert!(matches!(
        tie_base().tie(Tie::new(EventId::new("n1"), EventId::new("n4"))),
        Err(ScoreError::TieAcrossScopes { .. })
    ));
    assert!(matches!(
        tie_base().tie(Tie::new(EventId::new("n1"), EventId::new("n3"))),
        Err(ScoreError::TiedPitchesDiffer { .. })
    ));
    assert!(matches!(
        tie_base().tie(Tie::new(EventId::new("n1"), EventId::new("ghost"))),
        Err(ScoreError::UnknownEvent { .. })
    ));
    assert!(tie_base().tie(Tie::new(EventId::new("n1"), EventId::new("n2"))).is_ok());
}

#[test]
fn a_tie_that_leaves_a_gap_is_reported() {
    let score = Score::builder()
        .event(note("n1", 0, 2, 0))
        .unwrap()
        .event(note("n2", 5, 2, 0))
        .unwrap()
        .tie(Tie::new(EventId::new("n1"), EventId::new("n2")))
        .unwrap()
        .build()
        .unwrap();
    assert!(matches!(
        score.sounding_gestures(),
        Err(ScoreError::MisorderedTie { .. })
    ));
}

#[test]
fn a_chain_of_three_ties_becomes_one_gesture() {
    let score = Score::builder()
        .event(note("n1", 0, 1, 0))
        .unwrap()
        .event(note("n2", 1, 1, 0))
        .unwrap()
        .event(note("n3", 2, 1, 0))
        .unwrap()
        .tie(Tie::new(EventId::new("n1"), EventId::new("n2")))
        .unwrap()
        .tie(Tie::new(EventId::new("n2"), EventId::new("n3")))
        .unwrap()
        .build()
        .unwrap();

    let gestures = score.sounding_gestures().unwrap();
    assert_eq!(gestures.len(), 1);
    assert_eq!(gestures[0].sources().len(), 3);
    assert_eq!(gestures[0].span().duration().unwrap(), Beats::ratio(3, 1).unwrap());
    assert_eq!(score.len(), 3, "and all three noteheads survive");
}

#[test]
fn rests_inactivity_and_silence_are_different_questions() {
    let score = Score::builder()
        .event(note("n1", 0, 2, 0))
        .unwrap()
        .event(
            ScoreEvent::new(
                EventId::new("r1"),
                soprano(),
                TemporalPlacement::fixed(BeatTime::ratio(2, 1).unwrap(), BeatDuration::one()),
                EventContent::Rest,
            )
            .unwrap(),
        )
        .unwrap()
        .build()
        .unwrap();

    let soprano_voice = VoiceId::new("soprano");
    assert_eq!(score.rests().len(), 1, "one notated rest");

    assert!(!score.voice_is_inactive(&soprano_voice, &BeatTime::ratio(1, 1).unwrap()));
    assert!(score.voice_is_inactive(&soprano_voice, &BeatTime::ratio(2, 1).unwrap()));
    assert!(
        score.voice_is_inactive(&soprano_voice, &BeatTime::ratio(9, 1).unwrap()),
        "inactive where nothing is notated, though no rest is written there"
    );

    assert!(score.voice_is_inactive(&VoiceId::new("bass"), &BeatTime::zero()));
}

#[test]
fn projections_declare_what_they_forget() {
    let score = Score::builder()
        .event(note("n1", 0, 2, 0))
        .unwrap()
        .event(
            ScoreEvent::new(
                EventId::new("tempo"),
                EventScope::Global,
                TemporalPlacement::fixed(BeatTime::zero(), BeatDuration::one()),
                EventContent::Control {
                    declared_type: "umt:control:tempo".into(),
                    value: "quarter = 120".into(),
                },
            )
            .unwrap(),
        )
        .unwrap()
        .build()
        .unwrap();

    let pitches = score.project_pitches();
    assert_eq!(pitches.value().len(), 1, "the control event has no pitch");
    assert!(!pitches.is_lossless());
    assert!(pitches.discarded().contains(&"ties"));
    assert!(pitches.discarded().contains(&"temporal placement"));

    let times = score.project_times();
    assert_eq!(times.value().len(), 2, "both events have a placement");
    assert!(times.discarded().contains(&"pitch"));
    assert_eq!(
        loss_set_description(times.discarded()),
        "pitch, event scope and voice identity, ties, shared context"
    );
}

#[test]
fn a_constrained_placement_needs_its_variable_declared() {
    let mut network = StpProblem::new();
    let cue = network.variable("cue");
    let entry = network.variable("entry");
    network
        .constrain(DifferenceConstraint::at_least(&cue, &entry, Q::integer(0)))
        .unwrap();

    let unmeasured = ScoreEvent::new(
        EventId::new("free"),
        soprano(),
        TemporalPlacement::ConstraintPlacement {
            onset: TimeVarId::new("entry"),
            offset: None,
        },
        EventContent::Note { pitch: 0 },
    )
    .unwrap();

    let context = ScoreContext {
        temporal: Some(network),
        ..ScoreContext::default()
    };
    let score = Score::builder()
        .event(unmeasured.clone())
        .unwrap()
        .context(context.clone())
        .build()
        .unwrap();
    assert_eq!(score.unmeasured_events().len(), 1);
    assert!(score.event(&EventId::new("free")).unwrap().span().is_none());

    let stray = ScoreEvent::new(
        EventId::new("stray"),
        soprano(),
        TemporalPlacement::ConstraintPlacement {
            onset: TimeVarId::new("nowhere"),
            offset: None,
        },
        EventContent::Note { pitch: 0 },
    )
    .unwrap();
    assert!(matches!(
        Score::builder().event(stray).unwrap().context(context).build(),
        Err(ScoreError::UndeclaredTemporalVariable { .. })
    ));
}

#[test]
fn grace_anchors_are_validated() {
    let grace = |id: &str, anchor: &str| {
        ScoreEvent::new(
            EventId::new(id),
            soprano(),
            TemporalPlacement::Grace {
                anchor: EventId::new(anchor),
                rule: GraceRule::BeforeAnchor,
            },
            EventContent::Note { pitch: 2 },
        )
        .unwrap()
    };

    assert!(matches!(
        Score::builder().event(grace("g1", "missing")).unwrap().build(),
        Err(ScoreError::UnknownEvent { .. })
    ));

    assert!(matches!(
        Score::builder()
            .event(note("n1", 0, 1, 0))
            .unwrap()
            .event(grace("g1", "n1"))
            .unwrap()
            .event(grace("g2", "g1"))
            .unwrap()
            .build(),
        Err(ScoreError::GraceAnchorIsGrace { .. })
    ));

    let score = Score::builder()
        .event(note("n1", 0, 1, 0))
        .unwrap()
        .event(grace("g1", "n1"))
        .unwrap()
        .build()
        .unwrap();
    assert!(score.event(&EventId::new("g1")).unwrap().span().is_none());
    assert_eq!(score.unmeasured_events().len(), 1);
}

#[test]
fn unmeasured_events_do_not_appear_as_gestures() {
    let score = Score::builder()
        .event(note("n1", 0, 1, 0))
        .unwrap()
        .event(
            ScoreEvent::new(
                EventId::new("free"),
                soprano(),
                TemporalPlacement::ConstraintPlacement {
                    onset: TimeVarId::new("entry"),
                    offset: None,
                },
                EventContent::Note { pitch: 4 },
            )
            .unwrap(),
        )
        .unwrap()
        .build()
        .unwrap();

    let gestures: Vec<_> = score.sounding_gestures().unwrap();
    assert_eq!(gestures.len(), 1, "only the measured note has a span");
    assert_eq!(score.unmeasured_events().len(), 1);
}

#[test]
fn events_are_kept_in_identity_order() {
    let score = Score::builder()
        .event(note("n3", 4, 1, 0))
        .unwrap()
        .event(note("n1", 0, 1, 0))
        .unwrap()
        .event(note("n2", 2, 1, 0))
        .unwrap()
        .build()
        .unwrap();
    let ids: Vec<String> = score.events().iter().map(|e| e.id().to_string()).collect();
    assert_eq!(ids, vec!["n1", "n2", "n3"]);
}

#[test]
fn gestures_starting_together_come_in_identity_order() {
    let score = Score::builder()
        .event(note("b", 0, 1, 0))
        .unwrap()
        .event(
            ScoreEvent::new(
                EventId::new("a"),
                EventScope::VoiceLocal(VoiceId::new("alto")),
                TemporalPlacement::fixed(BeatTime::zero(), BeatDuration::one()),
                EventContent::Note { pitch: 4 },
            )
            .unwrap(),
        )
        .unwrap()
        .event(note("c", 3, 1, 0))
        .unwrap()
        .build()
        .unwrap();
    let gestures = score.sounding_gestures().unwrap();
    assert_eq!(gestures.len(), 3);
    assert_eq!(gestures[0].sources(), &[EventId::new("a")]);
    assert_eq!(gestures[1].sources(), &[EventId::new("b")]);
    assert_eq!(gestures[2].sources(), &[EventId::new("c")]);
    assert_eq!(gestures[2].pitch(), Some(&0));
}
