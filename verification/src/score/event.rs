//! Score events: an identity, a scope, a temporal placement and content.
//!
//! A placement is one of three variants and never two at once, so an event
//! cannot carry a fixed onset and unsolved placement variables together. An
//! event whose onset is only constrained carries variables, and no rational
//! onset is fabricated for it.
use crate::algebra::{fits, rat_add, reduce};
use crate::error::ScoreError;
use crate::realization::provenance::ProvenanceId;
use crate::score::id::{EventId, EventScope};
use crate::time::beat::{BeatDuration, BeatSpan, BeatTime};
use crate::time::constraint::TimeVarId;
use vstd::prelude::*;

verus! {

/// How a grace event relates to its anchor.
#[derive(Debug, Clone, Copy, PartialEq, Eq, Hash, Structural)]
pub enum GraceRule {
    /// Sounds before the anchor's notated onset.
    BeforeAnchor,
    /// Sounds at the anchor's onset, taking time from the anchor.
    OnAnchor,
    /// Unmeasured: the realization decides, under its own declared policy.
    Unmeasured,
}

/// Where an event sits on the structural timeline.
#[derive(Debug, PartialEq, Eq)]
pub enum TemporalPlacement {
    /// A fixed exact span: an onset and a positive structural duration.
    FixedSpan {
        /// The structural onset.
        onset: BeatTime,
        /// The structural duration.
        duration: BeatDuration,
    },
    /// Onset, and optionally offset, as temporal variables to be solved by a
    /// constraint network.
    ConstraintPlacement {
        /// The variable standing for the onset.
        onset: TimeVarId,
        /// The variable standing for the offset, where the event has one.
        offset: Option<TimeVarId>,
    },
    /// A grace event, placed relative to an anchor by a declared rule.
    Grace {
        /// The event this one is attached to.
        anchor: EventId,
        /// How it relates to the anchor.
        rule: GraceRule,
    },
}

impl Clone for TemporalPlacement {
    fn clone(&self) -> (r: Self)
        ensures
            r == *self,
    {
        match self {
            TemporalPlacement::FixedSpan { onset, duration } => TemporalPlacement::FixedSpan {
                onset: *onset,
                duration: *duration,
            },
            TemporalPlacement::ConstraintPlacement { onset, offset } => {
                let end = match offset {
                    Some(v) => Some(v.clone()),
                    None => None,
                };
                TemporalPlacement::ConstraintPlacement { onset: onset.clone(), offset: end }
            },
            TemporalPlacement::Grace { anchor, rule } => TemporalPlacement::Grace {
                anchor: anchor.clone(),
                rule: *rule,
            },
        }
    }
}

impl TemporalPlacement {
    /// A fixed span from an onset and a duration.
    pub fn fixed(onset: BeatTime, duration: BeatDuration) -> (r: TemporalPlacement)
        ensures
            r == (TemporalPlacement::FixedSpan { onset, duration }),
    {
        TemporalPlacement::FixedSpan { onset, duration }
    }

    /// The exact structural span of a fixed placement; `None` for a
    /// constrained or grace placement, and for a fixed one whose end leaves
    /// the stored range.
    pub fn span(&self) -> (r: Option<BeatSpan>)
        ensures
            match self {
                TemporalPlacement::FixedSpan { onset, duration } => {
                    &&& (r is Some <==> fits(reduce(rat_add(onset@, duration@))))
                    &&& (r matches Some(s) ==> s@ == (onset@, reduce(rat_add(onset@, duration@))))
                },
                _ => r is None,
            },
    {
        match self {
            TemporalPlacement::FixedSpan { onset, duration } => BeatSpan::from_duration(
                *onset,
                duration,
            ),
            _ => None,
        }
    }

    /// The exact structural onset, where the placement fixes one.
    pub fn onset(&self) -> (r: Option<&BeatTime>)
        ensures
            match self {
                TemporalPlacement::FixedSpan { onset, .. } => r == Some(onset),
                _ => r is None,
            },
    {
        match self {
            TemporalPlacement::FixedSpan { onset, .. } => Some(onset),
            _ => None,
        }
    }

    /// Whether this placement is fixed on the structural timeline.
    pub fn is_fixed(&self) -> (r: bool)
        ensures
            r == (self is FixedSpan),
    {
        match self {
            TemporalPlacement::FixedSpan { .. } => true,
            _ => false,
        }
    }

    /// Whether this placement awaits a temporal solve.
    pub fn is_constrained(&self) -> (r: bool)
        ensures
            r == (self is ConstraintPlacement),
    {
        match self {
            TemporalPlacement::ConstraintPlacement { .. } => true,
            _ => false,
        }
    }

    /// The temporal variables this placement refers to: the onset and then
    /// the offset of a constrained placement, none otherwise.
    pub fn variables(&self) -> (r: Vec<&TimeVarId>)
        ensures
            match self {
                TemporalPlacement::ConstraintPlacement { onset, offset } => match offset {
                    Some(end) => r@ == seq![onset, end],
                    None => r@ == seq![onset],
                },
                _ => r@.len() == 0,
            },
    {
        match self {
            TemporalPlacement::ConstraintPlacement { onset, offset } => {
                let mut out: Vec<&TimeVarId> = Vec::new();
                out.push(onset);
                match offset {
                    Some(end) => {
                        out.push(end);
                    },
                    None => {},
                }
                proof {
                    match offset {
                        Some(end) => {
                            assert(out@ =~= seq![onset, end]);
                        },
                        None => {
                            assert(out@ =~= seq![onset]);
                        },
                    }
                }
                out
            },
            _ => Vec::new(),
        }
    }
}

/// What an event is. Generic over the pitch attachment `P`.
#[derive(Debug, Clone, PartialEq, Eq)]
pub enum EventContent<P> {
    /// A pitched notehead.
    Note {
        /// Its structural pitch.
        pitch: P,
    },
    /// A notated note without determinate pitch.
    UnpitchedNote,
    /// A notated rest: an event in a voice or staff context, not the
    /// complement of sound.
    Rest,
    /// A control event: a declared type naming its semantics, and a value.
    Control {
        /// A declared identifier naming the control's semantics.
        declared_type: String,
        /// Its value, in the declared type's own vocabulary.
        value: String,
    },
    /// A structural marker: a rehearsal letter, a section boundary.
    Marker {
        /// The marker's label.
        label: String,
    },
}

/// `to` is `from` with its pitch rewritten by `convert`, and everything else
/// kept.
pub open spec fn content_mapped<P, R, F: FnOnce(P) -> Result<R, E>, E>(
    from: EventContent<P>,
    convert: F,
    to: EventContent<R>,
) -> bool {
    match from {
        EventContent::Note { pitch } => exists|q: R|
            call_ensures(convert, (pitch,), Ok::<R, E>(q)) && to == EventContent::<R>::Note {
                pitch: q,
            },
        EventContent::UnpitchedNote => to == EventContent::<R>::UnpitchedNote,
        EventContent::Rest => to == EventContent::<R>::Rest,
        EventContent::Control { declared_type, value } => to == EventContent::<R>::Control {
            declared_type,
            value,
        },
        EventContent::Marker { label } => to == EventContent::<R>::Marker { label },
    }
}

impl<P> EventContent<P> {
    /// Whether this content sounds, that is, is a note of some kind.
    pub fn is_sounding(&self) -> (r: bool)
        ensures
            r == (self is Note || self is UnpitchedNote),
    {
        match self {
            EventContent::Note { .. } => true,
            EventContent::UnpitchedNote => true,
            _ => false,
        }
    }

    /// Whether this content is a notated rest.
    pub fn is_rest(&self) -> (r: bool)
        ensures
            r == (self is Rest),
    {
        match self {
            EventContent::Rest => true,
            _ => false,
        }
    }

    /// The attached pitch, where there is one.
    pub fn pitch(&self) -> (r: Option<&P>)
        ensures
            match self {
                EventContent::Note { pitch } => r == Some(pitch),
                _ => r is None,
            },
    {
        match self {
            EventContent::Note { pitch } => Some(pitch),
            _ => None,
        }
    }

    /// Rewrites the pitch attachment; everything else is kept.
    pub fn try_map_pitch<R, F, E>(self, convert: F) -> (r: Result<EventContent<R>, E>) where
        F: FnOnce(P) -> Result<R, E>,

        requires
            self matches EventContent::Note { pitch } ==> call_requires(convert, (pitch,)),
        ensures
            r matches Ok(to) ==> content_mapped(self, convert, to),
            r matches Err(e) ==> (self matches EventContent::Note { pitch } && call_ensures(
                convert,
                (pitch,),
                Err::<R, E>(e),
            )),
    {
        match self {
            EventContent::Note { pitch } => {
                let converted = convert(pitch);
                match converted {
                    Ok(q) => Ok(EventContent::Note { pitch: q }),
                    Err(e) => Err(e),
                }
            },
            EventContent::UnpitchedNote => Ok(EventContent::UnpitchedNote),
            EventContent::Rest => Ok(EventContent::Rest),
            EventContent::Control { declared_type, value } => Ok(
                EventContent::Control { declared_type, value },
            ),
            EventContent::Marker { label } => Ok(EventContent::Marker { label }),
        }
    }
}

/// One event of a score, built through [`ScoreEvent::new`], which rejects a
/// sounding or resting event without a context.
#[derive(Debug, Clone, PartialEq, Eq)]
pub struct ScoreEvent<P> {
    id: EventId,
    scope: EventScope,
    placement: TemporalPlacement,
    content: EventContent<P>,
    provenance: Option<ProvenanceId>,
}

impl<P> ScoreEvent<P> {
    /// The event's identity.
    pub closed spec fn id_view(&self) -> EventId {
        self.id
    }

    /// What the event belongs to.
    pub closed spec fn scope_view(&self) -> EventScope {
        self.scope
    }

    /// Where the event sits.
    pub closed spec fn placement_view(&self) -> TemporalPlacement {
        self.placement
    }

    /// What the event is.
    pub closed spec fn content_view(&self) -> EventContent<P> {
        self.content
    }

    /// The provenance reference.
    pub closed spec fn provenance_view(&self) -> Option<ProvenanceId> {
        self.provenance
    }

    /// Builds an event; a note, an unpitched note or a rest needs a voice, a
    /// staff or a part.
    pub fn new(
        id: EventId,
        scope: EventScope,
        placement: TemporalPlacement,
        content: EventContent<P>,
    ) -> (r: Result<ScoreEvent<P>, ScoreError>)
        ensures
            r is Err <==> scope is Global && (content is Note || content is UnpitchedNote
                || content is Rest),
            r matches Err(e) ==> (e matches ScoreError::SoundingEventWithoutContext { event }
                && event@ == id@),
            r matches Ok(event) ==> {
                &&& event.id_view() == id
                &&& event.scope_view() == scope
                &&& event.placement_view() == placement
                &&& event.content_view() == content
                &&& event.provenance_view() is None
            },
    {
        if scope.is_global() && (content.is_sounding() || content.is_rest()) {
            return Err(ScoreError::SoundingEventWithoutContext { event: id });
        }
        Ok(ScoreEvent { id, scope, placement, content, provenance: None })
    }

    /// Attaches a provenance reference.
    pub fn with_provenance(self, provenance: ProvenanceId) -> (r: ScoreEvent<P>)
        ensures
            r.id_view() == self.id_view(),
            r.scope_view() == self.scope_view(),
            r.placement_view() == self.placement_view(),
            r.content_view() == self.content_view(),
            r.provenance_view() == Some(provenance),
    {
        ScoreEvent { provenance: Some(provenance), ..self }
    }

    /// The event's identity.
    pub fn id(&self) -> (r: &EventId)
        ensures
            *r == self.id_view(),
    {
        &self.id
    }

    /// What the event belongs to.
    pub fn scope(&self) -> (r: &EventScope)
        ensures
            *r == self.scope_view(),
    {
        &self.scope
    }

    /// Where the event sits on the structural timeline.
    pub fn placement(&self) -> (r: &TemporalPlacement)
        ensures
            *r == self.placement_view(),
    {
        &self.placement
    }

    /// What the event is.
    pub fn content(&self) -> (r: &EventContent<P>)
        ensures
            *r == self.content_view(),
    {
        &self.content
    }

    /// The provenance of this event, if it has one.
    pub fn provenance(&self) -> (r: Option<&ProvenanceId>)
        ensures
            match self.provenance_view() {
                Some(p) => r == Some(&p),
                None => r is None,
            },
    {
        match &self.provenance {
            Some(p) => Some(p),
            None => None,
        }
    }

    /// The exact structural span, where the placement fixes one.
    pub fn span(&self) -> (r: Option<BeatSpan>)
        ensures
            match self.placement_view() {
                TemporalPlacement::FixedSpan { onset, duration } => {
                    &&& (r is Some <==> fits(reduce(rat_add(onset@, duration@))))
                    &&& (r matches Some(s) ==> s@ == (onset@, reduce(rat_add(onset@, duration@))))
                },
                _ => r is None,
            },
    {
        self.placement.span()
    }

    /// The attached pitch, where there is one.
    pub fn pitch(&self) -> (r: Option<&P>)
        ensures
            match self.content_view() {
                EventContent::Note { pitch } => r == Some(&pitch),
                _ => r is None,
            },
    {
        self.content.pitch()
    }

    /// Rewrites the pitch attachment, keeping everything else.
    pub fn try_map_pitch<R, F, E>(self, convert: F) -> (r: Result<ScoreEvent<R>, E>) where
        F: FnOnce(P) -> Result<R, E>,

        requires
            self.content_view() matches EventContent::Note { pitch } ==> call_requires(
                convert,
                (pitch,),
            ),
        ensures
            r matches Ok(event) ==> {
                &&& event.id_view() == self.id_view()
                &&& event.scope_view() == self.scope_view()
                &&& event.placement_view() == self.placement_view()
                &&& event.provenance_view() == self.provenance_view()
                &&& content_mapped(self.content_view(), convert, event.content_view())
            },
            r matches Err(e) ==> (self.content_view() matches EventContent::Note { pitch }
                && call_ensures(convert, (pitch,), Err::<R, E>(e))),
    {
        let ScoreEvent { id, scope, placement, content, provenance } = self;
        match content.try_map_pitch(convert) {
            Ok(content) => Ok(ScoreEvent { id, scope, placement, content, provenance }),
            Err(e) => Err(e),
        }
    }
}

} // verus!
