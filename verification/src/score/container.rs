//! The score as an event-indexed object.
//!
//! A score maps event identities to events, and every other structure refers
//! to events by identity. The events are kept in identity order with no
//! identity twice.
//!
//! A tie relates two distinct noteheads and merges neither: the builder
//! records the relation and nothing else, and [`Score::sounding_gestures`] is
//! a separate derived view that combines a tie chain into one gesture while
//! the score keeps every notehead.
//!
//! Notated rests, voice inactivity and acoustic silence are three different
//! questions: [`Score::rests`] answers the first, [`Score::voice_is_inactive`]
//! the second, and the third belongs to a realization, not to a score.
use crate::algebra::{fits, rat_add, rat_eq, rat_le, rat_lt, reduce};
use vstd::set_lib::{lemma_int_range, lemma_len_subset, set_int_range};
use crate::error::ScoreError;
use crate::realization::provenance::ProvenanceId;
use crate::text::{decimal, decimal_text_usize};
use crate::score::event::{EventContent, ScoreEvent, TemporalPlacement};
use crate::score::id::{same_scope, EventId, EventScope, VoiceId};
use crate::score::text_order::{
    lemma_text_less_irreflexive, lemma_text_less_total, lemma_text_less_transitive, text_less,
    text_precedes,
};
use crate::time::beat::{BeatSpan, BeatTime};
use crate::time::constraint::{declared, StpProblem, TimeVarId};
use crate::time::meter::Meter;
use vstd::prelude::*;
use vstd::std_specs::cmp::PartialEqSpec;
use vstd::string::StringExecFns;

verus! {

broadcast use {
    crate::algebra::lemma_q_view,
    crate::time::beat::lemma_duration_view,
    crate::time::beat::lemma_span_view,
};

/// A tie between two distinct notated noteheads: data about two events,
/// replacing neither.
#[derive(Debug, Clone)]
pub struct Tie {
    /// The earlier notehead.
    pub from: EventId,
    /// The later notehead.
    pub to: EventId,
}

impl Tie {
    /// Relates two noteheads.
    pub fn new(from: EventId, to: EventId) -> (r: Tie)
        ensures
            r.from == from,
            r.to == to,
    {
        Tie { from, to }
    }
}

/// Context shared by many events, held once rather than copied into each.
#[derive(Debug, Clone)]
pub struct ScoreContext {
    /// The metrical structure, where the music is measured.
    pub meter: Option<Meter>,
    /// The temporal constraint network that constrained placements refer to.
    pub temporal: Option<StpProblem>,
    /// Where this score came from.
    pub provenance: Option<ProvenanceId>,
}

impl Default for ScoreContext {
    /// A context that declares nothing.
    fn default() -> (r: Self)
        ensures
            r.meter is None,
            r.temporal is None,
            r.provenance is None,
    {
        ScoreContext { meter: None, temporal: None, provenance: None }
    }
}

/// A projection of a score, with what it forgot travelling beside the value.
#[derive(Debug, Clone)]
pub struct Projection<T> {
    value: T,
    discarded: Vec<&'static str>,
}

impl<T> Projection<T> {
    /// The projected value.
    pub closed spec fn value_view(&self) -> T {
        self.value
    }

    /// What the projection forgot, as texts.
    pub closed spec fn discarded_view(&self) -> Seq<Seq<char>> {
        self.discarded@.map_values(|d: &'static str| d@)
    }

    /// The projected value.
    pub fn value(&self) -> (r: &T)
        ensures
            *r == self.value_view(),
    {
        &self.value
    }

    /// Consumes the projection, yielding the value; the loss set is dropped
    /// here, and after this the value no longer knows what it is missing.
    pub fn into_value_discarding_loss_set(self) -> (r: T)
        ensures
            r == self.value_view(),
    {
        self.value
    }

    /// What this projection forgot.
    pub fn discarded(&self) -> (r: &[&'static str])
        ensures
            r@.map_values(|d: &'static str| d@) == self.discarded_view(),
    {
        self.discarded.as_slice()
    }

    /// Whether the projection lost nothing at all.
    pub fn is_lossless(&self) -> (r: bool)
        ensures
            r == (self.discarded_view().len() == 0),
    {
        self.discarded.len() == 0
    }
}

/// The loss set texts joined with `", "`.
pub open spec fn joined(items: Seq<Seq<char>>) -> Seq<char>
    decreases items.len(),
{
    if items.len() == 0 {
        Seq::empty()
    } else if items.len() == 1 {
        items[0]
    } else {
        joined(items.drop_last()) + seq![',', ' '] + items.last()
    }
}

/// A description of what a projection discarded, as text: the items
/// separated by `", "`.
pub fn loss_set_description(discarded: &[&'static str]) -> (r: String)
    ensures
        r@ == joined(discarded@.map_values(|d: &'static str| d@)),
{
    let ghost items = discarded@.map_values(|d: &'static str| d@);
    let mut text = String::new();
    let mut k: usize = 0;
    proof {
        assert(items.take(0) =~= Seq::<Seq<char>>::empty());
        reveal_strlit(", ");
    }
    while k < discarded.len()
        invariant
            items == discarded@.map_values(|d: &'static str| d@),
            k <= discarded@.len(),
            text@ == joined(items.take(k as int)),
        decreases discarded@.len() - k,
    {
        proof {
            reveal_strlit(", ");
            assert(items.take(k + 1).drop_last() =~= items.take(k as int));
            assert(items.take(k + 1).last() == discarded@[k as int]@);
        }
        if k > 0 {
            text.append(", ");
        } else {
            proof {
                assert(items.take(1) =~= seq![discarded@[0]@]);
            }
        }
        text.append(discarded[k]);
        k = k + 1;
    }
    proof {
        assert(items.take(discarded@.len() as int) =~= items);
    }
    text
}

/// The events are in strictly increasing identity order, so no identity
/// occurs twice.
pub open spec fn ids_sorted<P>(events: Seq<ScoreEvent<P>>) -> bool {
    forall|i: int, j: int|
        0 <= i < j < events.len() ==> text_less(
            (#[trigger] events[i]).id_view()@,
            (#[trigger] events[j]).id_view()@,
        )
}

/// Some event has this identity.
pub open spec fn has_event<P>(events: Seq<ScoreEvent<P>>, id: Seq<char>) -> bool {
    exists|k: int| 0 <= k < events.len() && (#[trigger] events[k]).id_view()@ == id
}

/// The event with this identity, where there is one.
pub open spec fn event_named<P>(events: Seq<ScoreEvent<P>>, id: Seq<char>) -> ScoreEvent<P>
    recommends
        has_event(events, id),
{
    events[choose|k: int| 0 <= k < events.len() && (#[trigger] events[k]).id_view()@ == id]
}

/// Every tie joins two events of the score.
pub open spec fn ties_known<P>(events: Seq<ScoreEvent<P>>, ties: Seq<Tie>) -> bool {
    forall|t: int|
        0 <= t < ties.len() ==> has_event(events, (#[trigger] ties[t]).from@) && has_event(
            events,
            ties[t].to@,
        )
}

/// With identities in order, an identity names at most one event.
proof fn lemma_sorted_unique<P>(events: Seq<ScoreEvent<P>>, i: int, j: int)
    requires
        ids_sorted(events),
        0 <= i < events.len(),
        0 <= j < events.len(),
        events[i].id_view()@ == events[j].id_view()@,
    ensures
        i == j,
{
    lemma_text_less_irreflexive(events[i].id_view()@);
    if i < j {
        assert(text_less(events[i].id_view()@, events[j].id_view()@));
    } else if j < i {
        assert(text_less(events[j].id_view()@, events[i].id_view()@));
    }
}

/// Finds the position of the event with an identity.
fn position_of<P>(events: &Vec<ScoreEvent<P>>, id: &EventId) -> (r: Option<usize>)
    ensures
        r matches Some(k) ==> k < events@.len() && events@[k as int].id_view()@ == id@,
        r is None <==> !has_event(events@, id@),
{
    let mut k: usize = 0;
    while k < events.len()
        invariant
            k <= events@.len(),
            forall|j: int| 0 <= j < k ==> (#[trigger] events@[j]).id_view()@ != id@,
        decreases events@.len() - k,
    {
        if events[k].id().same(id) {
            return Some(k);
        }
        k = k + 1;
    }
    None
}

/// `after` is `before` with `e` inserted at one position.
pub open spec fn inserted_at_place<P>(before: Seq<ScoreEvent<P>>, after: Seq<ScoreEvent<P>>, e: ScoreEvent<P>) -> bool {
    exists|p: int| 0 <= p <= before.len() && after == before.insert(p, e)
}

/// The pitch of a note event.
pub open spec fn note_pitch<P>(e: ScoreEvent<P>) -> P {
    e.content_view()->pitch
}

/// An event's placement refers only to what the score and its network
/// declare: a grace event's anchor is an event that is not itself a grace
/// event, and a constrained placement's variables are declared by the
/// network, where there is one.
pub open spec fn placement_ok<P>(
    events: Seq<ScoreEvent<P>>,
    temporal: Option<StpProblem>,
    e: ScoreEvent<P>,
) -> bool {
    match e.placement_view() {
        TemporalPlacement::Grace { anchor, .. } => has_event(events, anchor@) && !(event_named(
            events,
            anchor@,
        ).placement_view() is Grace),
        TemporalPlacement::ConstraintPlacement { onset, offset } => match temporal {
            Some(network) => declared(network.variables_view(), onset@) && (offset matches Some(
                end,
            ) ==> declared(network.variables_view(), end@)),
            None => true,
        },
        TemporalPlacement::FixedSpan { .. } => true,
    }
}

/// The error that reports an event whose placement is not in order.
pub open spec fn placement_error<P>(
    events: Seq<ScoreEvent<P>>,
    temporal: Option<StpProblem>,
    e: ScoreEvent<P>,
    error: ScoreError,
) -> bool {
    match e.placement_view() {
        TemporalPlacement::Grace { anchor, .. } => if !has_event(events, anchor@) {
            error matches ScoreError::UnknownEvent { event } && event@ == anchor@
        } else {
            error matches ScoreError::GraceAnchorIsGrace { event } && event@ == e.id_view()@
        },
        TemporalPlacement::ConstraintPlacement { onset, offset } => {
            let network = temporal->0;
            error matches ScoreError::UndeclaredTemporalVariable { variable } && variable@ == (
            if !declared(network.variables_view(), onset@) {
                onset@
            } else {
                offset->0@
            })
        },
        TemporalPlacement::FixedSpan { .. } => false,
    }
}

/// Whether a network declares a variable.
fn declares(network: &StpProblem, variable: &TimeVarId) -> (r: bool)
    ensures
        r == declared(network.variables_view(), variable@),
{
    let variables = network.variables();
    let mut k: usize = 0;
    while k < variables.len()
        invariant
            variables@ == network.variables_view(),
            k <= variables@.len(),
            forall|j: int| 0 <= j < k ==> #[trigger] variables@[j]@ != variable@,
        decreases variables@.len() - k,
    {
        if variables[k].same(variable) {
            return true;
        }
        k = k + 1;
    }
    false
}

/// The exact span of an event with a fixed placement whose end stays in the
/// stored range.
pub open spec fn event_span<P>(e: ScoreEvent<P>) -> Option<((int, int), (int, int))> {
    match e.placement_view() {
        TemporalPlacement::FixedSpan { onset, duration } => if fits(
            reduce(rat_add(onset@, duration@)),
        ) {
            Some((onset@, reduce(rat_add(onset@, duration@))))
        } else {
            None
        },
        _ => None,
    }
}

/// The event belongs to this voice.
pub open spec fn in_voice<P>(e: ScoreEvent<P>, voice: Seq<char>) -> bool {
    e.scope_view() matches EventScope::VoiceLocal(v) && v@ == voice
}

/// The event sounds: a note, pitched or not.
pub open spec fn sounds<P>(e: ScoreEvent<P>) -> bool {
    e.content_view() is Note || e.content_view() is UnpitchedNote
}

/// The event sounds in this voice over a measured span that holds `at`
/// before its end.
pub open spec fn sounding_at<P>(e: ScoreEvent<P>, voice: Seq<char>, at: (int, int)) -> bool {
    &&& in_voice(e, voice)
    &&& sounds(e)
    &&& event_span(e) matches Some((start, end)) && rat_le(start, at) && rat_le(at, end) && !rat_eq(
        end,
        at,
    )
}

/// The pitched events, as identity and pitch, in event order.
pub open spec fn pitched<P>(events: Seq<ScoreEvent<P>>) -> Seq<(EventId, P)> {
    events.filter_map(
        |e: ScoreEvent<P>|
            if e.content_view() is Note {
                Some((e.id_view(), e.content_view()->pitch))
            } else {
                None
            },
    )
}

/// `to` is `from` with a note's pitch replaced by a value `convert` returned
/// for it, and any other content kept.
pub open spec fn pitch_rewritten<P, R, E, F: Fn(P) -> Result<R, E>>(
    from: EventContent<P>,
    convert: F,
    to: EventContent<R>,
) -> bool {
    match from {
        EventContent::Note { pitch } => exists|q: R|
            call_ensures(convert, (pitch,), Ok::<R, E>(q)) && to == EventContent::<R>::Note {
                pitch: q,
            },
        EventContent::UnpitchedNote => to == EventContent::<R>::UnpitchedNote,
        EventContent::Rest => to == EventContent::<R>::Rest,
        EventContent::Control { declared_type, value } => to == EventContent::<R>::Control {
            declared_type,
            value,
        },
        EventContent::Marker { label } => to == EventContent::<R>::Marker { label },
    }
}

/// One sustained sounding gesture, derived from a tie chain. The source
/// events are kept in order, so the relation that produced the gesture is
/// never lost.
#[derive(Debug, Clone)]
pub struct SoundingGesture<P> {
    sources: Vec<EventId>,
    span: BeatSpan,
    pitch: Option<P>,
}

impl<P> SoundingGesture<P> {
    /// The identities of the source events, in time order.
    pub closed spec fn sources_view(&self) -> Seq<Seq<char>> {
        self.sources@.map_values(|id: EventId| id@)
    }

    /// The combined span.
    pub closed spec fn span_view(&self) -> ((int, int), (int, int)) {
        self.span@
    }

    /// The sounding pitch, where the gesture has one.
    pub closed spec fn pitch_view(&self) -> Option<P> {
        self.pitch
    }

    /// The notated events this gesture came from, in time order.
    pub fn sources(&self) -> (r: &[EventId])
        ensures
            r@.map_values(|id: EventId| id@) == self.sources_view(),
    {
        self.sources.as_slice()
    }

    /// The combined structural span.
    pub fn span(&self) -> (r: &BeatSpan)
        ensures
            r@ == self.span_view(),
    {
        &self.span
    }

    /// The sounding pitch; `None` for an unpitched note, which sounds without
    /// having a pitch.
    pub fn pitch(&self) -> (r: Option<&P>)
        ensures
            match self.pitch_view() {
                Some(p) => r == Some(&p),
                None => r is None,
            },
    {
        match &self.pitch {
            Some(p) => Some(p),
            None => None,
        }
    }

    /// Whether this gesture came from more than one notehead.
    pub fn is_tied(&self) -> (r: bool)
        ensures
            r == (self.sources_view().len() > 1),
    {
        self.sources.len() > 1
    }
}

/// The event a tie leads to from `id`: the last tie declared from it.
pub open spec fn next_of(ties: Seq<Tie>, id: Seq<char>) -> Option<Seq<char>>
    decreases ties.len(),
{
    if ties.len() == 0 {
        None
    } else if ties.last().from@ == id {
        Some(ties.last().to@)
    } else {
        next_of(ties.drop_last(), id)
    }
}

/// Some tie leads into this event.
pub open spec fn tied_into(ties: Seq<Tie>, id: Seq<char>) -> bool {
    exists|t: int| 0 <= t < ties.len() && (#[trigger] ties[t]).to@ == id
}

/// The event begins a gesture: it sounds, no tie leads into it, and it has a
/// measured span.
pub open spec fn chain_start<P>(e: ScoreEvent<P>, ties: Seq<Tie>) -> bool {
    &&& sounds(e)
    &&& !tied_into(ties, e.id_view()@)
    &&& event_span(e) is Some
}

/// The measured span of the event with this identity.
pub open spec fn span_of<P>(events: Seq<ScoreEvent<P>>, id: Seq<char>) -> ((int, int), (int, int)) {
    event_span(event_named(events, id))->0
}

/// The sources follow ties from one event to the next, each a measured
/// event beginning where the previous one ends.
pub open spec fn linked<P>(events: Seq<ScoreEvent<P>>, ties: Seq<Tie>, sources: Seq<Seq<char>>) -> bool {
    &&& forall|j: int|
        0 <= j < sources.len() ==> has_event(events, #[trigger] sources[j]) && event_span(
            event_named(events, sources[j]),
        ) is Some
    &&& forall|j: int|
        0 <= j < sources.len() - 1 ==> next_of(ties, #[trigger] sources[j]) == Some(sources[j + 1])
            && rat_eq(span_of(events, sources[j + 1]).0, span_of(events, sources[j]).1)
}

/// A gesture of the score: it starts at a chain start, follows the ties to
/// the end of the chain, spans from the first source's start to the last
/// source's end, and sounds the first source's pitch. An unpitched note is a
/// gesture of its own.
pub open spec fn gesture_of<P: Clone>(events: Seq<ScoreEvent<P>>, ties: Seq<Tie>, g: SoundingGesture<P>) -> bool {
    let src = g.sources_view();
    &&& src.len() >= 1
    &&& has_event(events, src[0])
    &&& chain_start(event_named(events, src[0]), ties)
    &&& linked(events, ties, src)
    &&& g.span_view() == (span_of(events, src[0]).0, span_of(events, src.last()).1)
    &&& match event_named(events, src[0]).content_view() {
        EventContent::Note { pitch } => next_of(ties, src.last()) is None && (g.pitch_view() matches Some(
            q,
        ) && cloned(pitch, q)),
        _ => src.len() == 1 && g.pitch_view() is None,
    }
}

/// The gestures are ordered by start, and gestures that start together in
/// identity order.
pub open spec fn gestures_ordered<P>(gestures: Seq<SoundingGesture<P>>) -> bool {
    forall|i: int, j: int|
        0 <= i < j < gestures.len() ==> rat_lt(
            (#[trigger] gestures[i]).span_view().0,
            (#[trigger] gestures[j]).span_view().0,
        ) || (rat_eq(gestures[i].span_view().0, gestures[j].span_view().0) && text_less(
            gestures[i].sources_view()[0],
            gestures[j].sources_view()[0],
        ))
}

/// The indices of the measured events that start no earlier than `at`.
pub open spec fn starting_from<P>(events: Seq<ScoreEvent<P>>, at: (int, int)) -> Set<int> {
    Set::new(
        |k: int|
            0 <= k < events.len() && event_span(events[k]) is Some && rat_le(
                at,
                (event_span(events[k])->0).0,
            ),
    )
}

/// The last tie declared from an event, by position.
fn next_tie(ties: &Vec<Tie>, id: &EventId) -> (r: Option<usize>)
    ensures
        r matches Some(t) ==> t < ties@.len() && ties@[t as int].from@ == id@ && next_of(ties@, id@)
            == Some(ties@[t as int].to@),
        r is None ==> next_of(ties@, id@) is None,
{
    let mut k: usize = ties.len();
    proof {
        assert(ties@.take(k as int) =~= ties@);
    }
    while k > 0
        invariant
            k <= ties@.len(),
            next_of(ties@, id@) == next_of(ties@.take(k as int), id@),
        decreases k,
    {
        proof {
            assert(ties@.take(k as int).drop_last() =~= ties@.take(k - 1));
            assert(ties@.take(k as int).last() == ties@[k - 1]);
        }
        if ties[k - 1].from.same(id) {
            return Some(k - 1);
        }
        k = k - 1;
    }
    None
}

/// Whether some tie leads into an event.
fn is_tied_into(ties: &Vec<Tie>, id: &EventId) -> (r: bool)
    ensures
        r == tied_into(ties@, id@),
{
    let mut k: usize = 0;
    while k < ties.len()
        invariant
            k <= ties@.len(),
            forall|t: int| 0 <= t < k ==> (#[trigger] ties@[t]).to@ != id@,
        decreases ties@.len() - k,
    {
        if ties[k].to.same(id) {
            return true;
        }
        k = k + 1;
    }
    false
}

/// A measured span ends strictly after it starts.
proof fn lemma_span_forward<P>(e: ScoreEvent<P>)
    requires
        event_span(e) is Some,
    ensures
        rat_lt((event_span(e)->0).0, (event_span(e)->0).1),
        (event_span(e)->0).0.1 > 0,
        (event_span(e)->0).1.1 > 0,
{
    if let TemporalPlacement::FixedSpan { onset, duration } = e.placement_view() {
        let p = rat_add(onset@, duration@);
        assert(duration@.0 > 0 && duration@.1 > 0);
        assert(onset@.1 > 0);
        crate::algebra::lemma_den_product(onset@.1, duration@.1);
        crate::algebra::lemma_reduce_eq(p);
        let q = reduce(p);
        assert(rat_lt(onset@, p)) by (nonlinear_arith)
            requires
                p == (onset@.0 * duration@.1 + duration@.0 * onset@.1, onset@.1 * duration@.1),
                duration@.0 > 0,
                duration@.1 > 0,
                onset@.1 > 0,
        ;
        crate::algebra::lemma_rat_eq_refl_symm(onset@, onset@);
        crate::time::elimination::lemma_rat_lt_congruent(onset@, p, onset@, q);
    }
}

/// Inserts a gesture after every gesture that starts no later, which keeps
/// the order when its first source comes after every first source so far.
fn insert_gesture<P>(gestures: &mut Vec<SoundingGesture<P>>, g: SoundingGesture<P>)
    requires
        gestures_ordered(old(gestures)@),
        g.sources_view().len() >= 1,
        forall|i: int|
            0 <= i < old(gestures)@.len() ==> (#[trigger] old(gestures)@[i]).sources_view().len() >= 1
                && text_less(old(gestures)@[i].sources_view()[0], g.sources_view()[0]),
    ensures
        gestures_ordered(final(gestures)@),
        exists|p: int|
            0 <= p <= old(gestures)@.len() && final(gestures)@ == old(gestures)@.insert(p, g),
{
    let ghost before = gestures@;
    let start = g.span.start();
    let mut p: usize = 0;
    while p < gestures.len() && gestures[p].span.start().not_after(&start)
        invariant
            gestures@ == before,
            p <= gestures@.len(),
            start@ == g.span_view().0,
            forall|i: int| 0 <= i < p ==> rat_le((#[trigger] gestures@[i]).span_view().0, start@),
        decreases gestures@.len() - p,
    {
        p = p + 1;
    }
    let ghost added = g;
    gestures.insert(p, g);
    proof {
        assert(gestures@ == before.insert(p as int, added));
        assert forall|i: int, j: int| 0 <= i < j < gestures@.len() implies rat_lt(
            (#[trigger] gestures@[i]).span_view().0,
            (#[trigger] gestures@[j]).span_view().0,
        ) || (rat_eq(gestures@[i].span_view().0, gestures@[j].span_view().0) && text_less(
            gestures@[i].sources_view()[0],
            gestures@[j].sources_view()[0],
        )) by {
            let (a, b) = (gestures@[i], gestures@[j]);
            lemma_span_view_pos(a);
            lemma_span_view_pos(b);
            lemma_span_view_pos(added);
            if j < p {
                assert(a == before[i] && b == before[j]);
            } else if j == p {
                assert(a == before[i]);
                assert(rat_le(a.span_view().0, start@));
            } else if i == p {
                assert(b == before[j - 1]);
                assert(!rat_le(before[p as int].span_view().0, start@));
                if j - 1 > p {
                    let c = before[p as int];
                    lemma_span_view_pos(c);
                    assert(rat_lt(start@, c.span_view().0));
                    assert(rat_lt(c.span_view().0, b.span_view().0) || rat_eq(c.span_view().0, b.span_view().0));
                    if rat_lt(c.span_view().0, b.span_view().0) {
                        crate::algebra::lemma_rat_le_lt_trans(start@, c.span_view().0, b.span_view().0);
                    } else {
                        crate::algebra::lemma_rat_eq_refl_symm(start@, start@);
                        crate::time::elimination::lemma_rat_lt_congruent(start@, c.span_view().0, start@, b.span_view().0);
                    }
                }
            } else if i < p {
                assert(a == before[i] && b == before[j - 1]);
            } else {
                assert(a == before[i - 1] && b == before[j - 1]);
            }
        }
    }
}

/// A gesture's span has positive denominators.
proof fn lemma_span_view_pos<P>(g: SoundingGesture<P>)
    ensures
        g.span_view().0.1 > 0,
        g.span_view().1.1 > 0,
{
    crate::time::beat::lemma_span_view(g.span);
}

/// A tie from `from` leads to `to`, and `to` is not a measured event that
/// begins where `from` ends.
pub open spec fn broken_link<P>(events: Seq<ScoreEvent<P>>, ties: Seq<Tie>, from: Seq<char>, to: Seq<char>) -> bool {
    &&& has_event(events, from)
    &&& event_span(event_named(events, from)) is Some
    &&& next_of(ties, from) == Some(to)
    &&& has_event(events, to)
    &&& (event_span(event_named(events, to)) is None || !rat_eq(
        span_of(events, to).0,
        span_of(events, from).1,
    ))
}

/// `src` follows intact ties from an event that begins the gesture of a
/// pitched note up to `to`.
pub open spec fn chain_reaches<P>(events: Seq<ScoreEvent<P>>, ties: Seq<Tie>, src: Seq<Seq<char>>, to: Seq<char>) -> bool {
    &&& src.len() >= 1
    &&& has_event(events, src[0])
    &&& chain_start(event_named(events, src[0]), ties)
    &&& event_named(events, src[0]).content_view() is Note
    &&& linked(events, ties, src)
    &&& src.last() == to
}

/// A gesture runs into a broken tie: intact ties lead from the start of a
/// pitched note's gesture to `from`, and the tie from `from` to `to` is
/// broken.
pub open spec fn reached_broken_link<P>(events: Seq<ScoreEvent<P>>, ties: Seq<Tie>, from: Seq<char>, to: Seq<char>) -> bool {
    &&& broken_link(events, ties, from, to)
    &&& exists|src: Seq<Seq<char>>| #[trigger] chain_reaches(events, ties, src, from)
}

/// Facts that hold of every gesture collected so far.
pub open spec fn collected<P: Clone>(
    events: Seq<ScoreEvent<P>>,
    ties: Seq<Tie>,
    gestures: Seq<SoundingGesture<P>>,
    k: int,
) -> bool {
    &&& gestures_ordered(gestures)
    &&& forall|i: int| 0 <= i < gestures.len() ==> gesture_of(events, ties, #[trigger] gestures[i])
    &&& forall|i: int, m: int|
        0 <= i < gestures.len() && k <= m < events.len() ==> text_less(
            (#[trigger] gestures[i]).sources_view()[0],
            (#[trigger] events[m]).id_view()@,
        )
}

/// The identity of an event names that event.
proof fn lemma_named<P>(events: Seq<ScoreEvent<P>>, k: int)
    requires
        ids_sorted(events),
        0 <= k < events.len(),
    ensures
        has_event(events, events[k].id_view()@),
        event_named(events, events[k].id_view()@) == events[k],
{
    assert(has_event(events, events[k].id_view()@));
    let j = choose|j: int| 0 <= j < events.len() && (#[trigger] events[j]).id_view()@ == events[k].id_view()@;
    lemma_sorted_unique(events, j, k);
}

/// Adding a gesture for event `k` keeps what holds of the gestures.
proof fn lemma_collect_step<P: Clone>(
    events: Seq<ScoreEvent<P>>,
    ties: Seq<Tie>,
    before: Seq<SoundingGesture<P>>,
    after: Seq<SoundingGesture<P>>,
    g: SoundingGesture<P>,
    k: int,
)
    requires
        ids_sorted(events),
        0 <= k < events.len(),
        collected(events, ties, before, k),
        gesture_of(events, ties, g),
        g.sources_view()[0] == events[k].id_view()@,
        gestures_ordered(after),
        exists|p: int| 0 <= p <= before.len() && after == before.insert(p, g),
    ensures
        collected(events, ties, after, k + 1),
{
    let p = choose|p: int| 0 <= p <= before.len() && after == before.insert(p, g);
    assert forall|i: int| 0 <= i < after.len() implies gesture_of(events, ties, #[trigger] after[i]) by {
        if i < p {
            assert(after[i] == before[i]);
        } else if i > p {
            assert(after[i] == before[i - 1]);
        }
    }
    assert forall|i: int, m: int|
        0 <= i < after.len() && k + 1 <= m < events.len() implies text_less(
        (#[trigger] after[i]).sources_view()[0],
        (#[trigger] events[m]).id_view()@,
    ) by {
        if i < p {
            assert(after[i] == before[i]);
        } else if i > p {
            assert(after[i] == before[i - 1]);
        } else {
            assert(text_less(events[k].id_view()@, events[m].id_view()@));
        }
    }
}

/// Moving the end of a chain past event `j`, which began at the old end,
/// drops `j` from the events still ahead, and adds none.
proof fn lemma_measure_drops<P>(events: Seq<ScoreEvent<P>>, old_end: (int, int), new_end: (int, int), j: int)
    requires
        0 <= j < events.len(),
        event_span(events[j]) is Some,
        rat_eq((event_span(events[j])->0).0, old_end),
        rat_lt((event_span(events[j])->0).0, new_end),
        old_end.1 > 0,
        new_end.1 > 0,
    ensures
        starting_from(events, new_end).len() < starting_from(events, old_end).len(),
        starting_from(events, old_end).finite(),
{
    let before = starting_from(events, old_end);
    let after = starting_from(events, new_end);
    let range = set_int_range(0, events.len() as int);
    lemma_int_range(0, events.len() as int);
    assert(before.subset_of(range));
    lemma_len_subset(before, range);
    let s = (event_span(events[j])->0).0;
    assert(s.1 > 0) by {
        lemma_span_forward(events[j]);
    }
    assert(rat_le(old_end, s));
    assert(before.contains(j));
    assert(rat_lt(old_end, new_end)) by {
        crate::algebra::lemma_rat_eq_refl_symm(s, old_end);
        crate::algebra::lemma_rat_eq_refl_symm(new_end, new_end);
        crate::time::elimination::lemma_rat_lt_congruent(s, new_end, old_end, new_end);
    }
    assert forall|k: int| after.contains(k) implies before.remove(j).contains(k) by {
        let sk = (event_span(events[k])->0).0;
        lemma_span_forward(events[k]);
        crate::algebra::lemma_rat_le_lt_trans(old_end, old_end, new_end);
        assert(rat_le(new_end, sk));
        assert(rat_le(old_end, sk)) by {
            assert(old_end.0 * new_end.1 < new_end.0 * old_end.1);
            crate::algebra::lemma_rat_le_trans(old_end, new_end, sk);
        }
        if k == j {
            assert(!rat_le(new_end, s));
        }
    }
    assert(after.subset_of(before.remove(j)));
    lemma_len_subset(after, before.remove(j));
}

/// An event-indexed score, immutable once built. Build one with
/// [`ScoreBuilder`].
#[derive(Debug)]
pub struct Score<P> {
    events: Vec<ScoreEvent<P>>,
    ties: Vec<Tie>,
    context: ScoreContext,
}

impl<P> Score<P> {
    #[verifier::type_invariant]
    spec fn inv(self) -> bool {
        &&& ids_sorted(self.events@)
        &&& ties_known(self.events@, self.ties@)
    }

    /// The events, in identity order.
    pub closed spec fn events_view(&self) -> Seq<ScoreEvent<P>> {
        self.events@
    }

    /// The declared ties, in the order declared.
    pub closed spec fn ties_view(&self) -> Seq<Tie> {
        self.ties@
    }

    /// The shared context.
    pub closed spec fn context_view(&self) -> ScoreContext {
        self.context
    }

    /// Starts building a score.
    pub fn builder() -> (r: ScoreBuilder<P>)
        ensures
            r.events_view().len() == 0,
            r.ties_view().len() == 0,
            r.context_view().meter is None,
            r.context_view().temporal is None,
            r.context_view().provenance is None,
    {
        ScoreBuilder::default()
    }

    /// The event with this identity.
    pub fn event(&self, id: &EventId) -> (r: Option<&ScoreEvent<P>>)
        ensures
            r is None <==> !has_event(self.events_view(), id@),
            r matches Some(e) ==> *e == event_named(self.events_view(), id@) && e.id_view()@ == id@,
    {
        proof {
            use_type_invariant(self);
        }
        match position_of(&self.events, id) {
            Some(k) => {
                proof {
                    let j = choose|j: int|
                        0 <= j < self.events@.len() && (#[trigger] self.events@[j]).id_view()@ == id@;
                    lemma_sorted_unique(self.events@, j, k as int);
                }
                Some(&self.events[k])
            },
            None => None,
        }
    }

    /// Every event, in identity order; no identity occurs twice, and every
    /// tie joins two of them.
    pub fn events(&self) -> (r: &[ScoreEvent<P>])
        ensures
            r@ == self.events_view(),
            ids_sorted(self.events_view()),
            ties_known(self.events_view(), self.ties_view()),
    {
        proof {
            use_type_invariant(self);
        }
        self.events.as_slice()
    }

    /// How many events the score holds.
    pub fn len(&self) -> (r: usize)
        ensures
            r == self.events_view().len(),
    {
        self.events.len()
    }

    /// Whether the score has no events.
    pub fn is_empty(&self) -> (r: bool)
        ensures
            r == (self.events_view().len() == 0),
    {
        self.events.len() == 0
    }

    /// The declared ties.
    pub fn ties(&self) -> (r: &[Tie])
        ensures
            r@ == self.ties_view(),
    {
        self.ties.as_slice()
    }

    /// The shared context.
    pub fn context(&self) -> (r: &ScoreContext)
        ensures
            *r == self.context_view(),
    {
        &self.context
    }

    /// Every notated rest, in identity order: notated rests, not inferred
    /// silence.
    pub fn rests(&self) -> (r: Vec<&ScoreEvent<P>>)
        ensures
            r@.map_values(|e: &ScoreEvent<P>| *e) == self.events_view().filter(
                |e: ScoreEvent<P>| e.content_view() is Rest,
            ),
    {
        let ghost pred = |e: ScoreEvent<P>| e.content_view() is Rest;
        let mut out: Vec<&ScoreEvent<P>> = Vec::new();
        let mut k: usize = 0;
        proof {
            reveal(Seq::filter);
            assert(self.events@.take(0).filter(pred) =~= Seq::<ScoreEvent<P>>::empty());
        }
        while k < self.events.len()
            invariant
                k <= self.events@.len(),
                out@.map_values(|e: &ScoreEvent<P>| *e) == self.events@.take(k as int).filter(pred),
                pred == (|e: ScoreEvent<P>| e.content_view() is Rest),
            decreases self.events@.len() - k,
        {
            let ghost before = out@;
            if self.events[k].content().is_rest() {
                out.push(&self.events[k]);
            }
            proof {
                reveal(Seq::filter);
                assert(self.events@.take(k + 1).drop_last() =~= self.events@.take(k as int));
                assert(self.events@.take(k + 1).last() == self.events@[k as int]);
                assert(out@.map_values(|e: &ScoreEvent<P>| *e) =~= self.events@.take(k + 1).filter(pred));
            }
            k = k + 1;
        }
        proof {
            assert(self.events@.take(self.events@.len() as int) =~= self.events@);
        }
        out
    }

    /// Every event belonging to a voice, in identity order.
    pub fn voice_events(&self, voice: &VoiceId) -> (r: Vec<&ScoreEvent<P>>)
        ensures
            r@.map_values(|e: &ScoreEvent<P>| *e) == self.events_view().filter(
                |e: ScoreEvent<P>| in_voice(e, voice@),
            ),
    {
        let ghost pred = |e: ScoreEvent<P>| in_voice(e, voice@);
        let mut out: Vec<&ScoreEvent<P>> = Vec::new();
        let mut k: usize = 0;
        proof {
            reveal(Seq::filter);
            assert(self.events@.take(0).filter(pred) =~= Seq::<ScoreEvent<P>>::empty());
        }
        while k < self.events.len()
            invariant
                k <= self.events@.len(),
                out@.map_values(|e: &ScoreEvent<P>| *e) == self.events@.take(k as int).filter(pred),
                pred == (|e: ScoreEvent<P>| in_voice(e, voice@)),
            decreases self.events@.len() - k,
        {
            let belongs = match self.events[k].scope().voice() {
                Some(v) => v.same(voice),
                None => false,
            };
            if belongs {
                out.push(&self.events[k]);
            }
            proof {
                reveal(Seq::filter);
                assert(self.events@.take(k + 1).drop_last() =~= self.events@.take(k as int));
                assert(self.events@.take(k + 1).last() == self.events@[k as int]);
                assert(out@.map_values(|e: &ScoreEvent<P>| *e) =~= self.events@.take(k + 1).filter(pred));
            }
            k = k + 1;
        }
        proof {
            assert(self.events@.take(self.events@.len() as int) =~= self.events@);
        }
        out
    }

    /// Every event whose placement awaits a temporal solve or an anchor:
    /// these have no structural onset, and none is invented for them.
    pub fn unmeasured_events(&self) -> (r: Vec<&ScoreEvent<P>>)
        ensures
            r@.map_values(|e: &ScoreEvent<P>| *e) == self.events_view().filter(
                |e: ScoreEvent<P>| !(e.placement_view() is FixedSpan),
            ),
    {
        let ghost pred = |e: ScoreEvent<P>| !(e.placement_view() is FixedSpan);
        let mut out: Vec<&ScoreEvent<P>> = Vec::new();
        let mut k: usize = 0;
        proof {
            reveal(Seq::filter);
            assert(self.events@.take(0).filter(pred) =~= Seq::<ScoreEvent<P>>::empty());
        }
        while k < self.events.len()
            invariant
                k <= self.events@.len(),
                out@.map_values(|e: &ScoreEvent<P>| *e) == self.events@.take(k as int).filter(pred),
                pred == (|e: ScoreEvent<P>| !(e.placement_view() is FixedSpan)),
            decreases self.events@.len() - k,
        {
            if !self.events[k].placement().is_fixed() {
                out.push(&self.events[k]);
            }
            proof {
                reveal(Seq::filter);
                assert(self.events@.take(k + 1).drop_last() =~= self.events@.take(k as int));
                assert(self.events@.take(k + 1).last() == self.events@[k as int]);
                assert(out@.map_values(|e: &ScoreEvent<P>| *e) =~= self.events@.take(k + 1).filter(pred));
            }
            k = k + 1;
        }
        proof {
            assert(self.events@.take(self.events@.len() as int) =~= self.events@);
        }
        out
    }

    /// Whether a voice has nothing sounding at a structural position: no
    /// note of the voice has a measured span that holds the position before
    /// its end. Events without a measured span cannot be decided here and are
    /// passed over, so `true` means that nothing measured is sounding. This
    /// is voice inactivity, neither a notated rest nor acoustic silence.
    pub fn voice_is_inactive(&self, voice: &VoiceId, at: &BeatTime) -> (r: bool)
        ensures
            r == !exists|k: int|
                0 <= k < self.events_view().len() && sounding_at(
                    #[trigger] self.events_view()[k],
                    voice@,
                    at@,
                ),
    {
        let mut k: usize = 0;
        while k < self.events.len()
            invariant
                k <= self.events@.len(),
                forall|j: int| 0 <= j < k ==> !sounding_at(#[trigger] self.events@[j], voice@, at@),
            decreases self.events@.len() - k,
        {
            let event = &self.events[k];
            let belongs = match event.scope().voice() {
                Some(v) => v.same(voice),
                None => false,
            };
            if belongs && event.content().is_sounding() {
                if let Some(span) = event.span() {
                    if span.contains(at) && !span.end().same_value(at) {
                        proof {
                            assert(sounding_at(self.events_view()[k as int], voice@, at@));
                        }
                        return false;
                    }
                }
            }
            k = k + 1;
        }
        true
    }

    /// **Lossy view.** The pitches alone, indexed by event, in identity
    /// order; the loss set names what was dropped.
    pub fn project_pitches(&self) -> (r: Projection<Vec<(EventId, &P)>>)
        ensures
            r.value_view()@.map_values(|q: (EventId, &P)| (q.0, *q.1)) == pitched(self.events_view()),
            r.discarded_view() == seq![
                "temporal placement"@,
                "event scope and voice identity"@,
                "ties"@,
                "rests and control events"@,
                "shared context"@,
            ],
    {
        let mut out: Vec<(EventId, &P)> = Vec::new();
        let mut k: usize = 0;
        let ghost f = |e: ScoreEvent<P>|
            if e.content_view() is Note {
                Some((e.id_view(), e.content_view()->pitch))
            } else {
                None
            };
        proof {
            assert(self.events@.take(0).filter_map(f) =~= Seq::<(EventId, P)>::empty());
        }
        while k < self.events.len()
            invariant
                k <= self.events@.len(),
                out@.map_values(|q: (EventId, &P)| (q.0, *q.1)) == self.events@.take(k as int).filter_map(f),
                f == (|e: ScoreEvent<P>|
                    if e.content_view() is Note {
                        Some((e.id_view(), e.content_view()->pitch))
                    } else {
                        None
                    }),
            decreases self.events@.len() - k,
        {
            let event = &self.events[k];
            if let Some(pitch) = event.pitch() {
                out.push((event.id().clone(), pitch));
            }
            proof {
                assert(self.events@.take(k + 1).drop_last() =~= self.events@.take(k as int));
                assert(self.events@.take(k + 1).last() == self.events@[k as int]);
                assert(out@.map_values(|q: (EventId, &P)| (q.0, *q.1)) =~= self.events@.take(k + 1).filter_map(f));
            }
            k = k + 1;
        }
        proof {
            assert(self.events@.take(self.events@.len() as int) =~= self.events@);
        }
        let discarded = vec![
            "temporal placement",
            "event scope and voice identity",
            "ties",
            "rests and control events",
            "shared context",
        ];
        let r = Projection { value: out, discarded };
        proof {
            assert(r.discarded_view() =~= seq![
                "temporal placement"@,
                "event scope and voice identity"@,
                "ties"@,
                "rests and control events"@,
                "shared context"@,
            ]);
        }
        r
    }

    /// The sustained sounding gestures implied by the ties: every sounding
    /// event that no tie leads into and that has a measured span begins one,
    /// which follows the ties to the end of its chain. Tied noteheads combine
    /// here, in a derived view, while the score keeps them distinct. The
    /// gestures come ordered by start, and those starting together in
    /// identity order. A tie that runs to an event without a measured span,
    /// or to one that does not begin where the chain has reached, is
    /// reported.
    pub fn sounding_gestures(&self) -> (r: Result<Vec<SoundingGesture<P>>, ScoreError>) where
        P: Clone,

        ensures
            r matches Ok(gestures) ==> {
                &&& forall|i: int|
                    0 <= i < gestures@.len() ==> gesture_of(
                        self.events_view(),
                        self.ties_view(),
                        #[trigger] gestures@[i],
                    )
                &&& gestures@.len() == self.events_view().filter(
                    |e: ScoreEvent<P>| chain_start(e, self.ties_view()),
                ).len()
                &&& gestures_ordered(gestures@)
            },
            r matches Err(e) ==> (e matches ScoreError::MisorderedTie { from, to } && reached_broken_link(
                self.events_view(),
                self.ties_view(),
                from@,
                to@,
            )),
    {
        proof {
            use_type_invariant(self);
        }
        let ghost evs = self.events@;
        let ghost ties = self.ties@;
        let ghost pred = |e: ScoreEvent<P>| chain_start(e, ties);
        let mut gestures: Vec<SoundingGesture<P>> = Vec::new();
        let mut k: usize = 0;
        proof {
            reveal(Seq::filter);
            assert(evs.take(0).filter(pred) =~= Seq::<ScoreEvent<P>>::empty());
        }
        while k < self.events.len()
            invariant
                evs == self.events@,
                ties == self.ties@,
                ids_sorted(evs),
                ties_known(evs, ties),
                pred == (|e: ScoreEvent<P>| chain_start(e, ties)),
                k <= evs.len(),
                collected(evs, ties, gestures@, k as int),
                gestures@.len() == evs.take(k as int).filter(pred).len(),
            decreases evs.len() - k,
        {
            let event = &self.events[k];
            proof {
                reveal(Seq::filter);
                assert(evs.take(k + 1).drop_last() =~= evs.take(k as int));
                assert(evs.take(k + 1).last() == evs[k as int]);
                lemma_named(evs, k as int);
            }
            if !event.content().is_sounding() || is_tied_into(&self.ties, event.id()) {
                k = k + 1;
                continue;
            }
            let span = match event.span() {
                Some(s) => s,
                None => {
                    k = k + 1;
                    continue;
                },
            };
            proof {
                lemma_span_forward(evs[k as int]);
            }
            let ghost before = gestures@;
            match event.pitch() {
                None => {
                    let g = SoundingGesture { sources: vec![event.id().clone()], span, pitch: None };
                    proof {
                        assert(g.sources_view() =~= seq![event.id_view()@]);
                        assert(gesture_of(evs, ties, g));
                    }
                    insert_gesture(&mut gestures, g);
                    proof {
                        lemma_collect_step(evs, ties, before, gestures@, g, k as int);
                    }
                },
                Some(pitch) => {
                    let mut sources: Vec<EventId> = vec![event.id().clone()];
                    let mut end = span.end();
                    let mut cursor = event.id().clone();
                    let mut more = true;
                    proof {
                        assert(sources@.map_values(|id: EventId| id@) =~= seq![event.id_view()@]);
                    }
                    while more
                        invariant
                            evs == self.events@,
                            ties == self.ties@,
                            ids_sorted(evs),
                            ties_known(evs, ties),
                            0 <= k < evs.len(),
                            sources@.len() >= 1,
                            sources@.map_values(|id: EventId| id@)[0] == evs[k as int].id_view()@,
                            linked(evs, ties, sources@.map_values(|id: EventId| id@)),
                            cursor@ == sources@.map_values(|id: EventId| id@).last(),
                            end@ == span_of(evs, cursor@).1,
                            rat_le(span@.0, end@),
                            span@ == event_span(evs[k as int])->0,
                            !more ==> next_of(ties, cursor@) is None,
                            has_event(evs, evs[k as int].id_view()@),
                            event_named(evs, evs[k as int].id_view()@) == evs[k as int],
                            chain_start(evs[k as int], ties),
                            evs[k as int].content_view() is Note,
                        decreases (if more {
                            starting_from(evs, end@).len() + 1
                        } else {
                            0
                        }),
                    {
                        let ghost srcs = sources@.map_values(|id: EventId| id@);
                        match next_tie(&self.ties, &cursor) {
                            None => {
                                more = false;
                            },
                            Some(t) => {
                                let following = &self.ties[t].to;
                                let j = match position_of(&self.events, following) {
                                    Some(j) => j,
                                    None => {
                                        return Err(ScoreError::UnknownEvent { event: following.clone() });
                                    },
                                };
                                proof {
                                    lemma_named(evs, j as int);
                                    lemma_named(evs, evs.len() - 1);
                                }
                                proof {
                                    assert(chain_reaches(evs, ties, srcs, cursor@));
                                }
                                let next_span = match self.events[j].span() {
                                    Some(s) => s,
                                    None => {
                                        return Err(
                                            ScoreError::MisorderedTie {
                                                from: cursor.clone(),
                                                to: following.clone(),
                                            },
                                        );
                                    },
                                };
                                if !next_span.start().same_value(&end) {
                                    return Err(
                                        ScoreError::MisorderedTie {
                                            from: cursor.clone(),
                                            to: following.clone(),
                                        },
                                    );
                                }
                                let ghost old_end = end@;
                                proof {
                                    lemma_span_forward(evs[j as int]);
                                    lemma_measure_drops(evs, old_end, next_span@.1, j as int);
                                }
                                end = next_span.end();
                                sources.push(following.clone());
                                cursor = following.clone();
                                proof {
                                    let now = sources@.map_values(|id: EventId| id@);
                                    assert(now =~= srcs.push(following@));
                                    assert forall|m: int| 0 <= m < now.len() - 1 implies next_of(ties, #[trigger] now[m])
                                        == Some(now[m + 1]) && rat_eq(
                                        span_of(evs, now[m + 1]).0,
                                        span_of(evs, now[m]).1,
                                    ) by {
                                        if m < srcs.len() - 1 {
                                            assert(now[m] == srcs[m] && now[m + 1] == srcs[m + 1]);
                                        }
                                    }
                                    assert forall|m: int| 0 <= m < now.len() implies has_event(evs, #[trigger] now[m])
                                        && event_span(event_named(evs, now[m])) is Some by {
                                        if m < srcs.len() {
                                            assert(now[m] == srcs[m]);
                                        }
                                    }
                                    crate::algebra::lemma_rat_eq_refl_symm(next_span@.0, old_end);
                                    crate::algebra::lemma_rat_eq_refl_symm(end@, end@);
                                    crate::time::elimination::lemma_rat_lt_congruent(
                                        next_span@.0,
                                        end@,
                                        old_end,
                                        end@,
                                    );
                                    crate::algebra::lemma_rat_le_trans(span@.0, old_end, end@);
                                }
                            },
                        }
                    }
                    let whole = match BeatSpan::new(span.start(), end) {
                        Ok(w) => w,
                        Err(_) => {
                            return Err(ScoreError::Overflow);
                        },
                    };
                    let g = SoundingGesture { sources, span: whole, pitch: Some(pitch.clone()) };
                    proof {
                        assert(gesture_of(evs, ties, g));
                    }
                    insert_gesture(&mut gestures, g);
                    proof {
                        lemma_collect_step(evs, ties, before, gestures@, g, k as int);
                    }
                },
            }
            k = k + 1;
        }
        proof {
            assert(evs.take(evs.len() as int) =~= evs);
        }
        Ok(gestures)
    }

    /// A description of the score: `score of N events, M ties`.
    pub fn to_string(&self) -> (r: String)
        ensures
            r@ == "score of "@ + decimal(self.events_view().len()) + " events, "@ + decimal(
                self.ties_view().len(),
            ) + " ties"@,
    {
        let mut text = String::from_str("score of ");
        text.append(decimal_text_usize(self.events.len()).as_str());
        text.append(" events, ");
        text.append(decimal_text_usize(self.ties.len()).as_str());
        text.append(" ties");
        text
    }

    /// Rewrites every pitch attachment, keeping identities, scopes,
    /// placements, ties and context; the first conversion that fails, in
    /// identity order, decides the error.
    pub fn try_map_pitch<R, F, E>(self, convert: F) -> (r: Result<Score<R>, E>) where
        F: Fn(P) -> Result<R, E>,

        requires
            forall|k: int|
                0 <= k < self.events_view().len() ==> ((#[trigger] self.events_view()[k]).content_view() matches EventContent::Note { pitch }
                    ==> call_requires(convert, (pitch,))),
        ensures
            r matches Ok(score) ==> {
                &&& score.events_view().len() == self.events_view().len()
                &&& forall|k: int|
                    0 <= k < self.events_view().len() ==> {
                        let (a, b) = (self.events_view()[k], #[trigger] score.events_view()[k]);
                        &&& b.id_view() == a.id_view()
                        &&& b.scope_view() == a.scope_view()
                        &&& b.placement_view() == a.placement_view()
                        &&& b.provenance_view() == a.provenance_view()
                        &&& pitch_rewritten(a.content_view(), convert, b.content_view())
                    }
                &&& score.ties_view() == self.ties_view()
                &&& score.context_view() == self.context_view()
            },
            r matches Err(e) ==> exists|k: int|
                0 <= k < self.events_view().len() && ((#[trigger] self.events_view()[k]).content_view() matches EventContent::Note { pitch }
                    && call_ensures(convert, (pitch,), Err::<R, E>(e))),
    {
        proof {
            use_type_invariant(&self);
        }
        let ghost prior = self.events@;
        let ghost whole = self;
        proof {
            assert(prior == self.events_view());
        }
        let Score { events, ties, context } = self;
        let mut source = events;
        let total = source.len();
        let mut out: Vec<ScoreEvent<R>> = Vec::new();
        let mut k: usize = 0;
        while source.len() > 0
            invariant
                whole == self,
                prior == whole.events_view(),
                prior.len() <= usize::MAX,
                k + source@.len() == prior.len(),
                source@ == prior.skip(k as int),
                out@.len() == k,
                forall|j: int|
                    0 <= j < prior.len() ==> ((#[trigger] prior[j]).content_view() matches EventContent::Note { pitch }
                        ==> call_requires(convert, (pitch,))),
                forall|j: int|
                    0 <= j < k ==> {
                        let (a, b) = (prior[j], #[trigger] out@[j]);
                        &&& b.id_view() == a.id_view()
                        &&& b.scope_view() == a.scope_view()
                        &&& b.placement_view() == a.placement_view()
                        &&& b.provenance_view() == a.provenance_view()
                        &&& pitch_rewritten(a.content_view(), convert, b.content_view())
                    },
            decreases source@.len(),
        {
            let event = source.remove(0);
            proof {
                assert(event == prior[k as int]);
                assert(source@ =~= prior.skip(k + 1));
            }
            let ghost before = event;
            let wrapped = |p: P| -> (o: Result<R, E>)
                requires
                    call_requires(convert, (p,)),
                ensures
                    call_ensures(convert, (p,), o),
            {
                convert(p)
            };
            let mapped = event.try_map_pitch(wrapped);
            match mapped {
                Ok(m) => {
                    out.push(m);
                },
                Err(e) => {
                    proof {
                        assert(prior[k as int] == before);
                        assert(before.content_view() matches EventContent::Note { pitch }
                            && call_ensures(convert, (pitch,), Err::<R, E>(e)));
                        assert(whole.events_view()[k as int] == before);
                        assert(exists|j: int|
                            0 <= j < whole.events_view().len() && ((#[trigger] whole.events_view()[j]).content_view() matches EventContent::Note { pitch }
                                && call_ensures(convert, (pitch,), Err::<R, E>(e))));
                    }
                    return Err(e);
                },
            }
            k = k + 1;
        }
        proof {
            assert forall|i: int, j: int| 0 <= i < j < out@.len() implies text_less(
                (#[trigger] out@[i]).id_view()@,
                (#[trigger] out@[j]).id_view()@,
            ) by {
                assert(text_less(prior[i].id_view()@, prior[j].id_view()@));
            }
            assert forall|t: int| 0 <= t < ties@.len() implies has_event(out@, (#[trigger] ties@[t]).from@)
                && has_event(out@, ties@[t].to@) by {
                let a = choose|i: int| 0 <= i < prior.len() && (#[trigger] prior[i]).id_view()@ == ties@[t].from@;
                let b = choose|i: int| 0 <= i < prior.len() && (#[trigger] prior[i]).id_view()@ == ties@[t].to@;
                assert(out@[a].id_view() == prior[a].id_view());
                assert(out@[b].id_view() == prior[b].id_view());
            }
        }
        Ok(Score { events: out, ties, context })
    }

    /// **Lossy view.** The temporal placements alone, indexed by event, in
    /// identity order; the loss set names what was dropped.
    pub fn project_times(&self) -> (r: Projection<Vec<(EventId, TemporalPlacement)>>)
        ensures
            r.value_view()@ == self.events_view().map_values(
                |e: ScoreEvent<P>| (e.id_view(), e.placement_view()),
            ),
            r.discarded_view() == seq![
                "pitch"@,
                "event scope and voice identity"@,
                "ties"@,
                "shared context"@,
            ],
    {
        let mut out: Vec<(EventId, TemporalPlacement)> = Vec::new();
        let mut k: usize = 0;
        while k < self.events.len()
            invariant
                k <= self.events@.len(),
                out@ == self.events@.take(k as int).map_values(
                    |e: ScoreEvent<P>| (e.id_view(), e.placement_view()),
                ),
            decreases self.events@.len() - k,
        {
            let event = &self.events[k];
            out.push((event.id().clone(), event.placement().clone()));
            proof {
                assert(out@ =~= self.events@.take(k + 1).map_values(
                    |e: ScoreEvent<P>| (e.id_view(), e.placement_view()),
                ));
            }
            k = k + 1;
        }
        proof {
            assert(self.events@.take(self.events@.len() as int) =~= self.events@);
        }
        let discarded = vec!["pitch", "event scope and voice identity", "ties", "shared context"];
        let r = Projection { value: out, discarded };
        proof {
            assert(r.discarded_view() =~= seq![
                "pitch"@,
                "event scope and voice identity"@,
                "ties"@,
                "shared context"@,
            ]);
        }
        r
    }
}

/// Builds an immutable [`Score`], validating as it goes.
#[derive(Debug)]
pub struct ScoreBuilder<P> {
    events: Vec<ScoreEvent<P>>,
    ties: Vec<Tie>,
    context: ScoreContext,
}

impl<P> Default for ScoreBuilder<P> {
    /// A builder with no events, no ties and an empty context.
    fn default() -> (r: Self)
        ensures
            r.events_view().len() == 0,
            r.ties_view().len() == 0,
            r.context_view().meter is None,
            r.context_view().temporal is None,
            r.context_view().provenance is None,
    {
        ScoreBuilder { events: Vec::new(), ties: Vec::new(), context: ScoreContext::default() }
    }
}

impl<P> ScoreBuilder<P> {
    #[verifier::type_invariant]
    spec fn inv(self) -> bool {
        &&& ids_sorted(self.events@)
        &&& ties_known(self.events@, self.ties@)
    }

    /// The events added so far, in identity order.
    pub closed spec fn events_view(&self) -> Seq<ScoreEvent<P>> {
        self.events@
    }

    /// The ties declared so far.
    pub closed spec fn ties_view(&self) -> Seq<Tie> {
        self.ties@
    }

    /// The shared context.
    pub closed spec fn context_view(&self) -> ScoreContext {
        self.context
    }

    #[verifier::spinoff_prover]
    /// Adds an event. Identity is the score's index, so a repeated identity
    /// is a defect rather than an update.
    pub fn event(self, event: ScoreEvent<P>) -> (r: Result<ScoreBuilder<P>, ScoreError>)
        ensures
            r is Err <==> has_event(self.events_view(), event.id_view()@),
            r matches Err(e) ==> (e matches ScoreError::DuplicateEvent { event: id } && id@
                == event.id_view()@),
            r matches Ok(b) ==> {
                &&& inserted_at_place(self.events_view(), b.events_view(), event)
                &&& b.ties_view() == self.ties_view()
                &&& b.context_view() == self.context_view()
            },
    {
        proof {
            use_type_invariant(&self);
        }
        if position_of(&self.events, event.id()).is_some() {
            return Err(ScoreError::DuplicateEvent { event: event.id().clone() });
        }
        let ScoreBuilder { mut events, ties, context } = self;
        let ghost old_events = events@;
        let ghost x = event.id_view()@;
        let mut p: usize = 0;
        while p < events.len() && !text_precedes(event.id().as_str(), events[p].id().as_str())
            invariant
                events@ == old_events,
                p <= events@.len(),
                x == event.id_view()@,
                forall|k: int| 0 <= k < p ==> !text_less(x, (#[trigger] events@[k]).id_view()@),
            decreases events@.len() - p,
        {
            p = p + 1;
        }
        let ghost stop = p < events@.len();
        let ghost inserted = event;
        events.insert(p, event);
        proof {
            assert(events@ == old_events.insert(p as int, inserted));
            assert forall|i: int, j: int|
                0 <= i < j < events@.len() implies text_less(
                (#[trigger] events@[i]).id_view()@,
                (#[trigger] events@[j]).id_view()@,
            ) by {
                if j < p {
                    assert(events@[i] == old_events[i] && events@[j] == old_events[j]);
                } else if j == p {
                    assert(events@[i] == old_events[i]);
                    assert(old_events[i].id_view()@ != x);
                    lemma_text_less_total(x, old_events[i].id_view()@);
                } else if i == p {
                    assert(events@[j] == old_events[j - 1]);
                    assert(text_less(x, old_events[p as int].id_view()@));
                    if j - 1 > p {
                        lemma_text_less_transitive(
                            x,
                            old_events[p as int].id_view()@,
                            old_events[j - 1].id_view()@,
                        );
                    }
                } else if i < p {
                    assert(events@[i] == old_events[i] && events@[j] == old_events[j - 1]);
                } else {
                    assert(events@[i] == old_events[i - 1] && events@[j] == old_events[j - 1]);
                }
            }
            assert forall|t: int| 0 <= t < ties@.len() implies has_event(events@, (#[trigger] ties@[t]).from@)
                && has_event(events@, ties@[t].to@) by {
                let a = choose|k: int| 0 <= k < old_events.len() && (#[trigger] old_events[k]).id_view()@ == ties@[t].from@;
                let b = choose|k: int| 0 <= k < old_events.len() && (#[trigger] old_events[k]).id_view()@ == ties@[t].to@;
                if a < p {
                    assert(events@[a] == old_events[a]);
                } else {
                    assert(events@[a + 1] == old_events[a]);
                }
                if b < p {
                    assert(events@[b] == old_events[b]);
                } else {
                    assert(events@[b + 1] == old_events[b]);
                }
            }
        }
        let r = ScoreBuilder { events, ties, context };
        proof {
            assert(r.events_view() == old_events.insert(p as int, inserted));
            assert(inserted_at_place(old_events, r.events_view(), inserted));
        }
        Ok(r)
    }

    /// Declares a tie between two noteheads. A tie joins two distinct
    /// notes of one scope and one pitch; a relation between different
    /// pitches is a slur or a glissando, not a tie.
    pub fn tie(self, tie: Tie) -> (r: Result<ScoreBuilder<P>, ScoreError>) where P: PartialEq
        ensures
            ({
                let events = self.events_view();
                let (from, to) = (tie.from@, tie.to@);
                if from == to {
                    r matches Err(ScoreError::SelfTie { event }) && event@ == from
                } else if !has_event(events, from) {
                    r matches Err(ScoreError::UnknownEvent { event }) && event@ == from
                } else if !has_event(events, to) {
                    r matches Err(ScoreError::UnknownEvent { event }) && event@ == to
                } else if !(event_named(events, from).content_view() is Note && event_named(
                    events,
                    to,
                ).content_view() is Note) {
                    r matches Err(ScoreError::TieBetweenNonNotes { from: a, to: b }) && a@ == from
                        && b@ == to
                } else if !same_scope(
                    event_named(events, from).scope_view(),
                    event_named(events, to).scope_view(),
                ) {
                    r matches Err(ScoreError::TieAcrossScopes { from: a, to: b }) && a@ == from
                        && b@ == to
                } else {
                    &&& (r is Ok || (r matches Err(ScoreError::TiedPitchesDiffer { from: a, to: b })
                        && a@ == from && b@ == to))
                    &&& P::obeys_eq_spec() ==> (r is Ok <==> note_pitch(event_named(events, from)).eq_spec(
                        &note_pitch(event_named(events, to)),
                    ))
                }
            }),
            r matches Ok(b) ==> {
                &&& b.events_view() == self.events_view()
                &&& b.ties_view() == self.ties_view().push(tie)
                &&& b.context_view() == self.context_view()
            },
    {
        proof {
            use_type_invariant(&self);
        }
        if tie.from.same(&tie.to) {
            return Err(ScoreError::SelfTie { event: tie.from });
        }
        let a = match position_of(&self.events, &tie.from) {
            Some(k) => k,
            None => {
                return Err(ScoreError::UnknownEvent { event: tie.from });
            },
        };
        let b = match position_of(&self.events, &tie.to) {
            Some(k) => k,
            None => {
                return Err(ScoreError::UnknownEvent { event: tie.to });
            },
        };
        proof {
            let ja = choose|j: int|
                0 <= j < self.events@.len() && (#[trigger] self.events@[j]).id_view()@ == tie.from@;
            let jb = choose|j: int|
                0 <= j < self.events@.len() && (#[trigger] self.events@[j]).id_view()@ == tie.to@;
            lemma_sorted_unique(self.events@, ja, a as int);
            lemma_sorted_unique(self.events@, jb, b as int);
        }
        let from = &self.events[a];
        let to = &self.events[b];
        let (left, right) = match (from.pitch(), to.pitch()) {
            (Some(left), Some(right)) => (left, right),
            _ => {
                return Err(ScoreError::TieBetweenNonNotes { from: tie.from, to: tie.to });
            },
        };
        if !from.scope().same(to.scope()) {
            return Err(ScoreError::TieAcrossScopes { from: tie.from, to: tie.to });
        }
        if !left.eq(right) {
            return Err(ScoreError::TiedPitchesDiffer { from: tie.from, to: tie.to });
        }
        let ScoreBuilder { events, mut ties, context } = self;
        let ghost before = ties@;
        ties.push(tie);
        proof {
            assert forall|t: int| 0 <= t < ties@.len() implies has_event(events@, (#[trigger] ties@[t]).from@)
                && has_event(events@, ties@[t].to@) by {
                if t < before.len() {
                    assert(ties@[t] == before[t]);
                } else {
                    assert(events@[a as int].id_view()@ == ties@[t].from@);
                    assert(events@[b as int].id_view()@ == ties@[t].to@);
                }
            }
        }
        Ok(ScoreBuilder { events, ties, context })
    }

    /// Freezes the score, checking what its events refer to: a grace event
    /// must anchor to an event of the score that is not itself a grace
    /// event, and a constrained placement may only name variables that the
    /// declared network contains. The first event in identity order that
    /// fails decides the error.
    pub fn build(self) -> (r: Result<Score<P>, ScoreError>)
        ensures
            r is Ok <==> forall|k: int|
                0 <= k < self.events_view().len() ==> placement_ok(
                    self.events_view(),
                    self.context_view().temporal,
                    #[trigger] self.events_view()[k],
                ),
            r matches Ok(score) ==> {
                &&& score.events_view() == self.events_view()
                &&& score.ties_view() == self.ties_view()
                &&& score.context_view() == self.context_view()
            },
            r matches Err(e) ==> exists|k: int|
                0 <= k < self.events_view().len() && (forall|j: int|
                    0 <= j < k ==> placement_ok(
                        self.events_view(),
                        self.context_view().temporal,
                        #[trigger] self.events_view()[j],
                    )) && !placement_ok(
                    self.events_view(),
                    self.context_view().temporal,
                    self.events_view()[k],
                ) && placement_error(
                    self.events_view(),
                    self.context_view().temporal,
                    self.events_view()[k],
                    e,
                ),
    {
        proof {
            use_type_invariant(&self);
        }
        let ghost evs = self.events@;
        let ghost temporal = self.context.temporal;
        let mut k: usize = 0;
        while k < self.events.len()
            invariant
                evs == self.events@,
                temporal == self.context.temporal,
                ids_sorted(evs),
                k <= evs.len(),
                forall|j: int| 0 <= j < k ==> placement_ok(evs, temporal, #[trigger] evs[j]),
            decreases evs.len() - k,
        {
            let event = &self.events[k];
            proof {
                assert(evs[k as int] == *event);
            }
            match event.placement() {
                TemporalPlacement::Grace { anchor, .. } => {
                    match position_of(&self.events, anchor) {
                        None => {
                            let error = ScoreError::UnknownEvent { event: anchor.clone() };
                            proof {
                                lemma_first_defect(&self, evs, temporal, k as int, error);
                            }
                            return Err(error);
                        },
                        Some(j) => {
                            proof {
                                let i = choose|i: int|
                                    0 <= i < evs.len() && (#[trigger] evs[i]).id_view()@ == anchor@;
                                lemma_sorted_unique(evs, i, j as int);
                            }
                            if let TemporalPlacement::Grace { .. } = self.events[j].placement() {
                                let error = ScoreError::GraceAnchorIsGrace { event: event.id().clone() };
                                proof {
                                    lemma_first_defect(&self, evs, temporal, k as int, error);
                                }
                                return Err(error);
                            }
                        },
                    }
                },
                TemporalPlacement::ConstraintPlacement { onset, offset } => {
                    if let Some(network) = &self.context.temporal {
                        if !declares(network, onset) {
                            let error = ScoreError::UndeclaredTemporalVariable {
                                variable: onset.to_text(),
                            };
                            proof {
                                lemma_first_defect(&self, evs, temporal, k as int, error);
                            }
                            return Err(error);
                        }
                        if let Some(end) = offset {
                            if !declares(network, end) {
                                let error = ScoreError::UndeclaredTemporalVariable {
                                    variable: end.to_text(),
                                };
                                proof {
                                    lemma_first_defect(&self, evs, temporal, k as int, error);
                                }
                                return Err(error);
                            }
                        }
                    }
                },
                TemporalPlacement::FixedSpan { .. } => {},
            }
            k = k + 1;
        }
        Ok(Score { events: self.events, ties: self.ties, context: self.context })
    }

    /// Sets the shared context.
    pub fn context(self, context: ScoreContext) -> (r: ScoreBuilder<P>)
        ensures
            r.events_view() == self.events_view(),
            r.ties_view() == self.ties_view(),
            r.context_view() == context,
    {
        proof {
            use_type_invariant(&self);
        }
        ScoreBuilder { events: self.events, ties: self.ties, context }
    }
}

/// The first event whose placement is not in order decides the error.
proof fn lemma_first_defect<P>(
    builder: &ScoreBuilder<P>,
    evs: Seq<ScoreEvent<P>>,
    temporal: Option<StpProblem>,
    k: int,
    error: ScoreError,
)
    requires
        evs == builder.events_view(),
        temporal == builder.context_view().temporal,
        0 <= k < evs.len(),
        forall|j: int| 0 <= j < k ==> placement_ok(evs, temporal, #[trigger] evs[j]),
        !placement_ok(evs, temporal, evs[k]),
        placement_error(evs, temporal, evs[k], error),
    ensures
        !(forall|j: int|
            0 <= j < builder.events_view().len() ==> placement_ok(
                builder.events_view(),
                builder.context_view().temporal,
                #[trigger] builder.events_view()[j],
            )),
        exists|j: int|
            0 <= j < builder.events_view().len() && (forall|i: int|
                0 <= i < j ==> placement_ok(
                    builder.events_view(),
                    builder.context_view().temporal,
                    #[trigger] builder.events_view()[i],
                )) && !placement_ok(
                builder.events_view(),
                builder.context_view().temporal,
                builder.events_view()[j],
            ) && placement_error(
                builder.events_view(),
                builder.context_view().temporal,
                builder.events_view()[j],
                error,
            ),
{
    assert(!placement_ok(builder.events_view(), builder.context_view().temporal, builder.events_view()[k]));
}


/// A voice is active from the onset of each of its sounding notes up to,
/// but not including, the note's end: at every such position, the onset
/// itself among them, some event of the score sounds in the voice, so
/// `voice_is_inactive` answers `false` there.
pub proof fn law_voice_active_within_its_note<P>(score: Score<P>, k: int, voice: Seq<char>, at: (int, int))
    requires
        0 <= k < score.events_view().len(),
        score.events_view()[k].scope_view() matches EventScope::VoiceLocal(v) && v@ == voice,
        score.events_view()[k].content_view() is Note || score.events_view()[k].content_view() is UnpitchedNote,
        event_span(score.events_view()[k]) matches Some((start, end)) && rat_le(start, at) && rat_lt(
            at,
            end,
        ),
    ensures
        exists|j: int| 0 <= j < score.events_view().len() && sounding_at(#[trigger] score.events_view()[j], voice, at),
{
    let e = score.events_view()[k];
    let (start, end) = event_span(e)->0;
    assert(!rat_eq(end, at));
    assert(rat_le(at, end));
    assert(sounding_at(e, voice, at));
}
} // verus!
