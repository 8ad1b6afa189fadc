//! The bounded events of a compiled performance plan. Every field is a
//! bounded integer, so a reader on a performance thread needs no
//! arbitrary-precision arithmetic and no lookup by name.
use crate::error::RealizationError;
use crate::realization::provenance::ProvenanceId;
use vstd::prelude::*;

verus! {

/// The largest tick a plan may reference.
pub const MAX_TICK: u32 = 2147483647u32;

/// The pitch range a plan may reference, in millicents from its reference.
pub const MAX_MILLICENTS: i32 = 24000000i32;

/// A resolved voice index: an index rather than a name, so that resolving
/// names happens before a performance, not during it.
pub type VoiceIndex = u16;

/// One event of a compiled plan.
#[derive(Debug, Clone, Copy, PartialEq, Eq, PartialOrd, Ord, Hash)]
pub struct PlannedEvent {
    /// When the event starts, in ticks.
    pub onset_tick: u32,
    /// How long it lasts, in ticks. Zero is legal: a control event is an
    /// instant.
    pub duration_ticks: u32,
    /// Its pitch, in millicents from the plan's reference, or `None` for an
    /// unpitched or control event.
    pub millicents: Option<i32>,
    /// Which resolved voice it belongs to.
    pub voice: VoiceIndex,
}

impl PlannedEvent {
    /// The tick one past the end of this event, saturating at the largest
    /// tick a `u32` holds.
    pub fn end_tick(self) -> (r: u32)
        ensures
            r == (if self.onset_tick + self.duration_ticks <= u32::MAX {
                (self.onset_tick + self.duration_ticks) as u32
            } else {
                u32::MAX
            }),
    {
        self.onset_tick.saturating_add(self.duration_ticks)
    }
}

/// What a built plan guarantees on a performance thread: a value to check
/// rather than a marker to trust.
#[derive(Debug, Clone, Copy, PartialEq, Eq, Hash)]
pub struct RealtimeContract {
    /// Reading the plan allocates nothing.
    pub no_allocation_on_read: bool,
    /// Reading the plan performs no arbitrary-precision arithmetic.
    pub no_arbitrary_precision: bool,
    /// Every numeric range was validated at build time.
    pub bounded_ranges_validated: bool,
    /// Voice and device mappings are resolved to indices.
    pub device_mapping_resolved: bool,
    /// Events are sorted, so a reader can seek by binary search.
    pub events_sorted: bool,
}

impl RealtimeContract {
    /// Whether every guarantee holds.
    pub fn is_satisfied(self) -> (r: bool)
        ensures
            r == (self.no_allocation_on_read && self.no_arbitrary_precision
                && self.bounded_ranges_validated && self.device_mapping_resolved
                && self.events_sorted),
    {
        self.no_allocation_on_read && self.no_arbitrary_precision && self.bounded_ranges_validated
            && self.device_mapping_resolved && self.events_sorted
    }
}


/// The tick one past the end of an event, saturating.
pub open spec fn end_of(e: PlannedEvent) -> int {
    if e.onset_tick + e.duration_ticks <= u32::MAX {
        e.onset_tick + e.duration_ticks
    } else {
        u32::MAX as int
    }
}

/// The event lies in the ranges a plan may reference.
pub open spec fn in_range(e: PlannedEvent) -> bool {
    &&& e.onset_tick <= MAX_TICK
    &&& end_of(e) <= MAX_TICK
    &&& (e.millicents matches Some(m) ==> -MAX_MILLICENTS <= m <= MAX_MILLICENTS)
}

/// `a < b` for pitches, an absent pitch first.
pub open spec fn pitch_lt(a: Option<i32>, b: Option<i32>) -> bool {
    match (a, b) {
        (None, Some(_)) => true,
        (Some(x), Some(y)) => x < y,
        _ => false,
    }
}

/// The order of a plan's events: by onset, then duration, then pitch with an
/// absent pitch first, then voice.
pub open spec fn event_le(a: PlannedEvent, b: PlannedEvent) -> bool {
    if a.onset_tick != b.onset_tick {
        a.onset_tick < b.onset_tick
    } else if a.duration_ticks != b.duration_ticks {
        a.duration_ticks < b.duration_ticks
    } else if a.millicents != b.millicents {
        pitch_lt(a.millicents, b.millicents)
    } else {
        a.voice <= b.voice
    }
}

/// The events are in plan order.
pub open spec fn events_sorted(s: Seq<PlannedEvent>) -> bool {
    forall|i: int, j: int| 0 <= i < j < s.len() ==> event_le(#[trigger] s[i], #[trigger] s[j])
}

/// `count` is one more than the largest voice index among the events, or
/// zero where there are none.
pub open spec fn voice_bound(events: Seq<PlannedEvent>, count: int) -> bool {
    &&& forall|k: int| 0 <= k < events.len() ==> (#[trigger] events[k]).voice < count
    &&& (count == 0 || exists|k: int| 0 <= k < events.len() && (#[trigger] events[k]).voice + 1 == count)
}

/// `w` is the run of consecutive events whose onset lies in `[from, to)`:
/// every event before it starts earlier, every event after it starts at
/// `to` or later.
pub open spec fn window_of(events: Seq<PlannedEvent>, from: u32, to: u32, w: Seq<PlannedEvent>) -> bool {
    exists|s: int, e: int|
        0 <= s <= e <= events.len() && #[trigger] events.subrange(s, e) == w && (forall|k: int|
            0 <= k < s ==> (#[trigger] events[k]).onset_tick < from) && (forall|k: int|
            s <= k < e ==> from <= (#[trigger] events[k]).onset_tick < to) && (forall|k: int|
            e <= k < events.len() ==> (#[trigger] events[k]).onset_tick >= to)
}

proof fn lemma_event_order(a: PlannedEvent, b: PlannedEvent, c: PlannedEvent)
    ensures
        event_le(a, a),
        event_le(a, b) || event_le(b, a),
        event_le(a, b) && event_le(b, c) ==> event_le(a, c),
        event_le(a, b) ==> a.onset_tick <= b.onset_tick,
{
}

/// `a` precedes or equals `b` in plan order.
fn event_precedes(a: &PlannedEvent, b: &PlannedEvent) -> (r: bool)
    ensures
        r == event_le(*a, *b),
{
    if a.onset_tick != b.onset_tick {
        a.onset_tick < b.onset_tick
    } else if a.duration_ticks != b.duration_ticks {
        a.duration_ticks < b.duration_ticks
    } else {
        match (a.millicents, b.millicents) {
            (None, None) => a.voice <= b.voice,
            (None, Some(_)) => true,
            (Some(_), None) => false,
            (Some(x), Some(y)) => if x != y {
                x < y
            } else {
                a.voice <= b.voice
            },
        }
    }
}

/// Inserts `e` after every event that precedes or equals it.
fn insert_in_order(sorted: &mut Vec<PlannedEvent>, e: PlannedEvent)
    requires
        events_sorted(old(sorted)@),
    ensures
        events_sorted(final(sorted)@),
        final(sorted)@.to_multiset() == old(sorted)@.to_multiset().insert(e),
{
    let mut p: usize = 0;
    while p < sorted.len() && event_precedes(&sorted[p], &e)
        invariant
            p <= sorted@.len(),
            sorted@ == old(sorted)@,
            events_sorted(sorted@),
            forall|k: int| 0 <= k < p ==> event_le(#[trigger] sorted@[k], e),
        decreases sorted@.len() - p,
    {
        p += 1;
    }
    let ghost before = sorted@;
    proof {
        if p < before.len() {
            lemma_event_order(before[p as int], e, e);
            assert forall|k: int| p <= k < before.len() implies event_le(e, #[trigger] before[k]) by {
                lemma_event_order(e, before[p as int], before[k]);
            }
        }
        vstd::seq_lib::to_multiset_insert(before, p as int, e);
    }
    sorted.insert(p, e);
    proof {
        assert forall|i: int, j: int| 0 <= i < j < sorted@.len() implies event_le(
            #[trigger] sorted@[i],
            #[trigger] sorted@[j],
        ) by {
            if i < p && j == p {
                assert(sorted@[i] == before[i]);
            } else if i == p {
                assert(sorted@[j] == before[j - 1]);
            } else if i < p && j > p {
                assert(sorted@[i] == before[i] && sorted@[j] == before[j - 1]);
            } else if j < p {
                assert(sorted@[i] == before[i] && sorted@[j] == before[j]);
            } else {
                assert(sorted@[i] == before[i - 1] && sorted@[j] == before[j - 1]);
            }
        }
    }
}

/// The first index whose event starts at `tick` or later.
fn first_from(events: &Vec<PlannedEvent>, tick: u32) -> (p: usize)
    requires
        events_sorted(events@),
    ensures
        p <= events@.len(),
        forall|k: int| 0 <= k < p ==> (#[trigger] events@[k]).onset_tick < tick,
        forall|k: int| p <= k < events@.len() ==> (#[trigger] events@[k]).onset_tick >= tick,
{
    let mut lo: usize = 0;
    let mut hi: usize = events.len();
    while lo < hi
        invariant
            lo <= hi <= events@.len(),
            events_sorted(events@),
            forall|k: int| 0 <= k < lo ==> (#[trigger] events@[k]).onset_tick < tick,
            forall|k: int| hi <= k < events@.len() ==> (#[trigger] events@[k]).onset_tick >= tick,
        decreases hi - lo,
    {
        let mid = lo + (hi - lo) / 2;
        if events[mid].onset_tick < tick {
            proof {
                assert forall|k: int| 0 <= k < mid + 1 implies (#[trigger] events@[k]).onset_tick < tick by {
                    if k < mid {
                        lemma_event_order(events@[k], events@[mid as int], events@[mid as int]);
                    }
                }
            }
            lo = mid + 1;
        } else {
            proof {
                assert forall|k: int| mid <= k < events@.len() implies (#[trigger] events@[k]).onset_tick
                    >= tick by {
                    if k > mid {
                        lemma_event_order(events@[mid as int], events@[k], events@[k]);
                    }
                }
            }
            hi = mid;
        }
    }
    lo
}

/// A compiled, bounded performance plan: sorted events of bounded integers,
/// resolved voice indices, the record `R` of what compiling it cost, and its
/// provenance. Immutable once built.
#[derive(Debug)]
pub struct PerformancePlan<R> {
    ticks_per_beat: u32,
    reference_millicents: i32,
    events: Vec<PlannedEvent>,
    voice_count: usize,
    residuals: R,
    provenance: Option<ProvenanceId>,
}

/// Builds a validated performance plan.
#[derive(Debug)]
pub struct PerformancePlanBuilder<R> {
    ticks_per_beat: u32,
    reference_millicents: i32,
    events: Vec<PlannedEvent>,
    voice_count: usize,
    residuals: R,
    provenance: Option<ProvenanceId>,
}

impl<R> PerformancePlanBuilder<R> {
    /// Every event added so far is in range, and the voice count is one more
    /// than the largest voice index among them.
    #[verifier::type_invariant]
    spec fn inv(self) -> bool {
        &&& forall|k: int| 0 <= k < self.events@.len() ==> in_range(#[trigger] self.events@[k])
        &&& voice_bound(self.events@, self.voice_count as int)
    }

    /// The resolution the plan will have.
    pub closed spec fn ticks_view(self) -> u32 {
        self.ticks_per_beat
    }

    /// The reference pitch.
    pub closed spec fn reference_view(self) -> i32 {
        self.reference_millicents
    }

    /// The events added so far, in the order they were added.
    pub closed spec fn events_view(self) -> Seq<PlannedEvent> {
        self.events@
    }

    /// One more than the largest voice index added so far.
    pub closed spec fn voice_count_view(self) -> usize {
        self.voice_count
    }

    /// The record of what compiling cost.
    pub closed spec fn residuals_view(self) -> R {
        self.residuals
    }

    /// The provenance, if attached.
    pub closed spec fn provenance_view(self) -> Option<ProvenanceId> {
        self.provenance
    }

    /// Sets the reference pitch every event's millicents are measured from.
    pub fn reference_millicents(self, millicents: i32) -> (r: Self)
        ensures
            r.reference_view() == millicents,
            r.ticks_view() == self.ticks_view(),
            r.events_view() == self.events_view(),
            r.voice_count_view() == self.voice_count_view(),
            r.residuals_view() == self.residuals_view(),
            r.provenance_view() == self.provenance_view(),
    {
        proof {
            use_type_invariant(&self);
        }
        PerformancePlanBuilder {
            ticks_per_beat: self.ticks_per_beat,
            reference_millicents: millicents,
            events: self.events,
            voice_count: self.voice_count,
            residuals: self.residuals,
            provenance: self.provenance,
        }
    }

    /// Adds an event, checking its ticks and its pitch against the ranges a
    /// plan may reference.
    pub fn event(self, event: PlannedEvent) -> (r: Result<Self, RealizationError>)
        ensures
            (event.onset_tick > MAX_TICK || end_of(event) > MAX_TICK) ==> r == Err::<Self, RealizationError>(
                RealizationError::TickOutOfRange { tick: end_of(event) as u64 },
            ),
            event.onset_tick <= MAX_TICK && end_of(event) <= MAX_TICK && (event.millicents matches Some(m)
                && (m < -MAX_MILLICENTS || m > MAX_MILLICENTS)) ==> r == Err::<Self, RealizationError>(
                RealizationError::PitchOutOfRange { millicents: event.millicents->0 },
            ),
            in_range(event) ==> (r matches Ok(b) && b.events_view() == self.events_view().push(event)
                && b.voice_count_view() == (if self.voice_count_view() > event.voice {
                self.voice_count_view() as int
            } else {
                event.voice + 1
            }) && b.ticks_view() == self.ticks_view() && b.reference_view() == self.reference_view()
                && b.residuals_view() == self.residuals_view() && b.provenance_view()
                == self.provenance_view()),
    {
        proof {
            use_type_invariant(&self);
        }
        let end = event.end_tick();
        if event.onset_tick > MAX_TICK || end > MAX_TICK {
            return Err(RealizationError::TickOutOfRange { tick: end as u64 });
        }
        match event.millicents {
            Some(m) => {
                if m < -MAX_MILLICENTS || m > MAX_MILLICENTS {
                    return Err(RealizationError::PitchOutOfRange { millicents: m });
                }
            },
            None => {},
        }
        let mut events = self.events;
        let ghost before = events@;
        events.push(event);
        let needed: usize = event.voice as usize + 1;
        let voice_count = if self.voice_count > event.voice as usize {
            self.voice_count
        } else {
            needed
        };
        proof {
            assert(events@[before.len() as int] == event);
            assert forall|k: int| 0 <= k < events@.len() implies (#[trigger] events@[k]).voice < voice_count by {
                if k < before.len() {
                    assert(events@[k] == before[k]);
                }
            }
            if voice_count != 0 {
                if voice_count == needed {
                    assert(events@[before.len() as int].voice + 1 == voice_count);
                } else {
                    let j = choose|j: int| 0 <= j < before.len() && (#[trigger] before[j]).voice + 1 == self.voice_count;
                    assert(events@[j] == before[j]);
                }
            }
            assert forall|k: int| 0 <= k < events@.len() implies in_range(#[trigger] events@[k]) by {
                if k < before.len() {
                    assert(events@[k] == before[k]);
                }
            }
        }
        Ok(
            PerformancePlanBuilder {
                ticks_per_beat: self.ticks_per_beat,
                reference_millicents: self.reference_millicents,
                events,
                voice_count,
                residuals: self.residuals,
                provenance: self.provenance,
            },
        )
    }

    /// Records what compiling the plan cost.
    pub fn residuals(self, residuals: R) -> (r: Self)
        ensures
            r.residuals_view() == residuals,
            r.ticks_view() == self.ticks_view(),
            r.reference_view() == self.reference_view(),
            r.events_view() == self.events_view(),
            r.voice_count_view() == self.voice_count_view(),
            r.provenance_view() == self.provenance_view(),
    {
        proof {
            use_type_invariant(&self);
        }
        PerformancePlanBuilder {
            ticks_per_beat: self.ticks_per_beat,
            reference_millicents: self.reference_millicents,
            events: self.events,
            voice_count: self.voice_count,
            residuals,
            provenance: self.provenance,
        }
    }

    /// Attaches provenance.
    pub fn provenance(self, provenance: ProvenanceId) -> (r: Self)
        ensures
            r.provenance_view() == Some(provenance),
            r.ticks_view() == self.ticks_view(),
            r.reference_view() == self.reference_view(),
            r.events_view() == self.events_view(),
            r.voice_count_view() == self.voice_count_view(),
            r.residuals_view() == self.residuals_view(),
    {
        proof {
            use_type_invariant(&self);
        }
        PerformancePlanBuilder {
            ticks_per_beat: self.ticks_per_beat,
            reference_millicents: self.reference_millicents,
            events: self.events,
            voice_count: self.voice_count,
            residuals: self.residuals,
            provenance: Some(provenance),
        }
    }

    /// Freezes the plan, sorting its events once so a reader can seek.
    pub fn build(self) -> (r: Result<PerformancePlan<R>, RealizationError>)
        ensures
            self.ticks_view() == 0 ==> r == Err::<PerformancePlan<R>, RealizationError>(
                RealizationError::ZeroResolution,
            ),
            self.ticks_view() > 0 ==> (r matches Ok(p) && p.ticks_view() == self.ticks_view()
                && p.reference_view() == self.reference_view() && events_sorted(p.events_view())
                && p.events_view().to_multiset() == self.events_view().to_multiset()
                && p.voice_count_view() == self.voice_count_view() && p.residuals_view()
                == self.residuals_view() && p.provenance_view() == self.provenance_view()),
    {
        proof {
            use_type_invariant(&self);
        }
        if self.ticks_per_beat == 0 {
            return Err(RealizationError::ZeroResolution);
        }
        let ghost all = self.events@;
        let mut sorted: Vec<PlannedEvent> = Vec::new();
        let mut k: usize = 0;
        proof {
            assert(all.take(0) =~= Seq::<PlannedEvent>::empty());
        }
        while k < self.events.len()
            invariant
                all == self.events@,
                k <= all.len(),
                events_sorted(sorted@),
                sorted@.to_multiset() == all.take(k as int).to_multiset(),
            decreases all.len() - k,
        {
            insert_in_order(&mut sorted, self.events[k]);
            proof {
                assert(all.take(k + 1) =~= all.take(k as int).push(all[k as int]));
                vstd::seq_lib::to_multiset_build(all.take(k as int), all[k as int]);
            }
            k += 1;
        }
        proof {
            assert(all.take(all.len() as int) =~= all);
            assert forall|j: int| 0 <= j < sorted@.len() implies in_range(#[trigger] sorted@[j]) && sorted@[j].voice
                < self.voice_count by {
                vstd::seq_lib::to_multiset_contains(sorted@, sorted@[j]);
                vstd::seq_lib::to_multiset_contains(all, sorted@[j]);
                assert(sorted@.contains(sorted@[j]));
                let i = choose|i: int| 0 <= i < all.len() && all[i] == sorted@[j];
                assert(in_range(all[i]) && all[i].voice < self.voice_count);
            }
            if self.voice_count != 0 {
                let i = choose|i: int| 0 <= i < all.len() && (#[trigger] all[i]).voice + 1 == self.voice_count;
                vstd::seq_lib::to_multiset_contains(all, all[i]);
                vstd::seq_lib::to_multiset_contains(sorted@, all[i]);
                assert(all.contains(all[i]));
                let j = choose|j: int| 0 <= j < sorted@.len() && sorted@[j] == all[i];
                assert(sorted@[j].voice + 1 == self.voice_count);
            }
        }
        Ok(
            PerformancePlan {
                ticks_per_beat: self.ticks_per_beat,
                reference_millicents: self.reference_millicents,
                events: sorted,
                voice_count: self.voice_count,
                residuals: self.residuals,
                provenance: self.provenance,
            },
        )
    }
}

impl<R: Clone> Clone for PerformancePlanBuilder<R> {
    fn clone(&self) -> (r: Self)
        ensures
            r.ticks_view() == self.ticks_view(),
            r.reference_view() == self.reference_view(),
            r.events_view() == self.events_view(),
            r.voice_count_view() == self.voice_count_view(),
            r.provenance_view() == self.provenance_view(),
            cloned(self.residuals_view(), r.residuals_view()),
    {
        proof {
            use_type_invariant(self);
        }
        let provenance = match &self.provenance {
            Some(p) => Some(p.clone()),
            None => None,
        };
        let events = self.events.clone();
        proof {
            assert(events@ =~= self.events@);
        }
        PerformancePlanBuilder {
            ticks_per_beat: self.ticks_per_beat,
            reference_millicents: self.reference_millicents,
            events,
            voice_count: self.voice_count,
            residuals: self.residuals.clone(),
            provenance,
        }
    }
}

impl<R> PerformancePlan<R> {
    /// A plan has a resolution, keeps its events sorted and in range, and
    /// counts one more voice than the largest voice index it references.
    #[verifier::type_invariant]
    spec fn inv(self) -> bool {
        &&& self.ticks_per_beat > 0
        &&& events_sorted(self.events@)
        &&& forall|k: int| 0 <= k < self.events@.len() ==> in_range(#[trigger] self.events@[k])
        &&& voice_bound(self.events@, self.voice_count as int)
    }

    /// The tick resolution.
    pub closed spec fn ticks_view(self) -> u32 {
        self.ticks_per_beat
    }

    /// The reference pitch.
    pub closed spec fn reference_view(self) -> i32 {
        self.reference_millicents
    }

    /// The events, in plan order.
    pub closed spec fn events_view(self) -> Seq<PlannedEvent> {
        self.events@
    }

    /// One more than the largest voice index referenced.
    pub closed spec fn voice_count_view(self) -> usize {
        self.voice_count
    }

    /// The record of what compiling cost.
    pub closed spec fn residuals_view(self) -> R {
        self.residuals
    }

    /// The provenance of the compilation.
    pub closed spec fn provenance_view(self) -> Option<ProvenanceId> {
        self.provenance
    }

    /// The plan's tick resolution, which is never zero.
    pub fn ticks_per_beat(&self) -> (r: u32)
        ensures
            r == self.ticks_view(),
            r > 0,
    {
        proof {
            use_type_invariant(self);
        }
        self.ticks_per_beat
    }

    /// The reference pitch every event's millicents are measured from.
    pub fn reference_millicents(&self) -> (r: i32)
        ensures
            r == self.reference_view(),
    {
        self.reference_millicents
    }

    /// Every event, in plan order: sorted, and each in range.
    pub fn events(&self) -> (r: &[PlannedEvent])
        ensures
            r@ == self.events_view(),
            events_sorted(r@),
            forall|k: int| 0 <= k < r@.len() ==> in_range(#[trigger] r@[k]),
    {
        proof {
            use_type_invariant(self);
        }
        self.events.as_slice()
    }

    /// The events whose onset falls in `[from, to)`, found by two binary
    /// searches and borrowed from the plan's own storage.
    pub fn events_in(&self, from: u32, to: u32) -> (r: &[PlannedEvent])
        ensures
            to <= from ==> r@.len() == 0,
            from < to ==> window_of(self.events_view(), from, to, r@),
    {
        proof {
            use_type_invariant(self);
        }
        if to <= from {
            return &[];
        }
        let start = first_from(&self.events, from);
        let end = first_from(&self.events, to);
        proof {
            if end < start {
                assert(self.events@[end as int].onset_tick >= to);
                assert(self.events@[end as int].onset_tick < from);
            }
        }
        let r = vstd::slice::slice_subrange(self.events.as_slice(), start, end);
        proof {
            assert(self.events@.subrange(start as int, end as int) == r@);
        }
        r
    }

    /// How many resolved voices the plan references: one more than the
    /// largest voice index, or zero for an empty plan.
    pub fn voice_count(&self) -> (r: usize)
        ensures
            r == self.voice_count_view(),
            voice_bound(self.events_view(), r as int),
    {
        proof {
            use_type_invariant(self);
        }
        self.voice_count
    }

    /// What compiling the plan cost.
    pub fn residuals(&self) -> (r: &R)
        ensures
            *r == self.residuals_view(),
    {
        &self.residuals
    }

    /// The provenance of the compilation.
    pub fn provenance(&self) -> (r: Option<&ProvenanceId>)
        ensures
            match self.provenance_view() {
                Some(p) => r == Some(&p),
                None => r is None,
            },
    {
        match &self.provenance {
            Some(p) => Some(p),
            None => None,
        }
    }

    /// What this plan guarantees on a performance thread: every guarantee,
    /// each established when the plan was built.
    pub fn realtime_contract(&self) -> (r: RealtimeContract)
        ensures
            r.no_allocation_on_read && r.no_arbitrary_precision && r.bounded_ranges_validated
                && r.device_mapping_resolved && r.events_sorted,
    {
        RealtimeContract {
            no_allocation_on_read: true,
            no_arbitrary_precision: true,
            bounded_ranges_validated: true,
            device_mapping_resolved: true,
            events_sorted: true,
        }
    }

    /// The last tick any event occupies, or zero for an empty plan.
    pub fn end_tick(&self) -> (r: u32)
        ensures
            forall|k: int| 0 <= k < self.events_view().len() ==> end_of(#[trigger] self.events_view()[k]) <= r,
            self.events_view().len() == 0 ==> r == 0,
            self.events_view().len() > 0 ==> exists|k: int|
                0 <= k < self.events_view().len() && end_of(#[trigger] self.events_view()[k]) == r,
    {
        let mut best: u32 = 0;
        let mut k: usize = 0;
        while k < self.events.len()
            invariant
                k <= self.events@.len(),
                forall|j: int| 0 <= j < k ==> end_of(#[trigger] self.events@[j]) <= best,
                k == 0 ==> best == 0,
                k > 0 ==> exists|j: int| 0 <= j < k && end_of(#[trigger] self.events@[j]) == best,
            decreases self.events@.len() - k,
        {
            let end = self.events[k].end_tick();
            if end > best || k == 0 {
                best = end;
            }
            k += 1;
        }
        best
    }
}

impl<R: Default> PerformancePlan<R> {
    /// Starts building a plan at the given resolution, with no events, a
    /// reference of zero, the default residual record and no provenance.
    pub fn builder(ticks_per_beat: u32) -> (r: PerformancePlanBuilder<R>)
        ensures
            r.ticks_view() == ticks_per_beat,
            r.reference_view() == 0,
            r.events_view().len() == 0,
            r.voice_count_view() == 0,
            r.provenance_view() is None,
    {
        PerformancePlanBuilder {
            ticks_per_beat,
            reference_millicents: 0,
            events: Vec::new(),
            voice_count: 0,
            residuals: R::default(),
            provenance: None,
        }
    }
}

} // verus!
