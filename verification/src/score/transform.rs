//! Score transformations: a relation between source and destination event
//! identities, a transformation of the attached pitches, a transformation of
//! structural time, and a chain of provenance.
//!
//! Composition is an operation with laws, so it is offered only where every
//! component composes: a declared pitch or temporal component, which this
//! library cannot evaluate, withdraws the compositional claim.
use crate::algebra::{
    fits, lemma_den_product, lemma_pos_ops, lemma_q_view, lemma_rat_add_assoc_comm,
    lemma_rat_add_congruent, lemma_rat_distrib, lemma_rat_eq_refl_symm, lemma_rat_eq_trans,
    lemma_rat_mul_assoc, lemma_rat_mul_congruent, lemma_reduce_eq, rat_add, rat_eq, rat_mul, reduce,
    Q,
};
use crate::error::ScoreError;
use crate::realization::provenance::ProvenanceId;
use crate::score::id::EventId;
use crate::time::beat::{BeatTime, Beats};
use vstd::prelude::*;

verus! {

broadcast use lemma_q_view;

/// A pair of identities as text.
pub type EdgeText = (Seq<char>, Seq<char>);

/// The pairs of a relation as text.
pub open spec fn edges_text(edges: Seq<(EventId, EventId)>) -> Seq<EdgeText> {
    edges.map_values(|e: (EventId, EventId)| (e.0@, e.1@))
}

/// The routes from `e` onward through `b`: `(e.0, g)` for every `e.1 -> g`
/// of `b`, in `b`'s order.
pub open spec fn routes(e: EdgeText, b: Seq<EdgeText>) -> Seq<EdgeText>
    decreases b.len(),
{
    if b.len() == 0 {
        Seq::empty()
    } else {
        let rest = routes(e, b.drop_last());
        if b.last().0 == e.1 {
            rest.push((e.0, b.last().1))
        } else {
            rest
        }
    }
}

/// Composition by pullback: `(e, g)` for every `e -> m` of `a` and `m -> g`
/// of `b`, in the order of `a`, then of `b`.
pub open spec fn pullback(a: Seq<EdgeText>, b: Seq<EdgeText>) -> Seq<EdgeText>
    decreases a.len(),
{
    if a.len() == 0 {
        Seq::empty()
    } else {
        pullback(a.drop_last(), b) + routes(a.last(), b)
    }
}

/// The destinations of `source`, in order.
pub open spec fn images_of(edges: Seq<EdgeText>, source: Seq<char>) -> Seq<Seq<char>>
    decreases edges.len(),
{
    if edges.len() == 0 {
        Seq::empty()
    } else {
        let rest = images_of(edges.drop_last(), source);
        if edges.last().0 == source {
            rest.push(edges.last().1)
        } else {
            rest
        }
    }
}

/// The sources of `target`, in order.
pub open spec fn preimages_of(edges: Seq<EdgeText>, target: Seq<char>) -> Seq<Seq<char>>
    decreases edges.len(),
{
    if edges.len() == 0 {
        Seq::empty()
    } else {
        let rest = preimages_of(edges.drop_last(), target);
        if edges.last().1 == target {
            rest.push(edges.last().0)
        } else {
            rest
        }
    }
}

/// Every source has one pair and every destination has one pair.
pub open spec fn one_to_one(edges: Seq<EdgeText>) -> bool {
    forall|i: int, j: int|
        0 <= i < j < edges.len() ==> (#[trigger] edges[i]).0 != (#[trigger] edges[j]).0
            && edges[i].1 != edges[j].1
}

/// The identity pairs on a list of identities.
pub open spec fn diagonal(events: Seq<Seq<char>>) -> Seq<EdgeText> {
    events.map_values(|e: Seq<char>| (e, e))
}

/// A relation between source and destination event identities: a span rather
/// than a function, so that splits, merges, insertions and deletions are
/// expressible.
#[derive(Debug, Clone, PartialEq, Eq)]
pub struct EventRelation {
    edges: Vec<(EventId, EventId)>,
}

impl EventRelation {
    /// The pairs as text.
    pub closed spec fn view_edges(&self) -> Seq<EdgeText> {
        edges_text(self.edges@)
    }

    /// An empty relation.
    pub fn new() -> (r: EventRelation)
        ensures
            r.view_edges().len() == 0,
    {
        EventRelation { edges: Vec::new() }
    }

    /// A relation from explicit pairs.
    pub fn from_pairs(pairs: Vec<(EventId, EventId)>) -> (r: EventRelation)
        ensures
            r.view_edges() == edges_text(pairs@),
    {
        EventRelation { edges: pairs }
    }

    /// The identity relation on a list of events.
    pub fn identity(events: &[&EventId]) -> (r: EventRelation)
        ensures
            r.view_edges() == diagonal(events@.map_values(|e: &EventId| e@)),
    {
        let mut edges: Vec<(EventId, EventId)> = Vec::new();
        let mut i: usize = 0;
        while i < events.len()
            invariant
                i <= events@.len(),
                edges_text(edges@) == diagonal(events@.map_values(|e: &EventId| e@)).take(i as int),
            decreases events@.len() - i,
        {
            let event = events[i];
            let ghost before = edges@;
            let pair = (event.clone(), event.clone());
            edges.push(pair);
            proof {
                assert(edges@ == before.push(pair));
                assert(edges_text(edges@) =~= edges_text(before).push((event@, event@)));
                assert(edges_text(edges@) =~= diagonal(events@.map_values(|e: &EventId| e@)).take(
                    i + 1,
                ));
            }
            i = i + 1;
        }
        proof {
            assert(diagonal(events@.map_values(|e: &EventId| e@)).take(events@.len() as int)
                =~= diagonal(events@.map_values(|e: &EventId| e@)));
        }
        EventRelation { edges }
    }

    /// The pairs, in declaration order.
    pub fn edges(&self) -> (r: &[(EventId, EventId)])
        ensures
            edges_text(r@) == self.view_edges(),
    {
        self.edges.as_slice()
    }

    /// The destinations a source maps to.
    pub fn images(&self, source: &EventId) -> (r: Vec<&EventId>)
        ensures
            r@.map_values(|e: &EventId| e@) == images_of(self.view_edges(), source@),
    {
        let mut out: Vec<&EventId> = Vec::new();
        let mut i: usize = 0;
        while i < self.edges.len()
            invariant
                i <= self.edges@.len(),
                out@.map_values(|e: &EventId| e@) == images_of(
                    edges_text(self.edges@).take(i as int),
                    source@,
                ),
            decreases self.edges@.len() - i,
        {
            let ghost before = out@;
            proof {
                let t = edges_text(self.edges@).take(i + 1);
                assert(t.drop_last() =~= edges_text(self.edges@).take(i as int));
            }
            if self.edges[i].0.same(source) {
                out.push(&self.edges[i].1);
                proof {
                    assert(out@.map_values(|e: &EventId| e@) =~= before.map_values(
                        |e: &EventId| e@,
                    ).push(self.edges@[i as int].1@));
                }
            }
            i = i + 1;
        }
        proof {
            assert(edges_text(self.edges@).take(self.edges@.len() as int) =~= edges_text(
                self.edges@,
            ));
        }
        out
    }

    /// The sources a destination came from.
    pub fn preimages(&self, target: &EventId) -> (r: Vec<&EventId>)
        ensures
            r@.map_values(|e: &EventId| e@) == preimages_of(self.view_edges(), target@),
    {
        let mut out: Vec<&EventId> = Vec::new();
        let mut i: usize = 0;
        while i < self.edges.len()
            invariant
                i <= self.edges@.len(),
                out@.map_values(|e: &EventId| e@) == preimages_of(
                    edges_text(self.edges@).take(i as int),
                    target@,
                ),
            decreases self.edges@.len() - i,
        {
            let ghost before = out@;
            proof {
                let t = edges_text(self.edges@).take(i + 1);
                assert(t.drop_last() =~= edges_text(self.edges@).take(i as int));
            }
            if self.edges[i].1.same(target) {
                out.push(&self.edges[i].0);
                proof {
                    assert(out@.map_values(|e: &EventId| e@) =~= before.map_values(
                        |e: &EventId| e@,
                    ).push(self.edges@[i as int].0@));
                }
            }
            i = i + 1;
        }
        proof {
            assert(edges_text(self.edges@).take(self.edges@.len() as int) =~= edges_text(
                self.edges@,
            ));
        }
        out
    }

    /// Whether every source has exactly one destination and every destination
    /// exactly one source.
    pub fn is_bijective(&self) -> (r: bool)
        ensures
            r == one_to_one(self.view_edges()),
    {
        let ghost t = edges_text(self.edges@);
        let n = self.edges.len();
        let mut j: usize = 0;
        while j < n
            invariant
                n == self.edges@.len(),
                t == edges_text(self.edges@),
                j <= n,
                forall|a: int, b: int|
                    0 <= a < b < j ==> (#[trigger] t[a]).0 != (#[trigger] t[b]).0 && t[a].1
                        != t[b].1,
            decreases n - j,
        {
            let mut i: usize = 0;
            while i < j
                invariant
                    n == self.edges@.len(),
                    t == edges_text(self.edges@),
                    i <= j,
                    j < n,
                    forall|a: int, b: int|
                        0 <= a < b < j ==> (#[trigger] t[a]).0 != (#[trigger] t[b]).0 && t[a].1
                            != t[b].1,
                    forall|a: int|
                        0 <= a < i ==> (#[trigger] t[a]).0 != t[j as int].0 && t[a].1 != t[j as int].1,
                decreases j - i,
            {
                if self.edges[i].0.same(&self.edges[j].0) || self.edges[i].1.same(&self.edges[j].1) {
                    proof {
                        assert(t[i as int] == (self.edges@[i as int].0@, self.edges@[i as int].1@));
                        assert(t[j as int] == (self.edges@[j as int].0@, self.edges@[j as int].1@));
                        assert(!(t[i as int].0 != t[j as int].0 && t[i as int].1 != t[j as int].1));
                    }
                    return false;
                }
                i = i + 1;
            }
            j = j + 1;
        }
        true
    }

    /// Composition by pullback: `(e, g)` for every `e -> m` of `self` and
    /// `m -> g` of `other`.
    pub fn compose(&self, other: &EventRelation) -> (r: EventRelation)
        ensures
            r.view_edges() == pullback(self.view_edges(), other.view_edges()),
    {
        let ghost a = edges_text(self.edges@);
        let ghost b = edges_text(other.edges@);
        let mut edges: Vec<(EventId, EventId)> = Vec::new();
        let mut i: usize = 0;
        while i < self.edges.len()
            invariant
                a == edges_text(self.edges@),
                b == edges_text(other.edges@),
                i <= self.edges@.len(),
                edges_text(edges@) == pullback(a.take(i as int), b),
            decreases self.edges@.len() - i,
        {
            let ghost start = edges_text(edges@);
            let mut j: usize = 0;
            while j < other.edges.len()
                invariant
                    a == edges_text(self.edges@),
                    b == edges_text(other.edges@),
                    i < self.edges@.len(),
                    j <= other.edges@.len(),
                    edges_text(edges@) == start + routes(a[i as int], b.take(j as int)),
                decreases other.edges@.len() - j,
            {
                let ghost before = edges_text(edges@);
                proof {
                    assert(b.take(j + 1).drop_last() =~= b.take(j as int));
                }
                if self.edges[i].1.same(&other.edges[j].0) {
                    edges.push((self.edges[i].0.clone(), other.edges[j].1.clone()));
                    proof {
                        assert(edges_text(edges@) =~= before.push((a[i as int].0, b[j as int].1)));
                    }
                }
                j = j + 1;
            }
            proof {
                assert(b.take(other.edges@.len() as int) =~= b);
                assert(a.take(i + 1).drop_last() =~= a.take(i as int));
            }
            i = i + 1;
        }
        proof {
            assert(a.take(self.edges@.len() as int) =~= a);
        }
        EventRelation { edges }
    }
}

/// A transformation of the attached pitch structures.
#[derive(Debug, PartialEq, Eq)]
pub enum PitchTransform<E> {
    /// Leaves pitches untouched.
    Identity,
    /// Adds a fixed interval to every pitch: transposition.
    Transpose(E),
    /// An application-declared transformation this library cannot compose.
    Declared {
        /// A declared identifier naming the transformation.
        name: String,
    },
}

/// `b` is a copy of `a`, the interval copied by its own `clone`.
pub open spec fn pitch_cloned<E: Clone>(a: PitchTransform<E>, b: PitchTransform<E>) -> bool {
    match a {
        PitchTransform::Identity => b is Identity,
        PitchTransform::Transpose(x) => b matches PitchTransform::Transpose(y) && cloned(x, y),
        PitchTransform::Declared { name } => b matches PitchTransform::Declared { name: m } && m@
            == name@,
    }
}

impl<E: Clone> Clone for PitchTransform<E> {
    fn clone(&self) -> (r: Self)
        ensures
            pitch_cloned(*self, r),
    {
        match self {
            PitchTransform::Identity => PitchTransform::Identity,
            PitchTransform::Transpose(x) => PitchTransform::Transpose(x.clone()),
            PitchTransform::Declared { name } => PitchTransform::Declared { name: name.clone() },
        }
    }
}

impl<E: Clone> PitchTransform<E> {
    /// Composes two pitch transformations, `self` first; `None` when either
    /// is declared. Two transpositions compose by adding their intervals.
    pub fn compose<F>(&self, other: &PitchTransform<E>, plus: F) -> (r: Option<
        Result<PitchTransform<E>, ScoreError>,
    >) where F: FnOnce(&E, &E) -> Result<E, ScoreError>,
        requires
            self matches PitchTransform::Transpose(x) ==> (other matches PitchTransform::Transpose(
                y,
            ) ==> call_requires(plus, (&x, &y))),
        ensures
            r is None <==> self is Declared || other is Declared,
            !(self is Declared) && !(other is Declared) && self is Identity ==> (r matches Some(
                Ok(t),
            ) && pitch_cloned(*other, t)),
            !(self is Declared) && !(other is Declared) && !(self is Identity) && other is Identity
                ==> (r matches Some(Ok(t)) && pitch_cloned(*self, t)),
            self matches PitchTransform::Transpose(x) ==> (other matches PitchTransform::Transpose(
                y,
            ) ==> (r matches Some(result) && match result {
                Ok(t) => t matches PitchTransform::Transpose(z) && call_ensures(
                    plus,
                    (&x, &y),
                    Ok::<E, ScoreError>(z),
                ),
                Err(e) => call_ensures(plus, (&x, &y), Err::<E, ScoreError>(e)),
            })),
    {
        match self {
            PitchTransform::Declared { .. } => None,
            PitchTransform::Identity => match other {
                PitchTransform::Declared { .. } => None,
                _ => Some(Ok(other.clone())),
            },
            PitchTransform::Transpose(first) => match other {
                PitchTransform::Declared { .. } => None,
                PitchTransform::Identity => Some(Ok(self.clone())),
                PitchTransform::Transpose(second) => match plus(first, second) {
                    Ok(sum) => Some(Ok(PitchTransform::Transpose(sum))),
                    Err(e) => Some(Err(e)),
                },
            },
        }
    }

    /// Whether this component composes.
    pub fn is_composable(&self) -> (r: bool)
        ensures
            r == !(self is Declared),
    {
        match self {
            PitchTransform::Declared { .. } => false,
            _ => true,
        }
    }
}

/// A transformation of structural time: `t -> scale * t + shift` with a
/// strictly positive scale, or a declared one.
#[derive(Debug, Clone, PartialEq, Eq)]
pub enum TimeTransform {
    /// `t -> scale * t + shift`.
    Affine {
        /// The strictly positive scale factor.
        scale: Q,
        /// The shift, applied after scaling.
        shift: Beats,
    },
    /// An application-declared transformation this library cannot compose.
    Declared {
        /// A declared identifier naming the transformation.
        name: String,
    },
}

/// `t * scale + shift`, each step reduced.
pub open spec fn affine_at(scale: (int, int), shift: (int, int), t: (int, int)) -> (int, int) {
    reduce(rat_add(reduce(rat_mul(t, scale)), shift))
}

/// The affine map `f` then `g`: scale `s1 * s2`, shift `h1 * s2 + h2`.
pub open spec fn affine_then(
    f: ((int, int), (int, int)),
    g: ((int, int), (int, int)),
) -> ((int, int), (int, int)) {
    (reduce(rat_mul(f.0, g.0)), reduce(rat_add(reduce(rat_mul(f.1, g.0)), g.1)))
}

impl TimeTransform {
    /// The identity transformation.
    pub fn identity() -> (r: TimeTransform)
        ensures
            r matches TimeTransform::Affine { scale, shift } && scale@ == (1int, 1int) && shift@
                == (0int, 1int),
    {
        TimeTransform::Affine { scale: Q::one(), shift: Beats::zero() }
    }

    /// A pure shift.
    pub fn shift(by: Beats) -> (r: TimeTransform)
        ensures
            r matches TimeTransform::Affine { scale, shift } && scale@ == (1int, 1int) && shift
                == by,
    {
        TimeTransform::Affine { scale: Q::one(), shift: by }
    }

    /// A pure scaling about the origin: augmentation or diminution.
    pub fn scale(factor: Q) -> (r: Result<TimeTransform, ScoreError>)
        ensures
            r is Err <==> factor@.0 <= 0,
            r matches Err(e) ==> e is NonPositiveTimeScale,
            r matches Ok(t) ==> (t matches TimeTransform::Affine { scale, shift } && scale == factor
                && shift@ == (0int, 1int)),
    {
        if !factor.is_positive() {
            return Err(ScoreError::NonPositiveTimeScale);
        }
        Ok(TimeTransform::Affine { scale: factor, shift: Beats::zero() })
    }

    /// Applies this transformation to a structural position.
    pub fn apply(&self, at: &BeatTime) -> (r: Result<BeatTime, ScoreError>)
        ensures
            match self {
                TimeTransform::Affine { scale, shift } => {
                    &&& (r is Ok <==> fits(reduce(rat_mul(at@, scale@))) && fits(
                        affine_at(scale@, shift@, at@),
                    ))
                    &&& (r matches Ok(t) ==> t@ == affine_at(scale@, shift@, at@))
                    &&& (r matches Err(e) ==> e is Overflow)
                },
                TimeTransform::Declared { name } => r matches Err(
                    ScoreError::UncomposableTransform { component },
                ) && component@ == name@,
            },
    {
        match self {
            TimeTransform::Affine { scale, shift } => {
                let scaled = match at.get().checked_mul(scale) {
                    Some(v) => v,
                    None => {
                        return Err(ScoreError::Overflow);
                    },
                };
                match scaled.checked_add(&shift.get()) {
                    Some(v) => Ok(BeatTime::new(v)),
                    None => Err(ScoreError::Overflow),
                }
            },
            TimeTransform::Declared { name } => Err(
                ScoreError::UncomposableTransform { component: name.clone() },
            ),
        }
    }

    /// Composes two temporal transformations, `self` first; `None` when
    /// either is declared.
    pub fn compose(&self, other: &TimeTransform) -> (r: Option<Result<TimeTransform, ScoreError>>)
        ensures
            r is None <==> self is Declared || other is Declared,
            self matches TimeTransform::Affine { scale: s1, shift: h1 } ==> (
            other matches TimeTransform::Affine { scale: s2, shift: h2 } ==> {
                let (s, h) = affine_then((s1@, h1@), (s2@, h2@));
                &&& (r matches Some(Ok(t)) <==> fits(s) && fits(reduce(rat_mul(h1@, s2@)))
                    && fits(h))
                &&& (r matches Some(Ok(t)) ==> (t matches TimeTransform::Affine {
                    scale,
                    shift,
                } && scale@ == s && shift@ == h))
                &&& (r matches Some(Err(e)) ==> e is Overflow)
            }),
    {
        match self {
            TimeTransform::Declared { .. } => None,
            TimeTransform::Affine { scale: first_scale, shift: first_shift } => match other {
                TimeTransform::Declared { .. } => None,
                TimeTransform::Affine { scale: second_scale, shift: second_shift } => {
                    let scale = match first_scale.checked_mul(second_scale) {
                        Some(v) => v,
                        None => {
                            return Some(Err(ScoreError::Overflow));
                        },
                    };
                    let scaled = match first_shift.get().checked_mul(second_scale) {
                        Some(v) => v,
                        None => {
                            return Some(Err(ScoreError::Overflow));
                        },
                    };
                    let shift = match scaled.checked_add(&second_shift.get()) {
                        Some(v) => v,
                        None => {
                            return Some(Err(ScoreError::Overflow));
                        },
                    };
                    Some(Ok(TimeTransform::Affine { scale, shift: Beats::new(shift) }))
                },
            },
        }
    }

    /// Whether this component composes.
    pub fn is_composable(&self) -> (r: bool)
        ensures
            r == !(self is Declared),
    {
        match self {
            TimeTransform::Declared { .. } => false,
            _ => true,
        }
    }
}

/// How provenance combines under composition: a chain of steps, oldest
/// first.
#[derive(Debug, Clone, PartialEq, Eq)]
pub struct ProvenanceChain {
    steps: Vec<ProvenanceId>,
}

/// The identities of a list of provenance references.
pub open spec fn step_texts(steps: Seq<ProvenanceId>) -> Seq<Seq<char>> {
    steps.map_values(|p: ProvenanceId| p@)
}

impl ProvenanceChain {
    /// The steps as text, oldest first.
    pub closed spec fn view_steps(&self) -> Seq<Seq<char>> {
        step_texts(self.steps@)
    }

    /// An empty chain.
    pub fn new() -> (r: ProvenanceChain)
        ensures
            r.view_steps().len() == 0,
    {
        ProvenanceChain { steps: Vec::new() }
    }

    /// A chain of one step.
    pub fn of(step: ProvenanceId) -> (r: ProvenanceChain)
        ensures
            r.view_steps() == seq![step@],
    {
        let mut steps: Vec<ProvenanceId> = Vec::new();
        steps.push(step);
        proof {
            assert(step_texts(steps@) =~= seq![step@]);
        }
        ProvenanceChain { steps }
    }

    /// The steps, oldest first.
    pub fn steps(&self) -> (r: &[ProvenanceId])
        ensures
            step_texts(r@) == self.view_steps(),
    {
        self.steps.as_slice()
    }

    /// This chain followed by another: composition concatenates, so that the
    /// earlier steps survive.
    pub fn followed_by(&self, other: &ProvenanceChain) -> (r: ProvenanceChain)
        ensures
            r.view_steps() == self.view_steps() + other.view_steps(),
    {
        let mut steps: Vec<ProvenanceId> = Vec::new();
        let mut i: usize = 0;
        while i < self.steps.len()
            invariant
                i <= self.steps@.len(),
                step_texts(steps@) == step_texts(self.steps@).take(i as int),
            decreases self.steps@.len() - i,
        {
            let ghost before = steps@;
            let step = self.steps[i].clone();
            steps.push(step);
            proof {
                assert(steps@ == before.push(step));
                assert(step_texts(steps@) =~= step_texts(before).push(self.steps@[i as int]@));
                assert(step_texts(steps@) =~= step_texts(self.steps@).take(i + 1));
            }
            i = i + 1;
        }
        let mut j: usize = 0;
        while j < other.steps.len()
            invariant
                j <= other.steps@.len(),
                step_texts(steps@) == step_texts(self.steps@) + step_texts(other.steps@).take(
                    j as int,
                ),
            decreases other.steps@.len() - j,
        {
            proof {
                assert(step_texts(self.steps@).take(self.steps@.len() as int) =~= step_texts(
                    self.steps@,
                ));
            }
            let ghost before = steps@;
            let step = other.steps[j].clone();
            steps.push(step);
            proof {
                assert(steps@ == before.push(step));
                assert(step_texts(steps@) =~= step_texts(before).push(other.steps@[j as int]@));
                assert(step_texts(steps@) =~= step_texts(self.steps@) + step_texts(
                    other.steps@,
                ).take(j + 1));
            }
            j = j + 1;
        }
        proof {
            assert(step_texts(self.steps@).take(self.steps@.len() as int) =~= step_texts(
                self.steps@,
            ));
            assert(step_texts(other.steps@).take(other.steps@.len() as int) =~= step_texts(
                other.steps@,
            ));
        }
        ProvenanceChain { steps }
    }
}

/// `result` is `first` then `second` as pitch transformations.
pub open spec fn pitch_composed<E: Clone, F: FnOnce(&E, &E) -> Result<E, ScoreError>>(
    first: PitchTransform<E>,
    second: PitchTransform<E>,
    plus: F,
    result: PitchTransform<E>,
) -> bool {
    match first {
        PitchTransform::Identity => pitch_cloned(second, result),
        PitchTransform::Transpose(x) => match second {
            PitchTransform::Identity => pitch_cloned(first, result),
            PitchTransform::Transpose(y) => result matches PitchTransform::Transpose(z)
                && call_ensures(plus, (&x, &y), Ok::<E, ScoreError>(z)),
            PitchTransform::Declared { .. } => false,
        },
        PitchTransform::Declared { .. } => false,
    }
}

/// `result` is `first` then `second` as affine maps.
pub open spec fn time_composed(first: TimeTransform, second: TimeTransform, result: TimeTransform) -> bool {
    match first {
        TimeTransform::Affine { scale: s1, shift: h1 } => match second {
            TimeTransform::Affine { scale: s2, shift: h2 } => result matches TimeTransform::Affine {
                scale,
                shift,
            } && (scale@, shift@) == affine_then((s1@, h1@), (s2@, h2@)),
            _ => false,
        },
        _ => false,
    }
}

/// The composite of two affine time components has its scale, the shifted
/// scale and its shift within the storage of `Q`; a declared component
/// composes to nothing, so it never leaves storage.
pub open spec fn time_composes_within(first: TimeTransform, second: TimeTransform) -> bool {
    first matches TimeTransform::Affine { scale: s1, shift: h1 } ==> (
    second matches TimeTransform::Affine { scale: s2, shift: h2 } ==> {
        let (s, h) = affine_then((s1@, h1@), (s2@, h2@));
        fits(s) && fits(reduce(rat_mul(h1@, s2@))) && fits(h)
    })
}

/// A score transformation: an event relation, a pitch component, a temporal
/// component and a provenance chain.
#[derive(Debug, Clone, PartialEq, Eq)]
pub struct ScoreTransform<E> {
    relation: EventRelation,
    pitch: PitchTransform<E>,
    time: TimeTransform,
    provenance: ProvenanceChain,
}

impl<E: Clone> ScoreTransform<E> {
    /// The event relation.
    pub closed spec fn relation_view(&self) -> EventRelation {
        self.relation
    }

    /// The pitch component.
    pub closed spec fn pitch_view(&self) -> PitchTransform<E> {
        self.pitch
    }

    /// The temporal component.
    pub closed spec fn time_view(&self) -> TimeTransform {
        self.time
    }

    /// The provenance chain.
    pub closed spec fn provenance_view(&self) -> ProvenanceChain {
        self.provenance
    }

    /// Assembles a transformation from its four components.
    pub fn new(
        relation: EventRelation,
        pitch: PitchTransform<E>,
        time: TimeTransform,
        provenance: ProvenanceChain,
    ) -> (r: ScoreTransform<E>)
        ensures
            r.relation_view() == relation,
            r.pitch_view() == pitch,
            r.time_view() == time,
            r.provenance_view() == provenance,
    {
        ScoreTransform { relation, pitch, time, provenance }
    }

    /// The identity transformation on a list of events.
    pub fn identity(events: &[&EventId]) -> (r: ScoreTransform<E>)
        ensures
            r.relation_view().view_edges() == diagonal(events@.map_values(|e: &EventId| e@)),
            r.pitch_view() is Identity,
            r.time_view() matches TimeTransform::Affine { scale, shift } && scale@ == (1int, 1int)
                && shift@ == (0int, 1int),
            r.provenance_view().view_steps().len() == 0,
    {
        ScoreTransform {
            relation: EventRelation::identity(events),
            pitch: PitchTransform::Identity,
            time: TimeTransform::identity(),
            provenance: ProvenanceChain::new(),
        }
    }

    /// The event relation.
    pub fn relation(&self) -> (r: &EventRelation)
        ensures
            *r == self.relation_view(),
    {
        &self.relation
    }

    /// The pitch component.
    pub fn pitch(&self) -> (r: &PitchTransform<E>)
        ensures
            *r == self.pitch_view(),
    {
        &self.pitch
    }

    /// The temporal component.
    pub fn time(&self) -> (r: &TimeTransform)
        ensures
            *r == self.time_view(),
    {
        &self.time
    }

    /// The provenance chain.
    pub fn provenance(&self) -> (r: &ProvenanceChain)
        ensures
            *r == self.provenance_view(),
    {
        &self.provenance
    }

    /// Whether this transformation may be called compositional: only when
    /// every component composes.
    pub fn claims_compositional(&self) -> (r: bool)
        ensures
            r == (!(self.pitch_view() is Declared) && !(self.time_view() is Declared)),
    {
        self.pitch.is_composable() && self.time.is_composable()
    }

    /// Composes two transformations, `self` first; `None` when either
    /// declines the compositional claim.
    pub fn compose<F>(&self, other: &ScoreTransform<E>, plus: F) -> (r: Option<
        Result<ScoreTransform<E>, ScoreError>,
    >) where F: FnOnce(&E, &E) -> Result<E, ScoreError>,
        requires
            self.pitch_view() matches PitchTransform::Transpose(x) ==> (
            other.pitch_view() matches PitchTransform::Transpose(y) ==> call_requires(
                plus,
                (&x, &y),
            )),
        ensures
            r is None <==> self.pitch_view() is Declared || other.pitch_view() is Declared
                || self.time_view() is Declared || other.time_view() is Declared,
            r matches Some(Ok(t)) ==> {
                &&& t.relation_view().view_edges() == pullback(
                    self.relation_view().view_edges(),
                    other.relation_view().view_edges(),
                )
                &&& pitch_composed(self.pitch_view(), other.pitch_view(), plus, t.pitch_view())
                &&& time_composed(self.time_view(), other.time_view(), t.time_view())
                &&& t.provenance_view().view_steps() == self.provenance_view().view_steps()
                    + other.provenance_view().view_steps()
            },
            r matches Some(Err(e)) ==> (e is Overflow && !time_composes_within(
                self.time_view(),
                other.time_view(),
            )) || (self.pitch_view() matches PitchTransform::Transpose(x)
                && other.pitch_view() matches PitchTransform::Transpose(y) && call_ensures(
                plus,
                (&x, &y),
                Err::<E, ScoreError>(e),
            )),
    {
        let pitch = match self.pitch.compose(&other.pitch, plus) {
            Some(p) => p,
            None => {
                return None;
            },
        };
        let time = match self.time.compose(&other.time) {
            Some(t) => t,
            None => {
                return None;
            },
        };
        match pitch {
            Ok(pitch) => match time {
                Ok(time) => Some(
                    Ok(
                        ScoreTransform {
                            relation: self.relation.compose(&other.relation),
                            pitch,
                            time,
                            provenance: self.provenance.followed_by(&other.provenance),
                        },
                    ),
                ),
                Err(e) => Some(Err(e)),
            },
            Err(e) => Some(Err(e)),
        }
    }
}

proof fn lemma_routes_concat(e: EdgeText, x: Seq<EdgeText>, y: Seq<EdgeText>)
    ensures
        routes(e, x + y) == routes(e, x) + routes(e, y),
    decreases y.len(),
{
    if y.len() == 0 {
        assert(x + y =~= x);
        assert(routes(e, x) + routes(e, y) =~= routes(e, x));
    } else {
        lemma_routes_concat(e, x, y.drop_last());
        assert((x + y).drop_last() =~= x + y.drop_last());
        assert((x + y).last() == y.last());
        if y.last().0 == e.1 {
            assert(routes(e, x) + routes(e, y) =~= (routes(e, x) + routes(e, y.drop_last())).push(
                (e.0, y.last().1),
            ));
        }
    }
}

proof fn lemma_pullback_concat(x: Seq<EdgeText>, y: Seq<EdgeText>, c: Seq<EdgeText>)
    ensures
        pullback(x + y, c) == pullback(x, c) + pullback(y, c),
    decreases y.len(),
{
    if y.len() == 0 {
        assert(x + y =~= x);
        assert(pullback(x, c) + pullback(y, c) =~= pullback(x, c));
    } else {
        lemma_pullback_concat(x, y.drop_last(), c);
        assert((x + y).drop_last() =~= x + y.drop_last());
        assert((x + y).last() == y.last());
        assert(pullback(x, c) + pullback(y, c) =~= (pullback(x, c) + pullback(y.drop_last(), c))
            + routes(y.last(), c));
    }
}

proof fn lemma_routes_twice(e: EdgeText, m: EdgeText, c: Seq<EdgeText>)
    ensures
        routes(e, routes(m, c)) == (if m.0 == e.1 {
            routes((e.0, m.1), c)
        } else {
            Seq::<EdgeText>::empty()
        }),
    decreases c.len(),
{
    if c.len() > 0 {
        lemma_routes_twice(e, m, c.drop_last());
        if c.last().0 == m.1 {
            let inner = routes(m, c.drop_last());
            assert(routes(m, c) == inner.push((m.0, c.last().1)));
            assert(routes(m, c).drop_last() =~= inner);
        }
    }
}

proof fn lemma_pullback_routes(e: EdgeText, d: Seq<EdgeText>, c: Seq<EdgeText>)
    ensures
        pullback(routes(e, d), c) == routes(e, pullback(d, c)),
    decreases d.len(),
{
    if d.len() == 0 {
    } else {
        let m = d.last();
        lemma_pullback_routes(e, d.drop_last(), c);
        lemma_routes_concat(e, pullback(d.drop_last(), c), routes(m, c));
        lemma_routes_twice(e, m, c);
        if m.0 == e.1 {
            let r = routes(e, d.drop_last());
            assert(routes(e, d) == r.push((e.0, m.1)));
            assert(r.push((e.0, m.1)) =~= r + seq![(e.0, m.1)]);
            lemma_pullback_concat(r, seq![(e.0, m.1)], c);
            lemma_pullback_single((e.0, m.1), c);
        } else {
            assert(routes(e, pullback(d.drop_last(), c)) + Seq::<EdgeText>::empty() =~= routes(
                e,
                pullback(d.drop_last(), c),
            ));
        }
    }
}

/// Composition of event relations is associative: composing `a` with `b`
/// and then with `c` gives the same pairs, in the same order, as composing
/// `a` with the composition of `b` and `c`.
pub proof fn law_relation_compose_associative(a: Seq<EdgeText>, b: Seq<EdgeText>, c: Seq<EdgeText>)
    ensures
        pullback(pullback(a, b), c) == pullback(a, pullback(b, c)),
    decreases a.len(),
{
    if a.len() > 0 {
        law_relation_compose_associative(a.drop_last(), b, c);
        lemma_pullback_concat(pullback(a.drop_last(), b), routes(a.last(), b), c);
        lemma_pullback_routes(a.last(), b, c);
    }
}

proof fn lemma_routes_diagonal(e: EdgeText, t: Seq<Seq<char>>)
    requires
        forall|i: int, j: int| 0 <= i < j < t.len() ==> #[trigger] t[i] != #[trigger] t[j],
    ensures
        t.contains(e.1) ==> routes(e, diagonal(t)) == seq![e],
        !t.contains(e.1) ==> routes(e, diagonal(t)) == Seq::<EdgeText>::empty(),
    decreases t.len(),
{
    if t.len() > 0 {
        let rest = t.drop_last();
        assert(diagonal(t).drop_last() =~= diagonal(rest));
        assert(diagonal(t).last() == (t.last(), t.last()));
        lemma_routes_diagonal(e, rest);
        if t.last() == e.1 {
            assert(!rest.contains(e.1)) by {
                if rest.contains(e.1) {
                    let k = choose|k: int| 0 <= k < rest.len() && rest[k] == e.1;
                    assert(t[k] == t[t.len() - 1]);
                }
            }
            assert(Seq::<EdgeText>::empty().push((e.0, e.1)) =~= seq![e]);
        } else {
            if t.contains(e.1) {
                let k = choose|k: int| 0 <= k < t.len() && t[k] == e.1;
                assert(rest[k] == e.1);
            }
            if rest.contains(e.1) {
                let k = choose|k: int| 0 <= k < rest.len() && rest[k] == e.1;
                assert(t[k] == e.1);
            }
        }
    }
}

/// Composing with the identity on a list of distinct events that holds every
/// destination leaves a relation unchanged.
pub proof fn law_relation_identity_right(r: Seq<EdgeText>, t: Seq<Seq<char>>)
    requires
        forall|i: int, j: int| 0 <= i < j < t.len() ==> #[trigger] t[i] != #[trigger] t[j],
        forall|k: int| 0 <= k < r.len() ==> t.contains(#[trigger] r[k].1),
    ensures
        pullback(r, diagonal(t)) == r,
    decreases r.len(),
{
    if r.len() > 0 {
        law_relation_identity_right(r.drop_last(), t);
        lemma_routes_diagonal(r.last(), t);
        assert(r.drop_last() + seq![r.last()] =~= r);
    }
}

/// Composing the identity on one event with a relation whose every source is
/// that event leaves the relation unchanged.
pub proof fn law_relation_identity_left(x: Seq<char>, r: Seq<EdgeText>)
    requires
        forall|k: int| 0 <= k < r.len() ==> (#[trigger] r[k]).0 == x,
    ensures
        pullback(diagonal(seq![x]), r) == r,
{
    assert(diagonal(seq![x]) =~= seq![(x, x)]);
    lemma_pullback_single((x, x), r);
    lemma_routes_from(x, r);
}

proof fn lemma_pullback_single(z: EdgeText, c: Seq<EdgeText>)
    ensures
        pullback(seq![z], c) == routes(z, c),
{
    let s = seq![z];
    assert(s.drop_last() =~= Seq::<EdgeText>::empty());
    assert(s.last() == z);
    assert(pullback(s.drop_last(), c) =~= Seq::<EdgeText>::empty());
    assert(Seq::<EdgeText>::empty() + routes(z, c) =~= routes(z, c));
}

proof fn lemma_routes_from(x: Seq<char>, r: Seq<EdgeText>)
    requires
        forall|k: int| 0 <= k < r.len() ==> (#[trigger] r[k]).0 == x,
    ensures
        routes((x, x), r) == r,
    decreases r.len(),
{
    if r.len() > 0 {
        lemma_routes_from(x, r.drop_last());
        assert(r.last().0 == x);
        assert(r.drop_last().push((x, r.last().1)) =~= r);
    }
}

/// Applying the composite of two affine maps to a position gives the same
/// exact value as applying the first and then the second.
pub proof fn law_time_compose_apply(
    s1: (int, int),
    h1: (int, int),
    s2: (int, int),
    h2: (int, int),
    t: (int, int),
)
    requires
        s1.1 > 0,
        h1.1 > 0,
        s2.1 > 0,
        h2.1 > 0,
        t.1 > 0,
    ensures
        ({
            let (s, h) = affine_then((s1, h1), (s2, h2));
            rat_eq(affine_at(s, h, t), affine_at(s2, h2, affine_at(s1, h1, t)))
        }),
{
    let m1 = rat_mul(t, s1);
    lemma_pos_ops(t, s1);
    let a1 = reduce(m1);
    lemma_reduce_eq(m1);
    lemma_pos_ops(a1, h1);
    let a = reduce(rat_add(a1, h1));
    lemma_reduce_eq(rat_add(a1, h1));
    lemma_pos_ops(a, s2);
    let b1 = reduce(rat_mul(a, s2));
    lemma_reduce_eq(rat_mul(a, s2));
    lemma_pos_ops(b1, h2);
    let rhs = reduce(rat_add(b1, h2));
    lemma_reduce_eq(rat_add(b1, h2));
    // rhs == ((m1 * s2) + (h1 * s2)) + h2
    lemma_pos_ops(m1, h1);
    lemma_rat_eq_refl_symm(h1, h1);
    lemma_rat_add_congruent(a1, h1, m1, h1);
    lemma_rat_eq_trans(a, rat_add(a1, h1), rat_add(m1, h1));
    lemma_rat_eq_refl_symm(s2, s2);
    lemma_rat_mul_congruent(a, s2, rat_add(m1, h1), s2);
    lemma_pos_ops(rat_add(m1, h1), s2);
    lemma_rat_eq_trans(b1, rat_mul(a, s2), rat_mul(rat_add(m1, h1), s2));
    lemma_rat_distrib(m1, h1, s2);
    lemma_pos_ops(m1, s2);
    lemma_pos_ops(h1, s2);
    let p = rat_add(rat_mul(m1, s2), rat_mul(h1, s2));
    lemma_pos_ops(rat_mul(m1, s2), rat_mul(h1, s2));
    lemma_rat_eq_trans(b1, rat_mul(rat_add(m1, h1), s2), p);
    lemma_rat_eq_refl_symm(h2, h2);
    lemma_rat_add_congruent(b1, h2, p, h2);
    lemma_pos_ops(p, h2);
    lemma_rat_eq_trans(rhs, rat_add(b1, h2), rat_add(p, h2));
    // lhs == (m1 * s2) + ((h1 * s2) + h2)
    let s = reduce(rat_mul(s1, s2));
    lemma_pos_ops(s1, s2);
    lemma_reduce_eq(rat_mul(s1, s2));
    let hh1 = reduce(rat_mul(h1, s2));
    lemma_reduce_eq(rat_mul(h1, s2));
    lemma_pos_ops(hh1, h2);
    let h = reduce(rat_add(hh1, h2));
    lemma_reduce_eq(rat_add(hh1, h2));
    lemma_pos_ops(t, s);
    let c1 = reduce(rat_mul(t, s));
    lemma_reduce_eq(rat_mul(t, s));
    lemma_pos_ops(c1, h);
    let lhs = reduce(rat_add(c1, h));
    lemma_reduce_eq(rat_add(c1, h));
    lemma_rat_eq_refl_symm(t, t);
    lemma_rat_mul_congruent(t, s, t, rat_mul(s1, s2));
    lemma_rat_mul_assoc(t, s1, s2);
    lemma_pos_ops(t, rat_mul(s1, s2));
    lemma_rat_eq_trans(c1, rat_mul(t, s), rat_mul(m1, s2));
    lemma_rat_add_congruent(hh1, h2, rat_mul(h1, s2), h2);
    lemma_pos_ops(rat_mul(h1, s2), h2);
    lemma_rat_eq_trans(h, rat_add(hh1, h2), rat_add(rat_mul(h1, s2), h2));
    lemma_rat_add_congruent(c1, h, rat_mul(m1, s2), rat_add(rat_mul(h1, s2), h2));
    lemma_pos_ops(c1, h);
    lemma_rat_eq_trans(
        lhs,
        rat_add(c1, h),
        rat_add(rat_mul(m1, s2), rat_add(rat_mul(h1, s2), h2)),
    );
    lemma_rat_add_assoc_comm(rat_mul(m1, s2), rat_mul(h1, s2), h2);
    lemma_rat_eq_refl_symm(rhs, rat_add(p, h2));
    lemma_pos_ops(rat_mul(m1, s2), rat_add(rat_mul(h1, s2), h2));
    lemma_rat_eq_trans(lhs, rat_add(p, h2), rhs);
}

/// Composition of affine time maps is associative, exactly as rationals.
pub proof fn law_time_compose_associative(
    f: ((int, int), (int, int)),
    g: ((int, int), (int, int)),
    h: ((int, int), (int, int)),
)
    requires
        f.0.1 > 0,
        f.1.1 > 0,
        g.0.1 > 0,
        g.1.1 > 0,
        h.0.1 > 0,
        h.1.1 > 0,
    ensures
        rat_eq(affine_then(affine_then(f, g), h).0, affine_then(f, affine_then(g, h)).0),
        rat_eq(affine_then(affine_then(f, g), h).1, affine_then(f, affine_then(g, h)).1),
{
    let (s1, h1) = f;
    let (s2, h2) = g;
    let (s3, h3) = h;
    lemma_pos_ops(s1, s2);
    lemma_pos_ops(s2, s3);
    lemma_pos_ops(h1, s2);
    lemma_pos_ops(h2, s3);
    let s12 = reduce(rat_mul(s1, s2));
    let s23 = reduce(rat_mul(s2, s3));
    lemma_reduce_eq(rat_mul(s1, s2));
    lemma_reduce_eq(rat_mul(s2, s3));
    // scales
    lemma_pos_ops(s12, s3);
    lemma_pos_ops(s1, s23);
    lemma_reduce_eq(rat_mul(s12, s3));
    lemma_reduce_eq(rat_mul(s1, s23));
    lemma_rat_eq_refl_symm(s3, s3);
    lemma_rat_eq_refl_symm(s1, s1);
    lemma_rat_mul_congruent(s12, s3, rat_mul(s1, s2), s3);
    lemma_rat_mul_congruent(s1, s23, s1, rat_mul(s2, s3));
    lemma_rat_mul_assoc(s1, s2, s3);
    lemma_pos_ops(rat_mul(s1, s2), s3);
    lemma_pos_ops(s1, rat_mul(s2, s3));
    lemma_rat_eq_trans(reduce(rat_mul(s12, s3)), rat_mul(s12, s3), rat_mul(rat_mul(s1, s2), s3));
    lemma_rat_eq_trans(reduce(rat_mul(s1, s23)), rat_mul(s1, s23), rat_mul(s1, rat_mul(s2, s3)));
    lemma_rat_eq_refl_symm(reduce(rat_mul(s1, s23)), rat_mul(s1, rat_mul(s2, s3)));
    lemma_rat_eq_trans(reduce(rat_mul(s12, s3)), rat_mul(s1, rat_mul(s2, s3)), reduce(rat_mul(s1, s23)));
    // shifts: left is ((h1 s2 + h2) s3) + h3, right is h1 (s2 s3) + (h2 s3 + h3)
    let a = reduce(rat_mul(h1, s2));
    lemma_reduce_eq(rat_mul(h1, s2));
    lemma_pos_ops(a, h2);
    let h12 = reduce(rat_add(a, h2));
    lemma_reduce_eq(rat_add(a, h2));
    lemma_pos_ops(h12, s3);
    let b = reduce(rat_mul(h12, s3));
    lemma_reduce_eq(rat_mul(h12, s3));
    lemma_pos_ops(b, h3);
    let left = reduce(rat_add(b, h3));
    lemma_reduce_eq(rat_add(b, h3));
    let c = reduce(rat_mul(h2, s3));
    lemma_reduce_eq(rat_mul(h2, s3));
    lemma_pos_ops(c, h3);
    let h23 = reduce(rat_add(c, h3));
    lemma_reduce_eq(rat_add(c, h3));
    lemma_pos_ops(h1, s23);
    let d = reduce(rat_mul(h1, s23));
    lemma_reduce_eq(rat_mul(h1, s23));
    lemma_pos_ops(d, h23);
    let right = reduce(rat_add(d, h23));
    lemma_reduce_eq(rat_add(d, h23));
    // exact forms
    let x = rat_mul(rat_mul(h1, s2), s3);
    let y = rat_mul(h2, s3);
    lemma_pos_ops(rat_mul(h1, s2), s3);
    lemma_pos_ops(x, y);
    lemma_pos_ops(rat_add(x, y), h3);
    let target = rat_add(rat_add(x, y), h3);
    // left ~ target
    lemma_rat_eq_refl_symm(h2, h2);
    lemma_rat_add_congruent(a, h2, rat_mul(h1, s2), h2);
    lemma_pos_ops(rat_mul(h1, s2), h2);
    lemma_rat_eq_trans(h12, rat_add(a, h2), rat_add(rat_mul(h1, s2), h2));
    lemma_rat_mul_congruent(h12, s3, rat_add(rat_mul(h1, s2), h2), s3);
    lemma_pos_ops(rat_add(rat_mul(h1, s2), h2), s3);
    lemma_rat_eq_trans(b, rat_mul(h12, s3), rat_mul(rat_add(rat_mul(h1, s2), h2), s3));
    lemma_rat_distrib(rat_mul(h1, s2), h2, s3);
    lemma_rat_eq_trans(b, rat_mul(rat_add(rat_mul(h1, s2), h2), s3), rat_add(x, y));
    lemma_rat_eq_refl_symm(h3, h3);
    lemma_rat_add_congruent(b, h3, rat_add(x, y), h3);
    lemma_rat_eq_trans(left, rat_add(b, h3), target);
    // right ~ target
    lemma_rat_mul_congruent(h1, s23, h1, rat_mul(s2, s3));
    lemma_rat_eq_refl_symm(h1, h1);
    lemma_pos_ops(h1, rat_mul(s2, s3));
    lemma_rat_eq_trans(d, rat_mul(h1, s23), rat_mul(h1, rat_mul(s2, s3)));
    lemma_rat_mul_assoc(h1, s2, s3);
    lemma_rat_add_congruent(c, h3, y, h3);
    lemma_pos_ops(y, h3);
    lemma_rat_eq_trans(h23, rat_add(c, h3), rat_add(y, h3));
    lemma_rat_add_congruent(d, h23, x, rat_add(y, h3));
    lemma_pos_ops(x, rat_add(y, h3));
    lemma_rat_eq_trans(right, rat_add(d, h23), rat_add(x, rat_add(y, h3)));
    lemma_rat_add_assoc_comm(x, y, h3);
    lemma_rat_eq_refl_symm(right, target);
    lemma_rat_eq_refl_symm(left, target);
    lemma_rat_eq_trans(left, target, right);
}

/// The identity time map is neutral on both sides of composition.
pub proof fn law_time_identity_neutral(f: ((int, int), (int, int)))
    requires
        f.0.1 > 0,
        f.1.1 > 0,
    ensures
        rat_eq(affine_then(((1int, 1int), (0int, 1int)), f).0, f.0),
        rat_eq(affine_then(((1int, 1int), (0int, 1int)), f).1, f.1),
        rat_eq(affine_then(f, ((1int, 1int), (0int, 1int))).0, f.0),
        rat_eq(affine_then(f, ((1int, 1int), (0int, 1int))).1, f.1),
{
    let (s, h) = f;
    let one = (1int, 1int);
    let zero = (0int, 1int);
    lemma_pos_ops(one, s);
    lemma_pos_ops(s, one);
    lemma_pos_ops(zero, s);
    lemma_pos_ops(h, one);
    lemma_reduce_eq(rat_mul(one, s));
    lemma_reduce_eq(rat_mul(s, one));
    lemma_reduce_eq(rat_mul(zero, s));
    lemma_reduce_eq(rat_mul(h, one));
    let z = reduce(rat_mul(zero, s));
    let hh = reduce(rat_mul(h, one));
    lemma_pos_ops(z, h);
    lemma_pos_ops(hh, zero);
    lemma_reduce_eq(rat_add(z, h));
    lemma_reduce_eq(rat_add(hh, zero));
    assert(rat_eq(rat_mul(one, s), s));
    assert(rat_eq(rat_mul(s, one), s));
    assert(z.0 == 0) by {
        assert(z.0 * rat_mul(zero, s).1 == rat_mul(zero, s).0 * z.1);
        assert(rat_mul(zero, s).0 == 0);
        assert(z.0 * rat_mul(zero, s).1 == 0);
        vstd::arithmetic::mul::lemma_mul_nonzero(z.0, rat_mul(zero, s).1);
    }
    assert(rat_eq(rat_add(z, h), h)) by {
        assert(rat_add(z, h) == (z.0 * h.1 + h.0 * z.1, z.1 * h.1));
        vstd::arithmetic::mul::lemma_mul_is_associative(h.0, z.1, h.1);
        vstd::arithmetic::mul::lemma_mul_is_associative(h.0, h.1, z.1);
        vstd::arithmetic::mul::lemma_mul_is_commutative(z.1, h.1);
    }
    assert(rat_eq(rat_mul(h, one), h));
    lemma_rat_eq_trans(reduce(rat_mul(one, s)), rat_mul(one, s), s);
    lemma_rat_eq_trans(reduce(rat_mul(s, one)), rat_mul(s, one), s);
    lemma_rat_eq_trans(reduce(rat_add(z, h)), rat_add(z, h), h);
    lemma_rat_eq_trans(hh, rat_mul(h, one), h);
    assert(rat_eq(rat_add(hh, zero), hh)) by {
        vstd::arithmetic::mul::lemma_mul_is_associative(hh.0, 1, hh.1);
    }
    lemma_rat_eq_trans(reduce(rat_add(hh, zero)), rat_add(hh, zero), hh);
    lemma_rat_eq_trans(reduce(rat_add(hh, zero)), hh, h);
}

/// Two reduced forms of equal rationals are the same pair.
proof fn lemma_reduced_equal(x: (int, int), y: (int, int))
    requires
        x.1 > 0,
        y.1 > 0,
        rat_eq(reduce(x), reduce(y)),
    ensures
        reduce(x) == reduce(y),
{
    lemma_reduce_eq(x);
    lemma_reduce_eq(y);
    crate::algebra::lemma_reduce_lowest(x);
    crate::algebra::lemma_reduce_lowest(y);
    crate::algebra::lemma_lowest_reduced(reduce(x));
    crate::algebra::lemma_lowest_reduced(reduce(y));
    crate::algebra::lemma_reduce_unique(reduce(x), reduce(y));
}

/// Applying the composite of two time transformations to a position gives
/// exactly the value of applying the first and then the second.
pub proof fn law_transform_apply_composed(f: TimeTransform, g: TimeTransform, h: TimeTransform, t: (int, int))
    requires
        t.1 > 0,
        time_composed(f, g, h),
    ensures
        f matches TimeTransform::Affine { scale: s1, shift: h1 } && g matches TimeTransform::Affine {
            scale: s2,
            shift: h2,
        } && h matches TimeTransform::Affine { scale, shift } && affine_at(scale@, shift@, t)
            == affine_at(s2@, h2@, affine_at(s1@, h1@, t)),
{
    match f {
        TimeTransform::Affine { scale: s1, shift: h1 } => match g {
            TimeTransform::Affine { scale: s2, shift: h2 } => match h {
                TimeTransform::Affine { scale, shift } => {
                    law_time_compose_apply(s1@, h1@, s2@, h2@, t);
                    let a = affine_at(s1@, h1@, t);
                    lemma_pos_ops(t, s1@);
                    lemma_reduce_eq(rat_mul(t, s1@));
                    lemma_pos_ops(reduce(rat_mul(t, s1@)), h1@);
                    lemma_reduce_eq(rat_add(reduce(rat_mul(t, s1@)), h1@));
                    lemma_pos_ops(t, scale@);
                    lemma_reduce_eq(rat_mul(t, scale@));
                    lemma_pos_ops(reduce(rat_mul(t, scale@)), shift@);
                    lemma_pos_ops(a, s2@);
                    lemma_reduce_eq(rat_mul(a, s2@));
                    lemma_pos_ops(reduce(rat_mul(a, s2@)), h2@);
                    lemma_reduced_equal(
                        rat_add(reduce(rat_mul(t, scale@)), shift@),
                        rat_add(reduce(rat_mul(a, s2@)), h2@),
                    );
                },
                _ => {},
            },
            _ => {},
        },
        _ => {},
    }
}

/// The relation, time and provenance parts of composing `a` with `b` give
/// those of `r`.
pub open spec fn parts_composed<E: Clone>(a: ScoreTransform<E>, b: ScoreTransform<E>, r: ScoreTransform<E>) -> bool {
    &&& r.relation_view().view_edges() == pullback(a.relation_view().view_edges(), b.relation_view().view_edges())
    &&& time_composed(a.time_view(), b.time_view(), r.time_view())
    &&& r.provenance_view().view_steps() == a.provenance_view().view_steps() + b.provenance_view().view_steps()
}

/// Composition of score transformations is associative in its relation,
/// time and provenance: composing `a` with `b` and then `c` gives the same
/// pairs, the same exact scale and shift, and the same provenance as
/// composing `a` with the composite of `b` and `c`.
pub proof fn law_score_compose_associative<E: Clone>(
    a: ScoreTransform<E>,
    b: ScoreTransform<E>,
    c: ScoreTransform<E>,
    ab: ScoreTransform<E>,
    ab_c: ScoreTransform<E>,
    bc: ScoreTransform<E>,
    a_bc: ScoreTransform<E>,
)
    requires
        parts_composed(a, b, ab),
        parts_composed(ab, c, ab_c),
        parts_composed(b, c, bc),
        parts_composed(a, bc, a_bc),
    ensures
        ab_c.relation_view().view_edges() == a_bc.relation_view().view_edges(),
        ab_c.provenance_view().view_steps() == a_bc.provenance_view().view_steps(),
        ab_c.time_view() matches TimeTransform::Affine { scale: s1, shift: h1 } && a_bc.time_view() matches TimeTransform::Affine {
            scale: s2,
            shift: h2,
        } && s1@ == s2@ && h1@ == h2@,
{
    law_relation_compose_associative(
        a.relation_view().view_edges(),
        b.relation_view().view_edges(),
        c.relation_view().view_edges(),
    );
    assert(a.provenance_view().view_steps() + b.provenance_view().view_steps() + c.provenance_view().view_steps()
        =~= a.provenance_view().view_steps() + (b.provenance_view().view_steps() + c.provenance_view().view_steps()));
    match (a.time_view(), b.time_view(), c.time_view(), ab.time_view(), bc.time_view(), ab_c.time_view(), a_bc.time_view()) {
        (
            TimeTransform::Affine { scale: sa, shift: ha },
            TimeTransform::Affine { scale: sb, shift: hb },
            TimeTransform::Affine { scale: sc, shift: hc },
            TimeTransform::Affine { scale: sab, shift: hab },
            TimeTransform::Affine { scale: sbc, shift: hbc },
            TimeTransform::Affine { scale: s1, shift: h1 },
            TimeTransform::Affine { scale: s2, shift: h2 },
        ) => {
            law_time_compose_associative((sa@, ha@), (sb@, hb@), (sc@, hc@));
            crate::algebra::Q::lemma_equal_values(s1, s2);
            crate::algebra::Q::lemma_equal_values(h1.0, h2.0);
        },
        _ => {},
    }
}


/// A bijective relation pairs each source with one destination and each
/// destination with one source: two distinct pairs of it never share a
/// source, and never share a destination. A merge of two events into one,
/// or a split of one into two, is therefore not bijective.
pub proof fn law_bijective_pairs_are_distinct(r: EventRelation, i: int, j: int)
    requires
        0 <= i < r.view_edges().len(),
        0 <= j < r.view_edges().len(),
        i != j,
    ensures
        one_to_one(r.view_edges()) ==> r.view_edges()[i].0 != r.view_edges()[j].0
            && r.view_edges()[i].1 != r.view_edges()[j].1,
        r.view_edges()[i].1 == r.view_edges()[j].1 ==> !one_to_one(r.view_edges()),
        r.view_edges()[i].0 == r.view_edges()[j].0 ==> !one_to_one(r.view_edges()),
{
    let e = r.view_edges();
    if one_to_one(e) {
        if i < j {
            assert(e[i].0 != e[j].0 && e[i].1 != e[j].1);
        } else {
            assert(e[j].0 != e[i].0 && e[j].1 != e[i].1);
        }
    }
}
} // verus!
