//! Exact structural time: positions, signed differences, positive durations
//! and closed spans on the beat timeline. The beat unit is one quarter note.
use crate::algebra::{
    abs_int, fits, lemma_den_product, lemma_q_view, lemma_rat_add_congruent, lemma_rat_eq_trans, lemma_reduce_eq, rat_add,
    rat_eq, rat_le, rat_lt, rat_mul, rat_neg, rat_sub, reduce, Q,
};
use crate::error::TimeError;
use vstd::prelude::*;
use vstd::std_specs::convert::{FromSpec, TryFromSpec};

verus! {

broadcast use lemma_q_view;

/// The declared exact ordered additive group of structural durations.
pub const BEAT_DURATION_GROUP: &'static str = "Q";

/// The declared structural beat unit.
pub const BEAT_UNIT: &'static str = "quarter note";

/// A signed exact structural duration, in beats.
#[derive(Debug, Clone, Copy, PartialEq, Eq, Hash, Structural)]
pub struct Beats(pub Q);

impl View for Beats {
    type V = (int, int);

    open spec fn view(&self) -> (int, int) {
        self.0@
    }
}

/// The pair `(n, d)` of a ratio with the sign moved to the denominator's other side.
pub open spec fn signed_pair(n: int, d: int) -> (int, int) {
    if d > 0 {
        (n, d)
    } else {
        (-n, -d)
    }
}

impl Beats {
    /// The zero duration.
    pub fn zero() -> (r: Beats)
        ensures
            r@ == (0int, 1int),
    {
        Beats(Q::zero())
    }

    /// Wraps an exact number of beats.
    pub fn new(beats: Q) -> (r: Beats)
        ensures
            r@ == beats@,
    {
        Beats(beats)
    }

    /// `numerator / denominator` beats.
    pub fn ratio(numerator: i64, denominator: i64) -> (r: Result<Beats, TimeError>)
        ensures
            denominator == 0 ==> r == Err::<Beats, TimeError>(TimeError::ZeroDenominator),
            denominator != 0 && (numerator == i64::MIN || denominator == i64::MIN) ==> r == Err::<
                Beats,
                TimeError,
            >(TimeError::Overflow),
            denominator != 0 && numerator != i64::MIN && denominator != i64::MIN ==> r is Ok,
            r matches Ok(b) ==> b@ == reduce(signed_pair(numerator as int, denominator as int))
                && rat_eq(b@, (numerator as int, denominator as int)),
    {
        if denominator == 0 {
            return Err(TimeError::ZeroDenominator);
        }
        if numerator == i64::MIN || denominator == i64::MIN {
            return Err(TimeError::Overflow);
        }
        Ok(Beats(Q::new(numerator, denominator)))
    }

    /// A whole note, four beats.
    pub fn whole() -> (r: Beats)
        ensures
            r@ == (4int, 1int),
    {
        Beats(Q::integer(4))
    }

    /// A half note, two beats.
    pub fn half() -> (r: Beats)
        ensures
            r@ == (2int, 1int),
    {
        Beats(Q::integer(2))
    }

    /// A quarter note: one beat, the declared unit.
    pub fn quarter() -> (r: Beats)
        ensures
            r@ == (1int, 1int),
    {
        Beats(Q::one())
    }

    /// An eighth note, half a beat.
    pub fn eighth() -> (r: Beats)
        ensures
            rat_eq(r@, (1int, 2int)),
    {
        Beats(Q::new(1, 2))
    }

    /// A sixteenth note, a quarter of a beat.
    pub fn sixteenth() -> (r: Beats)
        ensures
            rat_eq(r@, (1int, 4int)),
    {
        Beats(Q::new(1, 4))
    }

    /// The exact value in beats.
    pub fn get(&self) -> (r: Q)
        ensures
            r@ == self@,
    {
        self.0
    }

    /// Whether this duration is strictly positive.
    pub fn is_positive(&self) -> (r: bool)
        ensures
            r == (self@.0 > 0),
    {
        self.0.is_positive()
    }

    /// Whether this duration is zero.
    pub fn is_zero(&self) -> (r: bool)
        ensures
            r == (self@.0 == 0),
    {
        self.0.is_zero()
    }

    /// Scales by an exact factor.
    pub fn scale(&self, factor: &Q) -> (r: Option<Beats>)
        ensures
            r is Some <==> fits(reduce(rat_mul(self@, factor@))),
            r matches Some(b) ==> b@ == reduce(rat_mul(self@, factor@)),
    {
        match self.0.checked_mul(factor) {
            Some(q) => Some(Beats(q)),
            None => None,
        }
    }

    /// The magnitude, discarding direction.
    pub fn abs(&self) -> (r: Beats)
        ensures
            r@ == (abs_int(self@.0), self@.1),
    {
        Beats(self.0.abs())
    }

    /// The reversed difference.
    pub fn neg(&self) -> (r: Beats)
        ensures
            r@ == rat_neg(self@),
    {
        Beats(self.0.neg())
    }

    /// The exact sum of two differences.
    pub fn checked_add(&self, other: &Beats) -> (r: Option<Beats>)
        ensures
            r is Some <==> fits(reduce(rat_add(self@, other@))),
            r matches Some(b) ==> b@ == reduce(rat_add(self@, other@)),
    {
        match self.0.checked_add(&other.0) {
            Some(q) => Some(Beats(q)),
            None => None,
        }
    }

    /// The exact difference of two differences.
    pub fn checked_sub(&self, other: &Beats) -> (r: Option<Beats>)
        ensures
            r is Some <==> fits(reduce(rat_sub(self@, other@))),
            r matches Some(b) ==> b@ == reduce(rat_sub(self@, other@)),
    {
        match self.0.checked_sub(&other.0) {
            Some(q) => Some(Beats(q)),
            None => None,
        }
    }

    /// Whether two differences are the same exact value.
    pub fn same_value(&self, other: &Beats) -> (r: bool)
        ensures
            r == rat_eq(self@, other@),
    {
        self.0.same_value(&other.0)
    }

    /// Promotes to a strictly positive duration.
    pub fn to_duration(&self) -> (r: Result<BeatDuration, TimeError>)
        ensures
            r is Ok <==> self@.0 > 0,
            r is Err ==> r == Err::<BeatDuration, TimeError>(TimeError::NonPositiveDuration),
            r matches Ok(d) ==> d@ == self@,
    {
        BeatDuration::new(self.0)
    }

    /// The exact sum of a sequence of differences, from zero; `None` where a
    /// running sum leaves the 64-bit storage.
    pub fn sum(items: &[Beats]) -> (r: Option<Beats>)
        ensures
            r is Some <==> prefix_sums_fit(items@.map_values(|x: Beats| x@)),
            r matches Some(b) ==> rat_eq(b@, sum_pairs(items@.map_values(|x: Beats| x@))),
    {
        let ghost vs = items@.map_values(|x: Beats| x@);
        let mut total = Beats::zero();
        let mut i: usize = 0;
        while i < items.len()
            invariant
                i <= items.len(),
                vs == items@.map_values(|x: Beats| x@),
                rat_eq(total@, sum_pairs(items@.take(i as int).map_values(|x: Beats| x@))),
                forall|k: int| 1 <= k <= i ==> fits(#[trigger] reduce(sum_pairs(vs.take(k)))),
            decreases items.len() - i,
        {
            proof {
                assert forall|j: int| 0 <= j < vs.len() implies #[trigger] vs[j].1 > 0 by {
                    assert(vs[j] == items@[j]@);
                }
                assert(items@.take(i as int).map_values(|x: Beats| x@) =~= vs.take(i as int));
                lemma_prefix_step(total@, vs, i as int);
            }
            let next = match total.checked_add(&items[i]) {
                Some(t) => t,
                None => {
                    proof {
                        assert(!fits(reduce(sum_pairs(vs.take(i + 1)))));
                    }
                    return None;
                },
            };
            proof {
                let pre = items@.take(i as int).map_values(|x: Beats| x@);
                let post = items@.take(i + 1).map_values(|x: Beats| x@);
                assert(post.drop_last() =~= pre);
                assert(post.last() == items@[i as int]@);
                lemma_sum_pairs_positive(pre);
                lemma_reduce_eq(rat_add(total@, items@[i as int]@));
                lemma_rat_add_congruent(total@, items@[i as int]@, sum_pairs(pre), items@[i as int]@);
                lemma_den_product(total@.1, items@[i as int]@.1);
                lemma_rat_eq_trans(next@, rat_add(total@, items@[i as int]@), rat_add(sum_pairs(pre), items@[i as int]@));
            }
            total = next;
            i += 1;
        }
        proof {
            assert(items@.take(items.len() as int) =~= items@);
        }
        Some(total)
    }
}

/// Every running sum of the values, reduced, fits the storage of `Q`.
pub open spec fn prefix_sums_fit(s: Seq<(int, int)>) -> bool {
    forall|k: int| 1 <= k <= s.len() ==> fits(#[trigger] reduce(sum_pairs(s.take(k))))
}

/// Adding the next value to a running total that equals the sum so far
/// gives, once reduced, the next reduced running sum.
pub proof fn lemma_prefix_step(total: (int, int), s: Seq<(int, int)>, i: int)
    requires
        0 <= i < s.len(),
        forall|j: int| 0 <= j < s.len() ==> #[trigger] s[j].1 > 0,
        total.1 > 0,
        rat_eq(total, sum_pairs(s.take(i))),
    ensures
        reduce(rat_add(total, s[i])) == reduce(sum_pairs(s.take(i + 1))),
        rat_eq(rat_add(total, s[i]), sum_pairs(s.take(i + 1))),
        rat_add(total, s[i]).1 > 0,
        sum_pairs(s.take(i + 1)).1 > 0,
{
    assert(s.take(i + 1).drop_last() =~= s.take(i));
    assert(s.take(i + 1).last() == s[i]);
    assert forall|j: int| 0 <= j < s.take(i + 1).len() implies #[trigger] s.take(i + 1)[j].1 > 0 by {
        assert(s.take(i + 1)[j] == s[j]);
    }
    lemma_sum_pairs_positive(s.take(i + 1));
    lemma_den_product(total.1, s[i].1);
    lemma_rat_add_congruent(total, s[i], sum_pairs(s.take(i)), s[i]);
    crate::algebra::lemma_reduce_unique(rat_add(total, s[i]), sum_pairs(s.take(i + 1)));
}

/// The exact sum of a sequence of rational pairs.
pub open spec fn sum_pairs(s: Seq<(int, int)>) -> (int, int)
    decreases s.len(),
{
    if s.len() == 0 {
        (0, 1)
    } else {
        rat_add(sum_pairs(s.drop_last()), s.last())
    }
}

/// A sum of pairs with positive denominators has a positive denominator.
pub proof fn lemma_sum_pairs_positive(s: Seq<(int, int)>)
    requires
        forall|i: int| 0 <= i < s.len() ==> #[trigger] s[i].1 > 0,
    ensures
        sum_pairs(s).1 > 0,
    decreases s.len(),
{
    if s.len() > 0 {
        lemma_sum_pairs_positive(s.drop_last());
        let a = sum_pairs(s.drop_last()).1;
        let b = s.last().1;
        assert(a * b > 0) by (nonlinear_arith)
            requires
                a > 0,
                b > 0,
        ;
    }
}

/// A strictly positive exact structural duration.
#[derive(Debug, Clone, Copy, PartialEq, Eq, Hash, Structural)]
pub struct BeatDuration(Q);

impl View for BeatDuration {
    type V = (int, int);

    closed spec fn view(&self) -> (int, int) {
        if self.0@.0 > 0 {
            self.0@
        } else {
            (1, 1)
        }
    }
}

/// Every duration is strictly positive.
pub broadcast proof fn lemma_duration_view(d: BeatDuration)
    ensures
        #![trigger d@]
        d@.0 > 0,
        0 < d@.1 <= i64::MAX,
        d@.0 <= i64::MAX,
{
}

impl BeatDuration {
    #[verifier::type_invariant]
    spec fn inv(self) -> bool {
        self.0@.0 > 0
    }

    /// Accepts a strictly positive exact duration.
    pub fn new(beats: Q) -> (r: Result<BeatDuration, TimeError>)
        ensures
            r is Ok <==> beats@.0 > 0,
            r is Err ==> r == Err::<BeatDuration, TimeError>(TimeError::NonPositiveDuration),
            r matches Ok(d) ==> d@ == beats@,
    {
        if beats.is_positive() {
            Ok(BeatDuration(beats))
        } else {
            Err(TimeError::NonPositiveDuration)
        }
    }

    /// `numerator / denominator` beats.
    pub fn ratio(numerator: i64, denominator: i64) -> (r: Result<BeatDuration, TimeError>)
        ensures
            denominator == 0 ==> r == Err::<BeatDuration, TimeError>(TimeError::ZeroDenominator),
            denominator != 0 && (numerator == i64::MIN || denominator == i64::MIN) ==> r == Err::<
                BeatDuration,
                TimeError,
            >(TimeError::Overflow),
            denominator != 0 && numerator != i64::MIN && denominator != i64::MIN ==> (r is Ok
                <==> (numerator > 0) == (denominator > 0) && numerator != 0),
            denominator != 0 && numerator != i64::MIN && denominator != i64::MIN && !((numerator
                > 0) == (denominator > 0) && numerator != 0) ==> r == Err::<
                BeatDuration,
                TimeError,
            >(TimeError::NonPositiveDuration),
            r matches Ok(d) ==> d@ == reduce(signed_pair(numerator as int, denominator as int)),
    {
        let b = Beats::ratio(numerator, denominator)?;
        proof {
            let p = signed_pair(numerator as int, denominator as int);
            lemma_reduce_eq(p);
            let x = reduce(p);
            assert(x.0 * p.1 == p.0 * x.1);
            assert((x.0 > 0) == (p.0 > 0)) by (nonlinear_arith)
                requires
                    x.0 * p.1 == p.0 * x.1,
                    x.1 > 0,
                    p.1 > 0,
            ;
        }
        Self::new(b.0)
    }

    /// One beat.
    pub fn one() -> (r: BeatDuration)
        ensures
            r@ == (1int, 1int),
    {
        BeatDuration(Q::one())
    }

    /// The exact value in beats.
    pub fn get(&self) -> (r: Q)
        ensures
            r@ == self@,
    {
        proof {
            use_type_invariant(self);
        }
        self.0
    }

    /// As a signed duration.
    pub fn to_beats(&self) -> (r: Beats)
        ensures
            r@ == self@,
    {
        proof {
            use_type_invariant(self);
        }
        Beats(self.0)
    }

    /// Scales by an exact factor that must be strictly positive.
    pub fn scale(&self, factor: &Q) -> (r: Result<BeatDuration, TimeError>)
        ensures
            factor@.0 <= 0 ==> r == Err::<BeatDuration, TimeError>(TimeError::NonPositiveDuration),
            factor@.0 > 0 && !fits(reduce(rat_mul(self@, factor@))) ==> r == Err::<
                BeatDuration,
                TimeError,
            >(TimeError::Overflow),
            factor@.0 > 0 && fits(reduce(rat_mul(self@, factor@))) ==> r is Ok,
            r matches Ok(d) ==> d@ == reduce(rat_mul(self@, factor@)),
    {
        proof {
            use_type_invariant(self);
        }
        if !factor.is_positive() {
            return Err(TimeError::NonPositiveDuration);
        }
        match self.0.checked_mul(factor) {
            Some(q) => {
                proof {
                    let p = rat_mul(self@, factor@);
                    lemma_reduce_eq(p);
                    assert(p.0 > 0 && p.1 > 0) by (nonlinear_arith)
                        requires
                            self@.0 > 0,
                            self@.1 > 0,
                            factor@.0 > 0,
                            factor@.1 > 0,
                            p == rat_mul(self@, factor@),
                    ;
                    assert(q@.0 > 0) by (nonlinear_arith)
                        requires
                            q@.0 * p.1 == p.0 * q@.1,
                            q@.1 > 0,
                            p.1 > 0,
                            p.0 > 0,
                    ;
                }
                BeatDuration::new(q)
            },
            None => Err(TimeError::Overflow),
        }
    }
}

/// A position on the structural beat timeline, in beats from the origin.
#[derive(Debug, Clone, Copy, PartialEq, Eq, Hash, Structural)]
pub struct BeatTime(pub Q);

impl View for BeatTime {
    type V = (int, int);

    open spec fn view(&self) -> (int, int) {
        self.0@
    }
}

impl BeatTime {
    /// The origin of the structural timeline.
    pub fn zero() -> (r: BeatTime)
        ensures
            r@ == (0int, 1int),
    {
        BeatTime(Q::zero())
    }

    /// A position at an exact number of beats from the origin.
    pub fn new(beats: Q) -> (r: BeatTime)
        ensures
            r@ == beats@,
    {
        BeatTime(beats)
    }

    /// `numerator / denominator` beats from the origin.
    pub fn ratio(numerator: i64, denominator: i64) -> (r: Result<BeatTime, TimeError>)
        ensures
            denominator == 0 ==> r == Err::<BeatTime, TimeError>(TimeError::ZeroDenominator),
            denominator != 0 && (numerator == i64::MIN || denominator == i64::MIN) ==> r == Err::<
                BeatTime,
                TimeError,
            >(TimeError::Overflow),
            denominator != 0 && numerator != i64::MIN && denominator != i64::MIN ==> r is Ok,
            r matches Ok(b) ==> b@ == reduce(signed_pair(numerator as int, denominator as int))
                && rat_eq(b@, (numerator as int, denominator as int)),
    {
        let b = Beats::ratio(numerator, denominator)?;
        Ok(BeatTime(b.0))
    }

    /// The exact position, in beats from the origin.
    pub fn get(&self) -> (r: Q)
        ensures
            r@ == self@,
    {
        self.0
    }

    /// The torsor action `p + g`.
    pub fn translate(&self, duration: &Beats) -> (r: Option<BeatTime>)
        ensures
            r is Some <==> fits(reduce(rat_add(self@, duration@))),
            r matches Some(t) ==> t@ == reduce(rat_add(self@, duration@)),
    {
        match self.0.checked_add(&duration.0) {
            Some(q) => Some(BeatTime(q)),
            None => None,
        }
    }

    /// The unique duration `int(p, q)` with `p + int(p, q) = q`.
    pub fn interval_to(&self, other: &BeatTime) -> (r: Option<Beats>)
        ensures
            r is Some <==> fits(reduce(rat_sub(other@, self@))),
            r matches Some(b) ==> b@ == reduce(rat_sub(other@, self@)),
    {
        match other.0.checked_sub(&self.0) {
            Some(q) => Some(Beats(q)),
            None => None,
        }
    }

    /// Whether two positions coincide.
    pub fn same_value(&self, other: &BeatTime) -> (r: bool)
        ensures
            r == rat_eq(self@, other@),
    {
        self.0.same_value(&other.0)
    }

    /// Whether this position strictly precedes another.
    pub fn precedes(&self, other: &BeatTime) -> (r: bool)
        ensures
            r == rat_lt(self@, other@),
    {
        self.0.lt(&other.0)
    }

    /// Whether this position precedes or coincides with another.
    pub fn not_after(&self, other: &BeatTime) -> (r: bool)
        ensures
            r == rat_le(self@, other@),
    {
        self.0.le(&other.0)
    }
}

/// A closed span `[start, end]` of structural time, with `start <= end`.
#[derive(Debug, Clone, Copy, PartialEq, Eq, Hash, Structural)]
pub struct BeatSpan {
    start: BeatTime,
    end: BeatTime,
}

impl View for BeatSpan {
    type V = ((int, int), (int, int));

    closed spec fn view(&self) -> ((int, int), (int, int)) {
        if rat_le(self.start@, self.end@) {
            (self.start@, self.end@)
        } else {
            (self.start@, self.start@)
        }
    }
}

/// Every span runs forwards.
pub broadcast proof fn lemma_span_view(s: BeatSpan)
    ensures
        #![trigger s@]
        rat_le(s@.0, s@.1),
        0 < s@.0.1 <= i64::MAX,
        0 < s@.1.1 <= i64::MAX,
        i64::MIN <= s@.0.0 <= i64::MAX,
        i64::MIN <= s@.1.0 <= i64::MAX,
{
}

impl BeatSpan {
    #[verifier::type_invariant]
    spec fn inv(self) -> bool {
        rat_le(self.start@, self.end@)
    }

    /// Builds `[start, end]`.
    pub fn new(start: BeatTime, end: BeatTime) -> (r: Result<BeatSpan, TimeError>)
        ensures
            r is Ok <==> rat_le(start@, end@),
            r is Err ==> r == Err::<BeatSpan, TimeError>(TimeError::ReversedBeatSpan),
            r matches Ok(s) ==> s@ == (start@, end@) && s == BeatSpan::spanning(start, end),
    {
        if end.precedes(&start) {
            return Err(TimeError::ReversedBeatSpan);
        }
        Ok(BeatSpan { start, end })
    }

    /// Builds `[start, start + duration]`.
    pub fn from_duration(start: BeatTime, duration: &BeatDuration) -> (r: Option<BeatSpan>)
        ensures
            r is Some <==> fits(reduce(rat_add(start@, duration@))),
            r matches Some(s) ==> s@ == (start@, reduce(rat_add(start@, duration@))),
    {
        let end = start.translate(&duration.to_beats())?;
        proof {
            let p = rat_add(start@, duration@);
            lemma_reduce_eq(p);
            assert(rat_le(start@, end@)) by (nonlinear_arith)
                requires
                    end@.0 * p.1 == p.0 * end@.1,
                    p == rat_add(start@, duration@),
                    duration@.0 > 0,
                    duration@.1 > 0,
                    start@.1 > 0,
                    end@.1 > 0,
            ;
        }
        Some(BeatSpan { start, end })
    }

    /// The earlier endpoint.
    pub fn start(&self) -> (r: BeatTime)
        ensures
            r@ == self@.0,
    {
        proof {
            use_type_invariant(self);
        }
        self.start
    }

    /// The later endpoint.
    pub fn end(&self) -> (r: BeatTime)
        ensures
            r@ == self@.1,
    {
        proof {
            use_type_invariant(self);
        }
        self.end
    }

    /// The exact length, which is never negative.
    pub fn duration(&self) -> (r: Option<Beats>)
        ensures
            r is Some <==> fits(reduce(rat_sub(self@.1, self@.0))),
            r matches Some(b) ==> b@ == reduce(rat_sub(self@.1, self@.0)) && b@.0 >= 0,
    {
        proof {
            use_type_invariant(self);
        }
        let r = self.start.interval_to(&self.end);
        proof {
            if let Some(b) = r {
                let p = rat_sub(self@.1, self@.0);
                lemma_reduce_eq(p);
                assert(b@.0 >= 0) by (nonlinear_arith)
                    requires
                        b@.0 * p.1 == p.0 * b@.1,
                        p.0 >= 0,
                        p.1 > 0,
                        b@.1 > 0,
                ;
            }
        }
        r
    }

    /// Whether the span is a single instant.
    pub fn is_instant(&self) -> (r: bool)
        ensures
            r == rat_eq(self@.0, self@.1),
    {
        proof {
            use_type_invariant(self);
        }
        self.start.same_value(&self.end)
    }

    /// Whether a position lies within the closed span.
    pub fn contains(&self, at: &BeatTime) -> (r: bool)
        ensures
            r == (rat_le(self@.0, at@) && rat_le(at@, self@.1)),
    {
        proof {
            use_type_invariant(self);
        }
        self.start.not_after(at) && at.not_after(&self.end)
    }

    /// The sub-span from `offset` of length `length`, measured from the start.
    pub fn subspan(&self, offset: &Beats, length: &Beats) -> (r: Result<BeatSpan, TimeError>)
        ensures
            r matches Ok(s) ==> rat_eq(s@.0, rat_add(self@.0, offset@)) && rat_eq(
                s@.1,
                rat_add(rat_add(self@.0, offset@), length@),
            ),
            r matches Err(e) ==> (e == TimeError::Overflow || (e == TimeError::ReversedBeatSpan
                && length@.0 < 0)),
            length@.0 >= 0 && fits(reduce(rat_add(self@.0, offset@))) && fits(
                reduce(rat_add(reduce(rat_add(self@.0, offset@)), length@)),
            ) ==> r is Ok,
    {
        proof {
            use_type_invariant(self);
        }
        let start = match self.start.translate(offset) {
            Some(s) => s,
            None => {
                return Err(TimeError::Overflow);
            },
        };
        let end = match start.translate(length) {
            Some(e) => e,
            None => {
                return Err(TimeError::Overflow);
            },
        };
        proof {
            let p = rat_add(self@.0, offset@);
            lemma_reduce_eq(p);
            let q = rat_add(start@, length@);
            lemma_reduce_eq(q);
            lemma_rat_add_congruent(start@, length@, p, length@);
            lemma_den_product(start@.1, length@.1);
            lemma_rat_eq_trans(end@, q, rat_add(p, length@));
            assert(rat_le(start@, end@) <==> length@.0 >= 0) by (nonlinear_arith)
                requires
                    end@.0 * q.1 == q.0 * end@.1,
                    q == rat_add(start@, length@),
                    length@.1 > 0,
                    start@.1 > 0,
                    end@.1 > 0,
            ;
        }
        Self::new(start, end)
    }

    /// The span with exactly these endpoints, as a value of the model.
    pub closed spec fn spanning(start: BeatTime, end: BeatTime) -> BeatSpan {
        BeatSpan { start, end }
    }

    /// The stored earlier endpoint.
    pub closed spec fn start_point(self) -> BeatTime {
        self.start
    }

    /// The stored later endpoint.
    pub closed spec fn end_point(self) -> BeatTime {
        self.end
    }

    /// A span is valid when it runs forwards; every span that exists at run
    /// time is.
    pub open spec fn is_forward(self) -> bool {
        rat_le(self.start_point()@, self.end_point()@)
    }
}

/// A structural span in wire form, validated on the way in.
#[derive(Debug, Clone, Copy)]
pub struct RawBeatSpan {
    /// The earlier endpoint.
    pub start: BeatTime,
    /// The later endpoint.
    pub end: BeatTime,
}

impl TryFrom<RawBeatSpan> for BeatSpan {
    type Error = TimeError;

    fn try_from(value: RawBeatSpan) -> (r: Result<BeatSpan, TimeError>)
        ensures
            r is Ok <==> rat_le(value.start@, value.end@),
            r is Err ==> r == Err::<BeatSpan, TimeError>(TimeError::ReversedBeatSpan),
            r matches Ok(s) ==> s@ == (value.start@, value.end@),
    {
        BeatSpan::new(value.start, value.end)
    }
}

impl vstd::std_specs::convert::TryFromSpecImpl<RawBeatSpan> for BeatSpan {
    open spec fn obeys_try_from_spec() -> bool {
        true
    }

    open spec fn try_from_spec(v: RawBeatSpan) -> Result<BeatSpan, TimeError> {
        if rat_le(v.start@, v.end@) {
            Ok(BeatSpan::spanning(v.start, v.end))
        } else {
            Err(TimeError::ReversedBeatSpan)
        }
    }
}

impl From<BeatSpan> for RawBeatSpan {
    fn from(value: BeatSpan) -> (r: RawBeatSpan)
        ensures
            r.start@ == value@.0,
            r.end@ == value@.1,
    {
        proof {
            use_type_invariant(&value);
        }
        RawBeatSpan { start: value.start, end: value.end }
    }
}

impl vstd::std_specs::convert::FromSpecImpl<BeatSpan> for RawBeatSpan {
    open spec fn obeys_from_spec() -> bool {
        true
    }

    open spec fn from_spec(v: BeatSpan) -> RawBeatSpan {
        RawBeatSpan { start: v.start_point(), end: v.end_point() }
    }
}

/// A span written to its wire form and read back is the same span: the
/// revalidation on the way in accepts every span that the library produced.
pub proof fn law_span_wire_form_round_trips(s: BeatSpan)
    requires
        s.is_forward(),
    ensures
        <BeatSpan as TryFromSpec<RawBeatSpan>>::try_from_spec(
            <RawBeatSpan as FromSpec<BeatSpan>>::from_spec(s),
        ) == Ok::<BeatSpan, TimeError>(s),
{
    assert(BeatSpan::spanning(s.start_point(), s.end_point()) == s);
}

} // verus!
