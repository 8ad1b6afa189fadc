//! Device grid quantization: structural time onto a tick grid, always with
//! the residual, and allocation of a parent span among weighted children
//! either independently or with the parent's endpoint preserved.
use crate::algebra::{
    fits, lemma_den_product, lemma_q_view, lemma_rat_eq_refl_symm, lemma_reduce_eq,
    lemma_round_congruent, lemma_step_add, lemma_step_div, lemma_step_mul, lemma_step_sub,
    lemma_wide_product, rat_add, rat_div, rat_eq, rat_le, rat_lt, rat_mul, rat_sub, reduce, round_spec,
    RoundingConvention, Q, Z,
};
use crate::error::TimeError;
use crate::text::{decimal, decimal_text};
use vstd::string::StringExecFns;
use crate::time::beat::{lemma_prefix_step, lemma_span_view, prefix_sums_fit, sum_pairs, BeatSpan, BeatTime, Beats};
use crate::time::rhythm::{
    RhythmTree, division_computable, division_cut, lemma_sum_pairs_positive_value,
    lemma_sum_pairs_take_positive, lemma_sum_take_step, weights_of,
};
use vstd::prelude::*;

verus! {

broadcast use {lemma_q_view, lemma_span_view};

/// A quantized value together with what quantizing it discarded.
#[derive(Debug, Clone, PartialEq, Eq)]
pub struct Quantized<T, R> {
    /// The grid value.
    pub value: T,
    /// The exact difference between the source and the grid value.
    pub residual: R,
    /// The rounding convention used.
    pub convention: RoundingConvention,
}

/// A device tick grid: a positive number of ticks per beat.
#[derive(Debug, Clone, Copy, PartialEq, Eq, Hash, Structural)]
pub struct TickGrid {
    ticks_per_beat: u32,
}

/// A 64-bit integer value that this implementation stores.
pub open spec fn fits_z(x: int) -> bool {
    i64::MIN < x <= i64::MAX
}

impl TickGrid {
    #[verifier::type_invariant]
    spec fn inv(self) -> bool {
        self.ticks_per_beat > 0
    }

    /// The ticks per beat, which is positive.
    pub closed spec fn ticks(self) -> int {
        if self.ticks_per_beat > 0 {
            self.ticks_per_beat as int
        } else {
            1
        }
    }

    /// Every grid has a positive resolution.
    pub broadcast proof fn lemma_ticks(g: TickGrid)
        ensures
            #![trigger g.ticks()]
            0 < g.ticks() <= u32::MAX,
    {
    }

    /// A grid of `ticks_per_beat` ticks per beat.
    pub fn new(ticks_per_beat: u32) -> (r: Result<TickGrid, TimeError>)
        ensures
            ticks_per_beat == 0 ==> r == Err::<TickGrid, TimeError>(TimeError::EmptyCycle),
            ticks_per_beat > 0 ==> (r matches Ok(g) && g.ticks() == ticks_per_beat),
    {
        if ticks_per_beat == 0 {
            return Err(TimeError::EmptyCycle);
        }
        Ok(TickGrid { ticks_per_beat })
    }

    /// The grid as text: the ticks per beat, then ` ticks/beat`.
    pub fn to_string(self) -> (r: String)
        ensures
            r@ == decimal(self.ticks() as nat) + " ticks/beat"@,
    {
        proof {
            use_type_invariant(self);
        }
        let mut text = decimal_text(self.ticks_per_beat);
        text.append(" ticks/beat");
        text
    }

    /// The number of ticks in one beat.
    pub fn ticks_per_beat(self) -> (r: u32)
        ensures
            r == self.ticks(),
    {
        proof {
            use_type_invariant(self);
        }
        self.ticks_per_beat
    }

    /// The duration of one tick, `1 / ticks_per_beat` beats.
    pub fn tick_duration(self) -> (r: Beats)
        ensures
            rat_eq(r@, (1int, self.ticks())),
    {
        proof {
            use_type_invariant(self);
        }
        Beats(Q::new(1, self.ticks_per_beat as i64))
    }

    /// The time of a tick count, `ticks / ticks_per_beat` beats.
    pub fn tick_time(self, ticks: Z) -> (r: Option<BeatTime>)
        ensures
            ticks == i64::MIN <==> r is None,
            r matches Some(t) ==> rat_eq(t@, (ticks as int, self.ticks())),
    {
        proof {
            use_type_invariant(self);
        }
        if ticks == i64::MIN {
            return None;
        }
        Some(BeatTime(Q::new(ticks, self.ticks_per_beat as i64)))
    }

    /// A position in ticks, exactly.
    pub fn coordinate(self, at: &BeatTime) -> (r: Option<Q>)
        ensures
            r is Some <==> fits(reduce(rat_mul(at@, (self.ticks(), 1int)))),
            r matches Some(q) ==> q@ == reduce(rat_mul(at@, (self.ticks(), 1int))),
    {
        proof {
            use_type_invariant(self);
        }
        at.get().checked_mul(&Q::integer(self.ticks_per_beat as i64))
    }

    /// A duration in ticks, exactly.
    pub fn duration_coordinate(self, duration: &Beats) -> (r: Option<Q>)
        ensures
            r is Some <==> fits(reduce(rat_mul(duration@, (self.ticks(), 1int)))),
            r matches Some(q) ==> q@ == reduce(rat_mul(duration@, (self.ticks(), 1int))),
    {
        proof {
            use_type_invariant(self);
        }
        duration.get().checked_mul(&Q::integer(self.ticks_per_beat as i64))
    }

    /// Whether a position lies exactly on the grid.
    pub fn represents(self, at: &BeatTime) -> (r: bool)
        ensures
            r == ((at@.0 * self.ticks()) % at@.1 == 0),
    {
        proof {
            use_type_invariant(self);
            lemma_wide_product(at@.0, self.ticks());
        }
        proof {
            assert(-(i64::MAX as int) * (i64::MAX as int) <= at@.0 * self.ticks() <= (i64::MAX as int) * (i64::MAX as int)) by (nonlinear_arith)
                requires
                    i64::MIN <= at@.0 <= i64::MAX,
                    0 < self.ticks() <= u32::MAX,
            ;
        }
        let n = (at.get().numer() as i128) * (self.ticks_per_beat as i128);
        let d = at.get().denom() as i128;
        let f = RoundingConvention::Floor.round_ratio(n, d);
        proof {
            vstd::arithmetic::div_mod::lemma_fundamental_div_mod(n as int, d as int);
            vstd::arithmetic::div_mod::lemma_mod_bound(n as int, d as int);
            assert(f * d == n - n % d) by (nonlinear_arith)
                requires
                    n == d * f + n % d,
            ;
        }
        f * d == n
    }

    /// Rounds a position to the grid, returning the tick and the exact
    /// residual `at - tick / ticks_per_beat`.
    pub fn quantize(self, at: &BeatTime, convention: RoundingConvention) -> (r: Option<
        Quantized<Z, Beats>,
    >)
        ensures
            !fits_z(round_spec(at@.0 * self.ticks(), at@.1, convention)) ==> r is None,
            r is Some <==> fits_z(round_spec(at@.0 * self.ticks(), at@.1, convention)) && fits(
                reduce(rat_sub(at@, (round_spec(at@.0 * self.ticks(), at@.1, convention), self.ticks()))),
            ),
            r matches Some(q) ==> q.value == round_spec(at@.0 * self.ticks(), at@.1, convention)
                && rat_eq(q.residual@, rat_sub(at@, (q.value as int, self.ticks())))
                && q.residual@ == reduce(rat_sub(at@, (q.value as int, self.ticks())))
                && q.convention == convention,
    {
        proof {
            use_type_invariant(self);
            lemma_wide_product(at@.0, self.ticks());
        }
        proof {
            assert(-(i64::MAX as int) * (i64::MAX as int) <= at@.0 * self.ticks() <= (i64::MAX as int) * (i64::MAX as int)) by (nonlinear_arith)
                requires
                    i64::MIN <= at@.0 <= i64::MAX,
                    0 < self.ticks() <= u32::MAX,
            ;
        }
        let n = (at.get().numer() as i128) * (self.ticks_per_beat as i128);
        let ticks = convention.round_ratio(n, at.get().denom() as i128);
        if ticks <= i64::MIN as i128 || ticks > i64::MAX as i128 {
            return None;
        }
        let grid_time = self.tick_time(ticks as i64)?;
        proof {
            let exact = (ticks as int, self.ticks());
            lemma_rat_eq_refl_symm(at@, at@);
            lemma_rat_eq_refl_symm(grid_time@, exact);
            crate::algebra::lemma_rat_sub_congruent(at@, grid_time@, at@, exact);
            lemma_den_product(at@.1, grid_time@.1);
            lemma_den_product(at@.1, exact.1);
            crate::algebra::lemma_reduce_unique(rat_sub(at@, grid_time@), rat_sub(at@, exact));
        }
        let residual = grid_time.interval_to(at)?;
        proof {
            lemma_rat_eq_refl_symm(at@, at@);
            lemma_step_sub(residual@, at@, grid_time@, at@, (ticks as int, self.ticks()));
        }
        Some(Quantized { value: ticks as i64, residual, convention })
    }

    /// Rounds a duration to the grid, returning the tick count and the exact
    /// residual.
    pub fn quantize_duration(self, duration: &Beats, convention: RoundingConvention) -> (r: Option<
        Quantized<Z, Beats>,
    >)
        ensures
            !fits_z(round_spec(duration@.0 * self.ticks(), duration@.1, convention)) ==> r is None,
            r is Some <==> fits_z(round_spec(duration@.0 * self.ticks(), duration@.1, convention)) && fits(
                reduce(
                    rat_sub(duration@, (round_spec(duration@.0 * self.ticks(), duration@.1, convention), self.ticks())),
                ),
            ),
            r matches Some(q) ==> q.value == round_spec(
                duration@.0 * self.ticks(),
                duration@.1,
                convention,
            ) && rat_eq(q.residual@, rat_sub(duration@, (q.value as int, self.ticks())))
                && q.residual@ == reduce(rat_sub(duration@, (q.value as int, self.ticks())))
                && q.convention == convention,
    {
        let at = BeatTime(duration.get());
        self.quantize(&at, convention)
    }

    /// `(exact - allocated) / ticks_per_beat` beats.
    fn residual_beats(self, exact_ticks: &Q, allocated: Z) -> (r: Option<Beats>)
        ensures
            r is Some <==> allocated != i64::MIN && fits(reduce(rat_sub(exact_ticks@, (allocated as int, 1int))))
                && fits(reduce(rat_div(rat_sub(exact_ticks@, (allocated as int, 1int)), (self.ticks(), 1int)))),
            r matches Some(b) ==> b@ == reduce(
                rat_div(rat_sub(exact_ticks@, (allocated as int, 1int)), (self.ticks(), 1int)),
            ),
            r matches Some(b) ==> rat_eq(
                b@,
                rat_div(rat_sub(exact_ticks@, (allocated as int, 1int)), (self.ticks(), 1int)),
            ),
    {
        proof {
            use_type_invariant(self);
        }
        if allocated == i64::MIN {
            return None;
        }
        let a = Q::integer(allocated);
        let diff = exact_ticks.checked_sub(&a)?;
        proof {
            let x = rat_sub(exact_ticks@, (allocated as int, 1int));
            let tt = (self.ticks(), 1int);
            lemma_den_product(exact_ticks@.1, 1);
            crate::algebra::lemma_reduce_eq(x);
            lemma_rat_eq_refl_symm(tt, tt);
            crate::algebra::lemma_rat_div_congruent(diff@, tt, x, tt);
            lemma_den_product(diff@.1, self.ticks());
            lemma_den_product(x.1, self.ticks());
            crate::algebra::lemma_reduce_unique(rat_div(diff@, tt), rat_div(x, tt));
        }
        let t = Q::integer(self.ticks_per_beat as i64);
        let r = diff.checked_div(&t)?;
        proof {
            lemma_rat_eq_refl_symm(exact_ticks@, exact_ticks@);
            lemma_rat_eq_refl_symm(a@, a@);
            lemma_step_sub(diff@, exact_ticks@, a@, exact_ticks@, a@);
            lemma_rat_eq_refl_symm(t@, t@);
            lemma_den_product(exact_ticks@.1, 1);
            lemma_step_div(r@, diff@, t@, rat_sub(exact_ticks@, a@), t@);
        }
        Some(Beats(r))
    }
}

/// Checks that there is at least one weight and all are positive, and
/// returns their exact total.
fn validate_weights(weights: &[Q]) -> (r: Result<Q, TimeError>)
    ensures
        weights@.len() == 0 ==> r == Err::<Q, TimeError>(TimeError::EmptyDivision),
        weights@.len() > 0 && !all_positive(weights@) ==> r == Err::<Q, TimeError>(
            TimeError::NonPositiveWeight,
        ),
        r matches Err(e) ==> (e == TimeError::EmptyDivision && weights@.len() == 0) || (e
            == TimeError::NonPositiveWeight && !all_positive(weights@)) || e == TimeError::Overflow,
        weights@.len() > 0 && all_positive(weights@) ==> (r is Ok <==> prefix_sums_fit(views(weights@))),
        r matches Ok(t) ==> weights@.len() > 0 && all_positive(weights@) && rat_eq(
            t@,
            sum_pairs(views(weights@)),
        ) && t@.0 > 0,
{
    if weights.len() == 0 {
        return Err(TimeError::EmptyDivision);
    }
    let mut i: usize = 0;
    while i < weights.len()
        invariant
            i <= weights@.len(),
            forall|j: int| 0 <= j < i ==> (#[trigger] weights@[j])@.0 > 0,
        decreases weights@.len() - i,
    {
        if !weights[i].is_positive() {
            return Err(TimeError::NonPositiveWeight);
        }
        i += 1;
    }
    let ghost ws = views(weights@);
    let mut total = Q::zero();
    let mut k: usize = 0;
    while k < weights.len()
        invariant
            k <= weights@.len(),
            ws == views(weights@),
            all_positive(weights@),
            rat_eq(total@, sum_pairs(ws.take(k as int))),
            forall|j: int| 1 <= j <= k ==> fits(#[trigger] reduce(sum_pairs(ws.take(j)))),
        decreases weights@.len() - k,
    {
        proof {
            lemma_views_positive(weights@);
            assert(ws[k as int] == weights@[k as int]@);
            lemma_prefix_step(total@, ws, k as int);
        }
        let next = match total.checked_add(&weights[k]) {
            Some(t) => t,
            None => {
                proof {
                    assert(!fits(reduce(sum_pairs(ws.take(k + 1)))));
                }
                return Err(TimeError::Overflow);
            },
        };
        proof {
            lemma_views_positive(weights@);
            lemma_sum_take_step(ws, k as int);
            lemma_sum_pairs_take_positive(ws, k as int);
            lemma_rat_eq_refl_symm(weights@[k as int]@, weights@[k as int]@);
            lemma_step_add(next@, total@, weights@[k as int]@, sum_pairs(ws.take(k as int)), ws[k as int]);
        }
        total = next;
        k += 1;
    }
    proof {
        assert(ws.take(weights@.len() as int) =~= ws);
        lemma_views_positive(weights@);
        lemma_sum_pairs_positive_value(ws);
        assert(total@.0 > 0) by (nonlinear_arith)
            requires
                total@.0 * sum_pairs(ws).1 == sum_pairs(ws).0 * total@.1,
                sum_pairs(ws).0 > 0,
                sum_pairs(ws).1 > 0,
                total@.1 > 0,
        ;
    }
    Ok(total)
}

/// The views of a sequence of rationals.
pub open spec fn views(s: Seq<Q>) -> Seq<(int, int)> {
    s.map_values(|q: Q| q@)
}

/// Every weight is strictly positive.
pub open spec fn all_positive(s: Seq<Q>) -> bool {
    forall|j: int| 0 <= j < s.len() ==> (#[trigger] s[j])@.0 > 0
}

/// Views of positive rationals are positive pairs.
pub proof fn lemma_views_positive(s: Seq<Q>)
    requires
        all_positive(s),
    ensures
        forall|j: int| 0 <= j < s.len() ==> #[trigger] views(s)[j].1 > 0,
        forall|j: int| 0 <= j < s.len() ==> #[trigger] views(s)[j].0 > 0,
        views(s).len() == s.len(),
{
}

/// What to do when the declared minimum span cannot be met.
#[derive(Debug, Clone, Copy, PartialEq, Eq, Hash, Structural)]
pub enum CollisionPolicy {
    /// Report the allocation as infeasible.
    Report,
    /// Allocate anyway and record which children collapsed.
    AllowCollapse,
}

/// How an endpoint-preserving allocation rounds and what it guarantees.
#[derive(Debug, Clone, Copy, PartialEq, Eq, Structural)]
pub struct AllocationPolicy {
    /// The rounding convention for interior boundaries.
    pub convention: RoundingConvention,
    /// The least number of ticks every child must receive; zero declares no minimum.
    pub minimum_ticks: Z,
    /// What to do when the minimum cannot be met.
    pub on_infeasible: CollisionPolicy,
}

impl AllocationPolicy {
    /// Nearest rounding with ties away from zero, no minimum, and reporting.
    pub fn default_policy() -> (r: AllocationPolicy)
        ensures
            r.convention == RoundingConvention::NearestHalfAwayFromZero,
            r.minimum_ticks == 0,
            r.on_infeasible == CollisionPolicy::Report,
    {
        AllocationPolicy {
            convention: RoundingConvention::NearestHalfAwayFromZero,
            minimum_ticks: 0,
            on_infeasible: CollisionPolicy::Report,
        }
    }

    /// Declares a minimum number of ticks per child.
    pub fn with_minimum_ticks(self, ticks: u32) -> (r: AllocationPolicy)
        ensures
            r == (AllocationPolicy { minimum_ticks: ticks as i64, ..self }),
    {
        AllocationPolicy { minimum_ticks: ticks as i64, ..self }
    }

    /// Allows children to collapse below the minimum instead of reporting.
    pub fn allowing_collapse(self) -> (r: AllocationPolicy)
        ensures
            r == (AllocationPolicy { on_infeasible: CollisionPolicy::AllowCollapse, ..self }),
    {
        AllocationPolicy { on_infeasible: CollisionPolicy::AllowCollapse, ..self }
    }
}

/// Why an allocation could not be made.
#[derive(Debug, Clone, PartialEq, Eq, Structural)]
pub enum AllocationInfeasibility {
    /// The children cannot all receive the declared minimum.
    MinimumSpan { children: usize, required_ticks: i128, available_ticks: Z },
}

/// One child of an allocation: its ticks, its exact share in ticks, and the
/// residual in beats.
#[derive(Debug, Clone, PartialEq, Eq, Structural)]
pub struct AllocatedChild {
    pub ticks: Z,
    pub exact_ticks: Q,
    pub residual: Beats,
}

impl AllocatedChild {
    /// The allocated ticks.
    pub fn ticks(&self) -> (r: Z)
        ensures
            r == self.ticks,
    {
        self.ticks
    }

    /// The exact share, in ticks.
    pub fn exact_ticks(&self) -> (r: Q)
        ensures
            r == self.exact_ticks,
    {
        self.exact_ticks
    }

    /// The residual, in beats.
    pub fn residual(&self) -> (r: Beats)
        ensures
            r == self.residual,
    {
        self.residual
    }
}

/// The total of the first `k` allocated tick counts.
pub open spec fn tick_total(children: Seq<AllocatedChild>, k: int) -> int
    decreases k,
{
    if k <= 0 {
        0
    } else {
        tick_total(children, k - 1) + children[k - 1].ticks
    }
}

/// An allocation of a parent span's ticks among its children.
#[derive(Debug, Clone, PartialEq, Eq)]
pub struct GridAllocation {
    grid: TickGrid,
    parent_ticks: Z,
    children: Vec<AllocatedChild>,
    convention: RoundingConvention,
    endpoint_preserving: bool,
    collapsed: Vec<usize>,
}

impl GridAllocation {
    /// The grid.
    pub closed spec fn grid_view(self) -> TickGrid {
        self.grid
    }

    /// The parent's tick count.
    pub closed spec fn parent_view(self) -> Z {
        self.parent_ticks
    }

    /// The children.
    pub closed spec fn children_view(self) -> Seq<AllocatedChild> {
        self.children@
    }

    /// The rounding convention.
    pub closed spec fn convention_view(self) -> RoundingConvention {
        self.convention
    }

    /// Whether the method used preserves the endpoint.
    pub closed spec fn preserving_view(self) -> bool {
        self.endpoint_preserving
    }

    /// The children that fell below the declared minimum.
    pub closed spec fn collapsed_view(self) -> Seq<usize> {
        self.collapsed@
    }

    /// The grid.
    pub fn grid(&self) -> (r: TickGrid)
        ensures
            r == self.grid_view(),
    {
        self.grid
    }

    /// The rounding convention.
    pub fn convention(&self) -> (r: RoundingConvention)
        ensures
            r == self.convention_view(),
    {
        self.convention
    }

    /// The parent's tick count.
    pub fn parent_ticks(&self) -> (r: Z)
        ensures
            r == self.parent_view(),
    {
        self.parent_ticks
    }

    /// The children.
    pub fn children(&self) -> (r: &[AllocatedChild])
        ensures
            r@ == self.children_view(),
    {
        self.children.as_slice()
    }

    /// The tick count of each child, in order.
    pub fn child_ticks(&self) -> (r: Vec<Z>)
        ensures
            r@.len() == self.children_view().len(),
            forall|i: int| 0 <= i < r@.len() ==> #[trigger] r@[i] == self.children_view()[i].ticks,
    {
        let mut out: Vec<Z> = Vec::new();
        let mut i: usize = 0;
        while i < self.children.len()
            invariant
                i <= self.children@.len(),
                out@.len() == i,
                forall|j: int| 0 <= j < i ==> #[trigger] out@[j] == self.children@[j].ticks,
            decreases self.children@.len() - i,
        {
            out.push(self.children[i].ticks);
            i += 1;
        }
        out
    }

    /// The total of the children's ticks, saturating outside the 128-bit range.
    pub fn total_ticks(&self) -> (r: i128)
        ensures
            self.children_view().len() <= u32::MAX ==> r == tick_total(
                self.children_view(),
                self.children_view().len() as int,
            ),
            self.children_view().len() <= u32::MAX ==> -(self.children_view().len() as int) * 0x8000_0000_0000_0000 <= r <= (self.children_view().len() as int) * 0x8000_0000_0000_0000,
    {
        let mut total: i128 = 0;
        let mut i: usize = 0;
        while i < self.children.len()
            invariant
                i <= self.children@.len(),
                self.children@.len() <= u32::MAX ==> total == tick_total(self.children@, i as int),
                self.children@.len() <= u32::MAX ==> -(i as int) * 0x8000_0000_0000_0000 <= total <= (i as int) * 0x8000_0000_0000_0000,
            decreases self.children@.len() - i,
        {
            let x = self.children[i].ticks as i128;
            total = match total.checked_add(x) {
                Some(t) => t,
                None => if x > 0 {
                    i128::MAX
                } else {
                    i128::MIN
                },
            };
            i += 1;
        }
        total
    }

    /// Whether the children's ticks add up to the parent's.
    pub fn endpoint_preserved(&self) -> (r: bool)
        ensures
            self.children_view().len() <= u32::MAX ==> r == (tick_total(
                self.children_view(),
                self.children_view().len() as int,
            ) == self.parent_view()),
    {
        self.total_ticks() == self.parent_ticks as i128
    }

    /// Whether the method used is the endpoint-preserving one.
    pub fn is_endpoint_preserving_method(&self) -> (r: bool)
        ensures
            r == self.preserving_view(),
    {
        self.endpoint_preserving
    }

    /// The parent's ticks minus the children's total.
    pub fn endpoint_drift(&self) -> (r: i128)
        ensures
            self.children_view().len() <= u32::MAX ==> r == self.parent_view() - tick_total(
                self.children_view(),
                self.children_view().len() as int,
            ),
    {
        let total = self.total_ticks();
        match (self.parent_ticks as i128).checked_sub(total) {
            Some(d) => d,
            None => if total > 0 {
                i128::MIN
            } else {
                i128::MAX
            },
        }
    }

    /// The children that fell below the declared minimum.
    pub fn collapsed(&self) -> (r: &[usize])
        ensures
            r@ == self.collapsed_view(),
    {
        self.collapsed.as_slice()
    }

    /// The largest residual magnitude among the children, or zero.
    pub fn worst_residual(&self) -> (r: Beats)
        ensures
            self.children_view().len() == 0 ==> r@ == (0int, 1int),
            forall|i: int|
                0 <= i < self.children_view().len() ==> !rat_lt(
                    r@,
                    crate::algebra::abs_pair(self.children_view()[i].residual@),
                ),
            self.children_view().len() > 0 ==> exists|i: int|
                0 <= i < self.children_view().len() && r@ == crate::algebra::abs_pair(
                    #[trigger] self.children_view()[i].residual@,
                ),
    {
        let mut best = Beats::zero();
        let mut i: usize = 0;
        while i < self.children.len()
            invariant
                i <= self.children@.len(),
                forall|j: int| 0 <= j < i ==> !rat_lt(best@, crate::algebra::abs_pair(self.children@[j].residual@)),
                i == 0 ==> best@ == (0int, 1int),
                i > 0 ==> exists|j: int|
                    0 <= j < i && best@ == crate::algebra::abs_pair(#[trigger] self.children@[j].residual@),
            decreases self.children@.len() - i,
        {
            let candidate = self.children[i].residual.abs();
            if i == 0 || best.0.lt(&candidate.0) {
                proof {
                    if i > 0 {
                        assert forall|j: int| 0 <= j < i implies !rat_lt(candidate@, crate::algebra::abs_pair(self.children@[j].residual@)) by {
                            crate::algebra::lemma_rat_lt_total(best@, crate::algebra::abs_pair(self.children@[j].residual@));
                            crate::algebra::lemma_rat_le_lt_trans(crate::algebra::abs_pair(self.children@[j].residual@), best@, candidate@);
                        }
                    }
                }
                best = candidate;
            }
            i += 1;
        }
        best
    }
}

/// The exact share in ticks of a child of weight `w` among weights totalling
/// `total`, of a parent of `parent` ticks.
pub open spec fn share(parent: int, w: (int, int), total: (int, int)) -> (int, int) {
    rat_div(rat_mul((parent, 1int), w), total)
}

/// The tick boundary after the first `k` children under endpoint-preserving
/// allocation: zero at the start, the parent's ticks at the end, and the
/// rounded exact cumulative share in between.
pub open spec fn boundary_tick(
    parent: int,
    ws: Seq<(int, int)>,
    k: int,
    convention: RoundingConvention,
) -> int {
    if k <= 0 {
        0
    } else if k >= ws.len() {
        parent
    } else {
        let e = share(parent, sum_pairs(ws.take(k)), sum_pairs(ws));
        round_spec(e.0, e.1, convention)
    }
}

/// A strictly increasing sequence of indices.
pub open spec fn increasing_indices(s: Seq<usize>) -> bool {
    forall|i: int, j: int| 0 <= i < j < s.len() ==> s[i] < s[j]
}

/// The outcome of an endpoint-preserving allocation.
#[derive(Debug, Clone, PartialEq, Eq)]
pub enum AllocationOutcome {
    /// The allocation was made.
    Allocated(GridAllocation),
    /// The allocation could not satisfy the declared minimum.
    Infeasible { reason: AllocationInfeasibility },
}

impl AllocationOutcome {
    /// The allocation, if one was made.
    pub fn allocation(&self) -> (r: Option<&GridAllocation>)
        ensures
            match self {
                AllocationOutcome::Allocated(a) => r == Some(a),
                AllocationOutcome::Infeasible { .. } => r is None,
            },
    {
        match self {
            AllocationOutcome::Allocated(a) => Some(a),
            AllocationOutcome::Infeasible { .. } => None,
        }
    }

    /// The allocation, if one was made, by value.
    pub fn into_allocation(self) -> (r: Option<GridAllocation>)
        ensures
            match self {
                AllocationOutcome::Allocated(a) => r == Some(a),
                AllocationOutcome::Infeasible { .. } => r is None,
            },
    {
        match self {
            AllocationOutcome::Allocated(a) => Some(a),
            AllocationOutcome::Infeasible { .. } => None,
        }
    }

    /// Whether an allocation was made.
    pub fn is_feasible(&self) -> (r: bool)
        ensures
            r == (self is Allocated),
    {
        match self {
            AllocationOutcome::Allocated(_) => true,
            AllocationOutcome::Infeasible { .. } => false,
        }
    }
}

impl TickGrid {
    /// Allocates `parent_ticks` among weighted children by rounding each
    /// child's exact share independently. The children's ticks need not add
    /// up to the parent's.
    pub fn allocate_locally(self, weights: &[Q], parent_ticks: Z, convention: RoundingConvention) -> (r:
        Result<GridAllocation, TimeError>)
        ensures
            weights@.len() == 0 ==> r == Err::<GridAllocation, TimeError>(TimeError::EmptyDivision),
            weights@.len() > 0 && !all_positive(weights@) ==> r == Err::<GridAllocation, TimeError>(
                TimeError::NonPositiveWeight,
            ),
            r matches Err(e) ==> (e == TimeError::EmptyDivision && weights@.len() == 0) || (e
                == TimeError::NonPositiveWeight && !all_positive(weights@)) || e == TimeError::Overflow
                || (e == TimeError::NegativeSpan && parent_ticks < 0),
            r matches Err(TimeError::Overflow) ==> !prefix_sums_fit(views(weights@)) || exists|i: int|
                0 <= i < weights@.len() && !#[trigger] local_share_fits(
                    parent_ticks as int,
                    weights@[i]@,
                    sum_pairs(views(weights@)),
                    self.ticks(),
                    convention,
                ),
            r matches Ok(a) ==> parent_ticks >= 0 && a.grid_view() == self && a.parent_view()
                == parent_ticks && a.convention_view() == convention && !a.preserving_view()
                && a.collapsed_view().len() == 0 && a.children_view().len() == weights@.len()
                && forall|i: int|
                0 <= i < weights@.len() ==> {
                    let e = share(parent_ticks as int, weights@[i]@, sum_pairs(views(weights@)));
                    &&& (#[trigger] a.children_view()[i]).ticks == round_spec(e.0, e.1, convention)
                    &&& rat_eq(a.children_view()[i].exact_ticks@, e)
                    &&& rat_eq(
                        a.children_view()[i].residual@,
                        rat_div(
                            rat_sub(e, (a.children_view()[i].ticks as int, 1int)),
                            (self.ticks(), 1int),
                        ),
                    )
                },
    {
        let total = validate_weights(weights)?;
        if parent_ticks < 0 {
            return Err(TimeError::NegativeSpan);
        }
        let parent = Q::integer(parent_ticks);
        let ghost ws = views(weights@);
        let mut children: Vec<AllocatedChild> = Vec::new();
        let mut i: usize = 0;
        while i < weights.len()
            invariant
                i <= weights@.len(),
                ws == views(weights@),
                all_positive(weights@),
                rat_eq(total@, sum_pairs(ws)),
                total@.0 > 0,
                parent@ == (parent_ticks as int, 1int),
                children@.len() == i,
                forall|j: int|
                    0 <= j < i ==> {
                        let e = share(parent_ticks as int, weights@[j]@, sum_pairs(ws));
                        &&& (#[trigger] children@[j]).ticks == round_spec(e.0, e.1, convention)
                        &&& rat_eq(children@[j].exact_ticks@, e)
                        &&& rat_eq(
                            children@[j].residual@,
                            rat_div(rat_sub(e, (children@[j].ticks as int, 1int)), (self.ticks(), 1int)),
                        )
                    },
            decreases weights@.len() - i,
        {
            let ghost w = weights@[i as int]@;
            let ghost e = share(parent_ticks as int, w, sum_pairs(ws));
            proof {
                lemma_views_positive(weights@);
                lemma_sum_pairs_positive_value(ws);
                lemma_den_product(1, w.1);
            }
            let scaled = match parent.checked_mul(&weights[i]) {
                Some(s) => s,
                None => {
                    proof {
                        assert(!local_share_fits(parent_ticks as int, w, sum_pairs(ws), self.ticks(), convention));
                    }
                    return Err(TimeError::Overflow);
                },
            };
            proof {
                lemma_rat_eq_refl_symm(parent@, parent@);
                lemma_rat_eq_refl_symm(w, w);
                lemma_step_mul(scaled@, parent@, w, parent@, w);
                crate::algebra::lemma_rat_div_congruent(scaled@, total@, rat_mul(parent@, w), sum_pairs(ws));
                lemma_den_product(scaled@.1, total@.0);
                lemma_den_product(rat_mul(parent@, w).1, sum_pairs(ws).0);
                crate::algebra::lemma_reduce_unique(rat_div(scaled@, total@), e);
            }
            let exact = match scaled.checked_div(&total) {
                Some(e) => e,
                None => {
                    proof {
                        assert(!local_share_fits(parent_ticks as int, w, sum_pairs(ws), self.ticks(), convention));
                    }
                    return Err(TimeError::Overflow);
                },
            };
            proof {
                lemma_step_div(exact@, scaled@, total@, rat_mul(parent@, w), sum_pairs(ws));
                crate::algebra::lemma_rat_div_positive(rat_mul(parent@, w), sum_pairs(ws));
                lemma_round_congruent(exact@.0, exact@.1, e.0, e.1, convention);
            }
            let rounded = exact.round(convention);
            if rounded <= i64::MIN as i128 || rounded > i64::MAX as i128 {
                proof {
                    assert(!local_share_fits(parent_ticks as int, w, sum_pairs(ws), self.ticks(), convention));
                }
                return Err(TimeError::Overflow);
            }
            let ticks = rounded as i64;
            proof {
                let t = ticks as int;
                crate::algebra::lemma_rat_sub_congruent(exact@, (t, 1int), e, (t, 1int));
                lemma_den_product(exact@.1, 1);
                lemma_den_product(e.1, 1);
                crate::algebra::lemma_reduce_unique(rat_sub(exact@, (t, 1int)), rat_sub(e, (t, 1int)));
                crate::algebra::lemma_rat_div_congruent(
                    rat_sub(exact@, (t, 1int)),
                    (self.ticks(), 1int),
                    rat_sub(e, (t, 1int)),
                    (self.ticks(), 1int),
                );
                crate::algebra::lemma_rat_div_positive(rat_sub(exact@, (t, 1int)), (self.ticks(), 1int));
                crate::algebra::lemma_rat_div_positive(rat_sub(e, (t, 1int)), (self.ticks(), 1int));
                crate::algebra::lemma_reduce_unique(
                    rat_div(rat_sub(exact@, (t, 1int)), (self.ticks(), 1int)),
                    rat_div(rat_sub(e, (t, 1int)), (self.ticks(), 1int)),
                );
            }
            let residual = match self.residual_beats(&exact, ticks) {
                Some(b) => b,
                None => {
                    proof {
                        assert(!local_share_fits(parent_ticks as int, w, sum_pairs(ws), self.ticks(), convention));
                    }
                    return Err(TimeError::Overflow);
                },
            };
            proof {
                let w = weights@[i as int]@;
                let e = share(parent_ticks as int, w, sum_pairs(ws));
                lemma_views_positive(weights@);
                lemma_sum_pairs_positive_value(ws);
                lemma_rat_eq_refl_symm(parent@, parent@);
                lemma_rat_eq_refl_symm(w, w);
                lemma_step_mul(scaled@, parent@, w, parent@, w);
                lemma_den_product(1, w.1);
                lemma_step_div(exact@, scaled@, total@, rat_mul(parent@, w), sum_pairs(ws));
                crate::algebra::lemma_rat_div_positive(rat_mul(parent@, w), sum_pairs(ws));
                lemma_round_congruent(exact@.0, exact@.1, e.0, e.1, convention);
                crate::algebra::lemma_rat_sub_congruent(exact@, (ticks as int, 1int), e, (ticks as int, 1int));
                lemma_den_product(exact@.1, 1);
                lemma_den_product(e.1, 1);
                crate::algebra::lemma_rat_div_congruent(
                    rat_sub(exact@, (ticks as int, 1int)),
                    (self.ticks(), 1int),
                    rat_sub(e, (ticks as int, 1int)),
                    (self.ticks(), 1int),
                );
                crate::algebra::lemma_rat_div_positive(rat_sub(exact@, (ticks as int, 1int)), (self.ticks(), 1int));
                crate::algebra::lemma_rat_eq_trans(
                    residual@,
                    rat_div(rat_sub(exact@, (ticks as int, 1int)), (self.ticks(), 1int)),
                    rat_div(rat_sub(e, (ticks as int, 1int)), (self.ticks(), 1int)),
                );
            }
            children.push(AllocatedChild { ticks, exact_ticks: exact, residual });
            i += 1;
        }
        Ok(
            GridAllocation {
                grid: self,
                parent_ticks,
                children,
                convention,
                endpoint_preserving: false,
                collapsed: Vec::new(),
            },
        )
    }
}

/// Allocating a child of weight `w` out of `total` under `parent` ticks
/// stays within storage: the scaled weight, the exact share, its rounding to
/// ticks, and the residual in ticks and in beats of a grid of `per_beat`
/// ticks.
pub open spec fn local_share_fits(
    parent: int,
    w: (int, int),
    total: (int, int),
    per_beat: int,
    convention: RoundingConvention,
) -> bool {
    let e = share(parent, w, total);
    let t = round_spec(e.0, e.1, convention);
    &&& fits(reduce(rat_mul((parent, 1int), w)))
    &&& fits(reduce(e))
    &&& i64::MIN < t <= i64::MAX
    &&& fits(reduce(rat_sub(e, (t, 1int))))
    &&& fits(reduce(rat_div(rat_sub(e, (t, 1int)), (per_beat, 1int))))
}

/// Boundary `k` (from 1) of an endpoint-preserving allocation of `parent`
/// ticks by weights `ws` stays within storage: the scaled running weight,
/// the exact boundary and its rounding, the child's ticks, its exact ticks,
/// and its residual in ticks and in beats of a grid of `per_beat` ticks.
pub open spec fn preserving_step_fits(
    parent: int,
    ws: Seq<(int, int)>,
    k: int,
    per_beat: int,
    convention: RoundingConvention,
) -> bool {
    let total = sum_pairs(ws);
    let cum = sum_pairs(ws.take(k));
    let e1 = share(parent, cum, total);
    let e0 = share(parent, sum_pairs(ws.take(k - 1)), total);
    let t = boundary_tick(parent, ws, k, convention) - boundary_tick(parent, ws, k - 1, convention);
    let x = rat_sub(e1, e0);
    &&& fits(reduce(rat_mul((parent, 1int), cum)))
    &&& fits(reduce(e1))
    &&& (k < ws.len() ==> i64::MIN < round_spec(e1.0, e1.1, convention) <= i64::MAX)
    &&& i64::MIN < t <= i64::MAX
    &&& fits(reduce(x))
    &&& fits(reduce(rat_sub(x, (t, 1int))))
    &&& fits(reduce(rat_div(rat_sub(x, (t, 1int)), (per_beat, 1int))))
}

/// The declared minimum cannot be met by any allocation.
pub open spec fn minimum_unmeetable(policy: AllocationPolicy, n: int, parent: int) -> bool {
    policy.minimum_ticks > 0 && policy.minimum_ticks * n > parent
}

/// Some child of the endpoint-preserving allocation falls below the minimum.
pub open spec fn some_child_collapses(
    policy: AllocationPolicy,
    parent: int,
    ws: Seq<(int, int)>,
) -> bool {
    exists|i: int|
        0 <= i < ws.len() && #[trigger] boundary_tick(parent, ws, i + 1, policy.convention)
            - boundary_tick(parent, ws, i, policy.convention) < policy.minimum_ticks
}

impl TickGrid {
    /// Allocates `parent_ticks` among weighted children by rounding the
    /// cumulative boundaries rather than the children, so that the children's
    /// ticks always add up to the parent's exactly. A declared minimum that
    /// cannot be met is reported, or the collapsed children are recorded,
    /// according to the policy.
    #[verifier::rlimit(60)]
    pub fn allocate_preserving_endpoint(self, weights: &[Q], parent_ticks: Z, policy: &AllocationPolicy) -> (r:
        Result<AllocationOutcome, TimeError>)
        ensures
            weights@.len() == 0 ==> r == Err::<AllocationOutcome, TimeError>(TimeError::EmptyDivision),
            weights@.len() > 0 && !all_positive(weights@) ==> r == Err::<
                AllocationOutcome,
                TimeError,
            >(TimeError::NonPositiveWeight),
            r matches Err(e) ==> (e == TimeError::EmptyDivision && weights@.len() == 0) || (e
                == TimeError::NonPositiveWeight && !all_positive(weights@)) || e == TimeError::Overflow
                || (e == TimeError::NegativeSpan && parent_ticks < 0),
            r matches Err(TimeError::Overflow) ==> !prefix_sums_fit(views(weights@)) || exists|k: int|
                1 <= k <= weights@.len() && !#[trigger] preserving_step_fits(
                    parent_ticks as int,
                    views(weights@),
                    k,
                    self.ticks(),
                    policy.convention,
                ),
            r matches Ok(AllocationOutcome::Infeasible { reason }) ==> parent_ticks >= 0
                && policy.on_infeasible == CollisionPolicy::Report && (minimum_unmeetable(
                *policy,
                weights@.len() as int,
                parent_ticks as int,
            ) || some_child_collapses(*policy, parent_ticks as int, views(weights@)))
                && reason == (AllocationInfeasibility::MinimumSpan {
                    children: weights@.len() as usize,
                    required_ticks: (policy.minimum_ticks * weights@.len()) as i128,
                    available_ticks: parent_ticks,
                }),
            r matches Ok(AllocationOutcome::Allocated(a)) ==> {
                let ws = views(weights@);
                let n = weights@.len() as int;
                &&& parent_ticks >= 0
                &&& policy.on_infeasible == CollisionPolicy::Report ==> !minimum_unmeetable(
                    *policy,
                    n,
                    parent_ticks as int,
                ) && !some_child_collapses(*policy, parent_ticks as int, ws)
                &&& a.grid_view() == self
                &&& a.parent_view() == parent_ticks
                &&& a.convention_view() == policy.convention
                &&& a.preserving_view()
                &&& a.children_view().len() == n
                &&& tick_total(a.children_view(), n) == parent_ticks
                &&& forall|i: int|
                    0 <= i < n ==> {
                        let e = rat_sub(
                            share(parent_ticks as int, sum_pairs(ws.take(i + 1)), sum_pairs(ws)),
                            share(parent_ticks as int, sum_pairs(ws.take(i)), sum_pairs(ws)),
                        );
                        &&& (#[trigger] a.children_view()[i]).ticks == boundary_tick(
                            parent_ticks as int,
                            ws,
                            i + 1,
                            policy.convention,
                        ) - boundary_tick(parent_ticks as int, ws, i, policy.convention)
                        &&& rat_eq(a.children_view()[i].exact_ticks@, e)
                        &&& rat_eq(
                            a.children_view()[i].residual@,
                            rat_div(
                                rat_sub(e, (a.children_view()[i].ticks as int, 1int)),
                                (self.ticks(), 1int),
                            ),
                        )
                    }
                &&& increasing_indices(a.collapsed_view())
                &&& forall|i: usize|
                    a.collapsed_view().contains(i) <==> (i < n && a.children_view()[i as int].ticks
                        < policy.minimum_ticks)
            },
    {
        let total = validate_weights(weights)?;
        if parent_ticks < 0 {
            return Err(TimeError::NegativeSpan);
        }
        let n = weights.len();
        let ghost ws = views(weights@);
        proof {
            let m = policy.minimum_ticks as int;
            let c = n as int;
            assert(-0x8000_0000_0000_0000_0000_0000_0000_0000int <= m * c
                <= 0x7fff_ffff_ffff_ffff_ffff_ffff_ffff_ffffint) by (nonlinear_arith)
                requires
                    -0x8000_0000_0000_0000int <= m <= 0x7fff_ffff_ffff_ffffint,
                    0 <= c <= 0xffff_ffff_ffff_ffffint,
            ;
        }
        let required = match (policy.minimum_ticks as i128).checked_mul(n as i128) {
            Some(q) => q,
            None => {
                return Err(TimeError::Overflow);
            },
        };
        if policy.minimum_ticks > 0 && required > parent_ticks as i128 {
            if policy.on_infeasible == CollisionPolicy::Report {
                return Ok(
                    AllocationOutcome::Infeasible {
                        reason: AllocationInfeasibility::MinimumSpan {
                            children: n,
                            required_ticks: required,
                            available_ticks: parent_ticks,
                        },
                    },
                );
            }
        }
        let parent = Q::integer(parent_ticks);
        let mut children: Vec<AllocatedChild> = Vec::new();
        let mut cumulative = Q::zero();
        let mut exact_prev = Q::zero();
        let mut previous: i64 = 0;
        let mut i: usize = 0;
        proof {
            lemma_views_positive(weights@);
            lemma_sum_pairs_positive_value(ws);
            assert(ws.take(0) =~= Seq::<(int, int)>::empty());
            let t = sum_pairs(ws);
            assert(rat_eq((0int, 1int), rat_div((parent_ticks as int * 0, 1int * 1), t))) by (nonlinear_arith)
                requires
                    t.0 > 0,
            ;
        }
        while i < n
            invariant
                n == weights@.len(),
                n > 0,
                i <= n,
                ws == views(weights@),
                all_positive(weights@),
                rat_eq(total@, sum_pairs(ws)),
                total@.0 > 0,
                sum_pairs(ws).0 > 0,
                sum_pairs(ws).1 > 0,
                parent_ticks >= 0,
                parent@ == (parent_ticks as int, 1int),
                rat_eq(cumulative@, sum_pairs(ws.take(i as int))),
                cumulative@.1 > 0,
                rat_eq(exact_prev@, share(parent_ticks as int, sum_pairs(ws.take(i as int)), sum_pairs(ws))),
                exact_prev@.1 > 0,
                previous == boundary_tick(parent_ticks as int, ws, i as int, policy.convention),
                children@.len() == i,
                tick_total(children@, i as int) == previous,
                forall|j: int|
                    0 <= j < i ==> {
                        let e = rat_sub(
                            share(parent_ticks as int, sum_pairs(ws.take(j + 1)), sum_pairs(ws)),
                            share(parent_ticks as int, sum_pairs(ws.take(j)), sum_pairs(ws)),
                        );
                        &&& (#[trigger] children@[j]).ticks == boundary_tick(
                            parent_ticks as int,
                            ws,
                            j + 1,
                            policy.convention,
                        ) - boundary_tick(parent_ticks as int, ws, j, policy.convention)
                        &&& rat_eq(children@[j].exact_ticks@, e)
                        &&& rat_eq(
                            children@[j].residual@,
                            rat_div(rat_sub(e, (children@[j].ticks as int, 1int)), (self.ticks(), 1int)),
                        )
                    },
            decreases n - i,
        {
            let ghost k1 = i + 1;
            let ghost cum1 = sum_pairs(ws.take(i + 1));
            let ghost s0 = share(parent_ticks as int, sum_pairs(ws.take(i as int)), sum_pairs(ws));
            let ghost s1 = share(parent_ticks as int, cum1, sum_pairs(ws));
            proof {
                lemma_views_positive(weights@);
                lemma_sum_take_step(ws, i as int);
                lemma_sum_pairs_take_positive(ws, i as int);
                lemma_sum_pairs_take_positive(ws, i + 1);
                lemma_prefix_step(cumulative@, ws, i as int);
                assert(ws[i as int] == weights@[i as int]@);
            }
            let next_cumulative = match cumulative.checked_add(&weights[i]) {
                Some(c) => c,
                None => {
                    return Err(TimeError::Overflow);
                },
            };
            proof {
                lemma_rat_eq_refl_symm(weights@[i as int]@, weights@[i as int]@);
                lemma_step_add(next_cumulative@, cumulative@, weights@[i as int]@, sum_pairs(ws.take(i as int)), ws[i as int]);
                lemma_rat_eq_refl_symm(parent@, parent@);
                crate::algebra::lemma_rat_mul_congruent(parent@, next_cumulative@, parent@, cum1);
                lemma_den_product(1, next_cumulative@.1);
                lemma_den_product(1, cum1.1);
                crate::algebra::lemma_reduce_unique(rat_mul(parent@, next_cumulative@), rat_mul(parent@, cum1));
            }
            let scaled = match parent.checked_mul(&next_cumulative) {
                Some(s) => s,
                None => {
                    proof {
                        assert(!preserving_step_fits(parent_ticks as int, ws, k1, self.ticks(), policy.convention));
                    }
                    return Err(TimeError::Overflow);
                },
            };
            proof {
                lemma_step_mul(scaled@, parent@, next_cumulative@, parent@, cum1);
                crate::algebra::lemma_rat_div_congruent(scaled@, total@, rat_mul(parent@, cum1), sum_pairs(ws));
                lemma_den_product(scaled@.1, total@.0);
                lemma_den_product(rat_mul(parent@, cum1).1, sum_pairs(ws).0);
                crate::algebra::lemma_reduce_unique(rat_div(scaled@, total@), s1);
            }
            let exact_end = match scaled.checked_div(&total) {
                Some(e) => e,
                None => {
                    proof {
                        assert(!preserving_step_fits(parent_ticks as int, ws, k1, self.ticks(), policy.convention));
                    }
                    return Err(TimeError::Overflow);
                },
            };
            proof {
                lemma_step_div(exact_end@, scaled@, total@, rat_mul(parent@, cum1), sum_pairs(ws));
                crate::algebra::lemma_rat_div_positive(rat_mul(parent@, cum1), sum_pairs(ws));
                lemma_round_congruent(exact_end@.0, exact_end@.1, s1.0, s1.1, policy.convention);
            }
            let boundary: i64 = if i + 1 == n {
                parent_ticks
            } else {
                let rounded = exact_end.round(policy.convention);
                if rounded <= i64::MIN as i128 || rounded > i64::MAX as i128 {
                    proof {
                        assert(!preserving_step_fits(parent_ticks as int, ws, k1, self.ticks(), policy.convention));
                    }
                    return Err(TimeError::Overflow);
                }
                rounded as i64
            };
            proof {
                assert(boundary == boundary_tick(parent_ticks as int, ws, k1, policy.convention));
            }
            let ticks = match boundary.checked_sub(previous) {
                Some(t) => t,
                None => {
                    proof {
                        assert(!preserving_step_fits(parent_ticks as int, ws, k1, self.ticks(), policy.convention));
                    }
                    return Err(TimeError::Overflow);
                },
            };
            if ticks == i64::MIN {
                proof {
                    assert(!preserving_step_fits(parent_ticks as int, ws, k1, self.ticks(), policy.convention));
                }
                return Err(TimeError::Overflow);
            }
            proof {
                crate::algebra::lemma_rat_div_positive(rat_mul(parent@, sum_pairs(ws.take(i as int))), sum_pairs(ws));
                lemma_den_product(1, sum_pairs(ws.take(i as int)).1);
                crate::algebra::lemma_rat_sub_congruent(exact_end@, exact_prev@, s1, s0);
                lemma_den_product(exact_end@.1, exact_prev@.1);
                lemma_den_product(s1.1, s0.1);
                crate::algebra::lemma_reduce_unique(rat_sub(exact_end@, exact_prev@), rat_sub(s1, s0));
            }
            let exact_ticks = match exact_end.checked_sub(&exact_prev) {
                Some(e) => e,
                None => {
                    proof {
                        assert(!preserving_step_fits(parent_ticks as int, ws, k1, self.ticks(), policy.convention));
                    }
                    return Err(TimeError::Overflow);
                },
            };
            proof {
                let t = ticks as int;
                let x = rat_sub(s1, s0);
                lemma_step_sub(exact_ticks@, exact_end@, exact_prev@, s1, s0);
                crate::algebra::lemma_rat_sub_congruent(exact_ticks@, (t, 1int), x, (t, 1int));
                lemma_den_product(exact_ticks@.1, 1);
                lemma_den_product(x.1, 1);
                crate::algebra::lemma_reduce_unique(rat_sub(exact_ticks@, (t, 1int)), rat_sub(x, (t, 1int)));
                crate::algebra::lemma_rat_div_congruent(
                    rat_sub(exact_ticks@, (t, 1int)),
                    (self.ticks(), 1int),
                    rat_sub(x, (t, 1int)),
                    (self.ticks(), 1int),
                );
                crate::algebra::lemma_rat_div_positive(rat_sub(exact_ticks@, (t, 1int)), (self.ticks(), 1int));
                crate::algebra::lemma_rat_div_positive(rat_sub(x, (t, 1int)), (self.ticks(), 1int));
                crate::algebra::lemma_reduce_unique(
                    rat_div(rat_sub(exact_ticks@, (t, 1int)), (self.ticks(), 1int)),
                    rat_div(rat_sub(x, (t, 1int)), (self.ticks(), 1int)),
                );
            }
            let residual = match self.residual_beats(&exact_ticks, ticks) {
                Some(b) => b,
                None => {
                    proof {
                        assert(!preserving_step_fits(parent_ticks as int, ws, k1, self.ticks(), policy.convention));
                    }
                    return Err(TimeError::Overflow);
                },
            };
            proof {
                lemma_step_sub(exact_ticks@, exact_end@, exact_prev@, s1, s0);
                let e = rat_sub(s1, s0);
                lemma_den_product(s1.1, s0.1);
                crate::algebra::lemma_rat_sub_congruent(exact_ticks@, (ticks as int, 1int), e, (ticks as int, 1int));
                lemma_den_product(exact_ticks@.1, 1);
                lemma_den_product(e.1, 1);
                crate::algebra::lemma_rat_div_congruent(
                    rat_sub(exact_ticks@, (ticks as int, 1int)),
                    (self.ticks(), 1int),
                    rat_sub(e, (ticks as int, 1int)),
                    (self.ticks(), 1int),
                );
                crate::algebra::lemma_rat_div_positive(rat_sub(exact_ticks@, (ticks as int, 1int)), (self.ticks(), 1int));
                crate::algebra::lemma_rat_eq_trans(
                    residual@,
                    rat_div(rat_sub(exact_ticks@, (ticks as int, 1int)), (self.ticks(), 1int)),
                    rat_div(rat_sub(e, (ticks as int, 1int)), (self.ticks(), 1int)),
                );
            }
            let ghost old_children = children@;
            children.push(AllocatedChild { ticks, exact_ticks, residual });
            proof {
                assert forall|j: int| 0 <= j < i implies tick_total(children@, j) == tick_total(old_children, j) by {
                    lemma_tick_total_prefix(children@, old_children, j);
                }
                lemma_tick_total_prefix(children@, old_children, i as int);
                assert(tick_total(children@, i + 1) == tick_total(children@, i as int) + ticks);
            }
            cumulative = next_cumulative;
            exact_prev = exact_end;
            previous = boundary;
            i += 1;
        }
        let mut collapsed: Vec<usize> = Vec::new();
        let mut k: usize = 0;
        while k < n
            invariant
                k <= n,
                children@.len() == n,
                increasing_indices(collapsed@),
                forall|x: usize| collapsed@.contains(x) <==> (x < k && children@[x as int].ticks < policy.minimum_ticks),
                forall|j: int| 0 <= j < collapsed@.len() ==> collapsed@[j] < k,
            decreases n - k,
        {
            if children[k].ticks < policy.minimum_ticks {
                let ghost before = collapsed@;
                collapsed.push(k);
                proof {
                    assert(collapsed@ == before.push(k));
                    assert forall|x: usize| collapsed@.contains(x) <==> (x < k + 1 && children@[x as int].ticks < policy.minimum_ticks) by {
                        if collapsed@.contains(x) {
                            let j = choose|j: int| 0 <= j < collapsed@.len() && collapsed@[j] == x;
                            if j < before.len() {
                                assert(before[j] == x);
                                assert(before.contains(x));
                            }
                        }
                        if x < k && children@[x as int].ticks < policy.minimum_ticks {
                            assert(before.contains(x));
                            let j = choose|j: int| 0 <= j < before.len() && before[j] == x;
                            assert(collapsed@[j] == x);
                        }
                        if x == k {
                            assert(collapsed@[collapsed@.len() - 1] == x);
                        }
                    }
                }
            }
            k += 1;
        }
        proof {
            assert forall|j: int| 0 <= j < n implies #[trigger] boundary_tick(parent_ticks as int, ws, j + 1, policy.convention)
                - boundary_tick(parent_ticks as int, ws, j, policy.convention) == children@[j].ticks by {}
        }
        if collapsed.len() > 0 && policy.on_infeasible == CollisionPolicy::Report {
            proof {
                let x = collapsed@[0];
                assert(collapsed@.contains(x));
                assert(boundary_tick(parent_ticks as int, ws, x + 1, policy.convention)
                    - boundary_tick(parent_ticks as int, ws, x as int, policy.convention) < policy.minimum_ticks);
            }
            return Ok(
                AllocationOutcome::Infeasible {
                    reason: AllocationInfeasibility::MinimumSpan {
                        children: n,
                        required_ticks: required,
                        available_ticks: parent_ticks,
                    },
                },
            );
        }
        proof {
            if policy.on_infeasible == CollisionPolicy::Report {
                assert forall|j: int| 0 <= j < n implies !(#[trigger] boundary_tick(parent_ticks as int, ws, j + 1, policy.convention)
                    - boundary_tick(parent_ticks as int, ws, j, policy.convention) < policy.minimum_ticks) by {
                    if children@[j].ticks < policy.minimum_ticks {
                        assert(collapsed@.contains(j as usize));
                    }
                }
            }
        }
        Ok(
            AllocationOutcome::Allocated(
                GridAllocation {
                    grid: self,
                    parent_ticks,
                    children,
                    convention: policy.convention,
                    endpoint_preserving: true,
                    collapsed,
                },
            ),
        )
    }
}

/// Extending a sequence keeps the totals of its prefixes.
pub proof fn lemma_tick_total_prefix(a: Seq<AllocatedChild>, b: Seq<AllocatedChild>, k: int)
    requires
        0 <= k <= b.len(),
        b.len() <= a.len(),
        forall|j: int| 0 <= j < b.len() ==> a[j] == b[j],
    ensures
        tick_total(a, k) == tick_total(b, k),
    decreases k,
{
    if k > 0 {
        lemma_tick_total_prefix(a, b, k - 1);
    }
}

/// A node of a hierarchically quantized rhythm tree: its tick span, the
/// exact span it came from, its residual, its children, and the reason its
/// subdivision could not be allocated, if it could not.
#[derive(Debug, PartialEq, Eq)]
pub struct QuantizedNode {
    start_tick: Z,
    end_tick: Z,
    source: BeatSpan,
    residual: Beats,
    children: Vec<QuantizedNode>,
    issue: Option<AllocationInfeasibility>,
}

impl QuantizedNode {
    /// The first tick.
    pub closed spec fn start_view(self) -> Z {
        self.start_tick
    }

    /// The end tick.
    pub closed spec fn end_view(self) -> Z {
        self.end_tick
    }

    /// The exact source span.
    pub closed spec fn source_view(self) -> BeatSpan {
        self.source
    }

    /// The residual.
    pub closed spec fn residual_view(self) -> Beats {
        self.residual
    }

    /// The children.
    pub closed spec fn children_view(self) -> Seq<QuantizedNode> {
        self.children@
    }

    /// The infeasibility, if any.
    pub closed spec fn issue_view(self) -> Option<AllocationInfeasibility> {
        self.issue
    }

    /// The children's tick spans tile the node's tick span exactly, at every
    /// level of the tree.
    pub closed spec fn tiled(self) -> bool
        decreases self,
    {
        self.children@.len() == 0 || (self.children@[0].start_tick == self.start_tick
            && self.children@.last().end_tick == self.end_tick && (forall|i: int|
            0 <= i < self.children@.len() - 1 ==> (#[trigger] self.children@[i]).end_tick
                == self.children@[i + 1].start_tick) && Self::all_tiled(
            self.children@,
            self.children@.len() as int,
        ))
    }

    /// The first `k` nodes of a sequence are tiled.
    pub closed spec fn all_tiled(s: Seq<QuantizedNode>, k: int) -> bool
        decreases s, k,
    {
        if k <= 0 || k > s.len() {
            true
        } else {
            Self::all_tiled(s, k - 1) && s[k - 1].tiled()
        }
    }

    /// The first tick.
    pub fn start_tick(&self) -> (r: Z)
        ensures
            r == self.start_view(),
    {
        self.start_tick
    }

    /// The end tick.
    pub fn end_tick(&self) -> (r: Z)
        ensures
            r == self.end_view(),
    {
        self.end_tick
    }

    /// The number of ticks the node covers.
    pub fn tick_count(&self) -> (r: i128)
        ensures
            r == self.end_view() - self.start_view(),
    {
        self.end_tick as i128 - self.start_tick as i128
    }

    /// The exact source span.
    pub fn source(&self) -> (r: &BeatSpan)
        ensures
            *r == self.source_view(),
    {
        &self.source
    }

    /// The residual, in beats.
    pub fn residual(&self) -> (r: Beats)
        ensures
            r == self.residual_view(),
    {
        self.residual
    }

    /// The children.
    pub fn children(&self) -> (r: &[QuantizedNode])
        ensures
            r@ == self.children_view(),
    {
        self.children.as_slice()
    }

    /// Whether the node has no children.
    pub fn is_leaf(&self) -> (r: bool)
        ensures
            r == (self.children_view().len() == 0),
    {
        self.children.len() == 0
    }

    /// Why the node's subdivision could not be allocated, if it could not.
    pub fn issue(&self) -> (r: Option<&AllocationInfeasibility>)
        ensures
            match self.issue_view() {
                Some(i) => r == Some(&i),
                None => r is None,
            },
    {
        match &self.issue {
            Some(i) => Some(i),
            None => None,
        }
    }

    /// Whether no node of the tree reports an issue.
    pub closed spec fn feasible(self) -> bool
        decreases self,
    {
        self.issue is None && Self::all_feasible(self.children@, self.children@.len() as int)
    }

    /// The first `k` nodes of a sequence are feasible.
    pub closed spec fn all_feasible(s: Seq<QuantizedNode>, k: int) -> bool
        decreases s, k,
    {
        if k <= 0 || k > s.len() {
            true
        } else {
            Self::all_feasible(s, k - 1) && s[k - 1].feasible()
        }
    }

    /// Whether no node of the tree reports an issue.
    pub fn is_feasible(&self) -> (r: bool)
        ensures
            r == self.feasible(),
        decreases self,
    {
        if self.issue.is_some() {
            return false;
        }
        let mut i: usize = 0;
        while i < self.children.len()
            invariant
                i <= self.children@.len(),
                self.issue is None,
                Self::all_feasible(self.children@, i as int),
            decreases self.children@.len() - i,
        {
            proof {
                assert(decreases_to!(self => self.children@[i as int]));
            }
            if !self.children[i].is_feasible() {
                proof {
                    if Self::all_feasible(self.children@, self.children@.len() as int) {
                        lemma_all_feasible(self.children@, self.children@.len() as int, i as int);
                    }
                }
                return false;
            }
            i += 1;
        }
        true
    }

    /// The tick spans of the leaves, in order.
    pub fn leaf_ticks(&self) -> (r: Vec<(Z, Z)>)
        ensures
            self.tiled() ==> r@.len() > 0 && r@[0].0 == self.start_view() && r@.last().1
                == self.end_view() && forall|i: int|
                0 <= i < r@.len() - 1 ==> (#[trigger] r@[i]).1 == r@[i + 1].0,
    {
        let mut out: Vec<(Z, Z)> = Vec::new();
        self.collect_leaves(&mut out);
        proof {
            assert(out@.skip(0) =~= out@);
        }
        out
    }

    #[verifier::rlimit(80)]
    fn collect_leaves(&self, out: &mut Vec<(Z, Z)>)
        ensures
            final(out)@.take(old(out)@.len() as int) == old(out)@,
            final(out)@.len() > old(out)@.len(),
            self.tiled() ==> tick_chain(final(out)@.skip(old(out)@.len() as int), self.start_view(), self.end_view()),
        decreases self,
    {
        if self.children.len() == 0 {
            out.push((self.start_tick, self.end_tick));
            proof {
                assert(out@.skip(old(out)@.len() as int) =~= seq![(self.start_tick, self.end_tick)]);
                assert(out@.take(old(out)@.len() as int) =~= old(out)@);
            }
            return;
        }
        let ghost base = old(out)@.len() as int;
        let ghost whole = self.tiled();
        proof {
            if whole {
                assert(Self::all_tiled(self.children@, self.children@.len() as int));
                assert(self.children@[0].start_tick == self.start_tick);
            }
        }
        let mut i: usize = 0;
        while i < self.children.len()
            invariant
                i <= self.children@.len(),
                self.children@.len() > 0,
                whole == self.tiled(),
                whole ==> self.children@[0].start_tick == self.start_tick,
                whole ==> forall|j: int| 0 <= j < self.children@.len() - 1 ==> (#[trigger] self.children@[j]).end_tick
                    == self.children@[j + 1].start_tick,
                base == old(out)@.len(),
                out@.len() >= base,
                i > 0 ==> out@.len() > base,
                i == 0 ==> out@.len() == base,
                out@.take(base) == old(out)@,
                whole ==> Self::all_tiled(self.children@, self.children@.len() as int),
                whole && i > 0 ==> tick_chain(out@.skip(base), self.start_view(), self.children@[i - 1].end_tick),
            decreases self.children@.len() - i,
        {
            proof {
                assert(decreases_to!(self => self.children@[i as int]));
            }
            let ghost before = out@;
            self.children[i].collect_leaves(out);
            proof {
                assert(out@.take(base) =~= old(out)@) by {
                    assert(out@.take(before.len() as int) == before);
                    assert(out@.take(base) =~= out@.take(before.len() as int).take(base));
                }
                let seg_old = before.skip(base);
                let seg_new = out@.skip(before.len() as int);
                assert(out@.skip(base) =~= seg_old + seg_new) by {
                    assert(out@.take(before.len() as int) == before);
                }
                if whole {
                    lemma_all_tiled(self.children@, self.children@.len() as int, i as int);
                    if i == 0 {
                        assert(out@.skip(base) =~= seg_new);
                    } else {
                        lemma_tick_chain_concat(seg_old, seg_new, self.start_view(), self.children@[i - 1].end_tick, self.children@[i as int].end_tick);
                    }
                }
            }
            i += 1;
        }
    }

    /// The residuals of every node, in pre-order.
    pub fn residuals(&self) -> (r: Vec<Beats>)
        ensures
            r@.len() >= 1,
            r@[0] == self.residual_view(),
        decreases self,
    {
        let mut out: Vec<Beats> = Vec::new();
        out.push(self.residual);
        let mut i: usize = 0;
        while i < self.children.len()
            invariant
                i <= self.children@.len(),
                out@.len() >= 1,
                out@[0] == self.residual,
            decreases self.children@.len() - i,
        {
            proof {
                assert(decreases_to!(self => self.children@[i as int]));
            }
            let mut inner = self.children[i].residuals();
            out.append(&mut inner);
            i += 1;
        }
        out
    }
}

/// The elements of `all_feasible` are feasible.
pub proof fn lemma_all_feasible(s: Seq<QuantizedNode>, k: int, i: int)
    requires
        QuantizedNode::all_feasible(s, k),
        0 <= i < k <= s.len(),
    ensures
        s[i].feasible(),
    decreases k,
{
    if i < k - 1 {
        lemma_all_feasible(s, k - 1, i);
    }
}

/// The elements of `all_tiled` are tiled.
pub proof fn lemma_all_tiled(s: Seq<QuantizedNode>, k: int, i: int)
    requires
        QuantizedNode::all_tiled(s, k),
        0 <= i < k <= s.len(),
    ensures
        s[i].tiled(),
    decreases k,
{
    if i < k - 1 {
        lemma_all_tiled(s, k - 1, i);
    }
}

/// Consecutive tick pairs that share their boundaries and run from `start`
/// to `end`.
pub open spec fn tick_chain(s: Seq<(Z, Z)>, start: Z, end: Z) -> bool {
    &&& s.len() > 0
    &&& s[0].0 == start
    &&& s.last().1 == end
    &&& forall|i: int| 0 <= i < s.len() - 1 ==> (#[trigger] s[i]).1 == s[i + 1].0
}

/// Two tick chains that meet form one chain.
pub proof fn lemma_tick_chain_concat(a: Seq<(Z, Z)>, b: Seq<(Z, Z)>, s: Z, m: Z, e: Z)
    requires
        tick_chain(a, s, m),
        tick_chain(b, m, e),
    ensures
        tick_chain(a + b, s, e),
{
    let c = a + b;
    assert forall|i: int| 0 <= i < c.len() - 1 implies (#[trigger] c[i]).1 == c[i + 1].0 by {
        if i < a.len() - 1 {
            assert(c[i] == a[i] && c[i + 1] == a[i + 1]);
        } else if i == a.len() - 1 {
            assert(c[i] == a.last() && c[i + 1] == b[0]);
        } else {
            assert(c[i] == b[i - a.len()] && c[i + 1] == b[i - a.len() + 1]);
        }
    }
}

impl TickGrid {
    /// Quantizes a rhythm tree over a span: the span's endpoints are rounded
    /// to the grid, and each level of the tree is allocated from its parent's
    /// ticks with the endpoint preserved, so that at every level the
    /// children's tick spans tile their parent's exactly. A subdivision whose
    /// declared minimum cannot be met is reported on its node and not
    /// descended into.
    pub fn quantize_tree(self, tree: &RhythmTree, span: &BeatSpan, policy: &AllocationPolicy) -> (r:
        Result<QuantizedNode, TimeError>)
        ensures
            r matches Ok(node) ==> node.tiled() && node.source_view() == *span && node.start_view()
                == round_spec(span@.0.0 * self.ticks(), span@.0.1, policy.convention)
                && node.end_view() == round_spec(span@.1.0 * self.ticks(), span@.1.1, policy.convention),
            r matches Err(e) ==> e == TimeError::Overflow || e == TimeError::NegativeSpan || e
                == TimeError::ReversedBeatSpan,
            r matches Ok(node) ==> quantized_as(
                self,
                *tree,
                node,
                span@.0,
                span@.1,
                round_spec(span@.0.0 * self.ticks(), span@.0.1, policy.convention),
                round_spec(span@.1.0 * self.ticks(), span@.1.1, policy.convention),
                *policy,
            ),
            r is Err ==> !quantizable(self, span@.0, policy.convention) || !quantizable(
                self,
                span@.1,
                policy.convention,
            ) || !quantizes_within(
                self,
                *tree,
                span@.0,
                span@.1,
                round_spec(span@.0.0 * self.ticks(), span@.0.1, policy.convention),
                round_spec(span@.1.0 * self.ticks(), span@.1.1, policy.convention),
                *policy,
            ),
    {
        let start = match self.quantize(&span.start(), policy.convention) {
            Some(q) => q,
            None => {
                return Err(TimeError::Overflow);
            },
        };
        let end = match self.quantize(&span.end(), policy.convention) {
            Some(q) => q,
            None => {
                return Err(TimeError::Overflow);
            },
        };
        self.quantize_subtree(tree, span, start.value, end.value, policy)
    }

    #[verifier::rlimit(60)]
    #[verifier::spinoff_prover]
    fn quantize_subtree(
        self,
        tree: &RhythmTree,
        span: &BeatSpan,
        start_tick: Z,
        end_tick: Z,
        policy: &AllocationPolicy,
    ) -> (r: Result<QuantizedNode, TimeError>)
        ensures
            r matches Ok(node) ==> node.tiled() && node.source_view() == *span && node.start_view()
                == start_tick && node.end_view() == end_tick,
            r matches Ok(node) ==> quantized_as(
                self,
                *tree,
                node,
                span@.0,
                span@.1,
                start_tick as int,
                end_tick as int,
                *policy,
            ),
            r matches Err(e) ==> e == TimeError::Overflow || e == TimeError::NegativeSpan || e
                == TimeError::ReversedBeatSpan,
            r is Err ==> !quantizes_within(self, *tree, span@.0, span@.1, start_tick as int, end_tick as int, *policy),
        decreases tree,
    {
        let duration = match span.duration() {
            Some(d) => d,
            None => {
                return Err(TimeError::Overflow);
            },
        };
        let exact = match self.duration_coordinate(&duration) {
            Some(e) => e,
            None => {
                return Err(TimeError::Overflow);
            },
        };
        let allocated = match end_tick.checked_sub(start_tick) {
            Some(a) => a,
            None => {
                return Err(TimeError::Overflow);
            },
        };
        let residual = match self.residual_beats(&exact, allocated) {
            Some(b) => b,
            None => {
                return Err(TimeError::Overflow);
            },
        };
        if tree.is_leaf() {
            return Ok(
                QuantizedNode {
                    start_tick,
                    end_tick,
                    source: *span,
                    residual,
                    children: Vec::new(),
                    issue: None,
                },
            );
        }
        let kids = tree.children();
        let n = kids.len();
        let mut weights: Vec<Q> = Vec::new();
        let mut w: usize = 0;
        while w < n
            invariant
                n == kids@.len(),
                w <= n,
                weights@.len() == w,
                forall|j: int| 0 <= j < w ==> (#[trigger] weights@[j])@.0 > 0,
                forall|j: int| 0 <= j < w ==> (#[trigger] weights@[j])@ == kids@[j].weight_view(),
            decreases n - w,
        {
            proof {
                RhythmTree::lemma_weight_positive(kids@[w as int]);
            }
            weights.push(kids[w].weight());
            w += 1;
        }
        let ghost ws = weights_of(kids@);
        let ghost parent = allocated as int;
        proof {
            assert(all_positive(weights@));
            assert(views(weights@) =~= ws);
        }
        let outcome = match self.allocate_preserving_endpoint(weights.as_slice(), allocated, policy) {
            Ok(o) => o,
            Err(e) => {
                return Err(e);
            },
        };
        let allocation = match outcome {
            AllocationOutcome::Allocated(a) => a,
            AllocationOutcome::Infeasible { reason } => {
                return Ok(
                    QuantizedNode {
                        start_tick,
                        end_tick,
                        source: *span,
                        residual,
                        children: Vec::new(),
                        issue: Some(reason),
                    },
                );
            },
        };
        let spans = tree.child_spans(span)?;
        let ticks = allocation.child_ticks();
        proof {
            assert forall|j: int| 0 <= j <= n implies tick_total(allocation.children_view(), j) == boundary_tick(
                parent,
                ws,
                j,
                policy.convention,
            ) by {
                lemma_tick_total_boundary(allocation.children_view(), parent, ws, policy.convention, j);
            }
        }
        let mut children: Vec<QuantizedNode> = Vec::new();
        let mut boundary: i64 = start_tick;
        let mut i: usize = 0;
        while i < n
            invariant
                n == kids@.len(),
                kids@ == tree.children_view(),
                n > 0,
                i <= n,
                spans@.len() == n,
                ticks@.len() == n,
                allocation.children_view().len() == n,
                forall|j: int| 0 <= j < n ==> #[trigger] ticks@[j] == allocation.children_view()[j].ticks,
                tick_total(allocation.children_view(), n as int) == allocated,
                allocated == end_tick - start_tick,
                children@.len() == i,
                boundary == start_tick + tick_total(allocation.children_view(), i as int),
                i == 0 ==> boundary == start_tick,
                i > 0 ==> children@[0].start_view() == start_tick,
                i > 0 ==> children@.last().end_view() == boundary,
                forall|j: int| 0 <= j < i - 1 ==> (#[trigger] children@[j]).end_view() == children@[j + 1].start_view(),
                QuantizedNode::all_tiled(children@, i as int),
                ws == weights_of(kids@),
                parent == allocated,
                forall|j: int|
                    0 <= j < n ==> (#[trigger] spans@[j])@ == (
                        division_cut(span@.0, span@.1, ws, j),
                        division_cut(span@.0, span@.1, ws, j + 1),
                    ),
                forall|j: int|
                    0 <= j <= n ==> #[trigger] tick_total(allocation.children_view(), j) == boundary_tick(
                        parent,
                        ws,
                        j,
                        policy.convention,
                    ),
                policy.on_infeasible == CollisionPolicy::Report ==> !minimum_unmeetable(
                    *policy,
                    n as int,
                    parent,
                ) && !some_child_collapses(*policy, parent, ws),
                forall|j: int|
                    0 <= j < i ==> quantized_as(
                        self,
                        kids@[j],
                        #[trigger] children@[j],
                        division_cut(span@.0, span@.1, ws, j),
                        division_cut(span@.0, span@.1, ws, j + 1),
                        start_tick + boundary_tick(parent, ws, j, policy.convention),
                        start_tick + boundary_tick(parent, ws, j + 1, policy.convention),
                        *policy,
                    ),
            decreases n - i,
        {
            proof {
                RhythmTree::lemma_child_decreases(*tree, i as int);
            }
            proof {
                assert(tick_total(allocation.children_view(), i + 1) == tick_total(allocation.children_view(), i as int)
                    + allocation.children_view()[i as int].ticks);
                assert(tick_total(allocation.children_view(), i as int) == boundary_tick(parent, ws, i as int, policy.convention));
                assert(tick_total(allocation.children_view(), i + 1) == boundary_tick(parent, ws, i + 1, policy.convention));
                if quantizes_within(self, *tree, span@.0, span@.1, start_tick as int, end_tick as int, *policy) {
                    assert(division_cut(span@.0, span@.1, ws, i as int) == division_cut(span@.0, span@.1, ws, i as int));
                }
            }
            let child_end = match boundary.checked_add(ticks[i]) {
                Some(e) => e,
                None => {
                    return Err(TimeError::Overflow);
                },
            };
            let child = match self.quantize_subtree(&kids[i], &spans[i], boundary, child_end, policy) {
                Ok(c) => c,
                Err(e) => {
                    proof {
                        assert(spans@[i as int]@ == (
                            division_cut(span@.0, span@.1, ws, i as int),
                            division_cut(span@.0, span@.1, ws, i + 1),
                        ));
                    }
                    return Err(e);
                },
            };
            let ghost before = children@;
            children.push(child);
            proof {
                assert(spans@[i as int]@ == (
                    division_cut(span@.0, span@.1, ws, i as int),
                    division_cut(span@.0, span@.1, ws, i + 1),
                ));
                assert forall|j: int| 0 <= j < i + 1 implies quantized_as(
                    self,
                    kids@[j],
                    #[trigger] children@[j],
                    division_cut(span@.0, span@.1, ws, j),
                    division_cut(span@.0, span@.1, ws, j + 1),
                    start_tick + boundary_tick(parent, ws, j, policy.convention),
                    start_tick + boundary_tick(parent, ws, j + 1, policy.convention),
                    *policy,
                ) by {
                    if j < i {
                        assert(children@[j] == before[j]);
                    }
                }
                assert(children@.drop_last() == before);
                lemma_all_tiled_push(before, child);
                assert(tick_total(allocation.children_view(), i + 1) == tick_total(allocation.children_view(), i as int) + allocation.children_view()[i as int].ticks);
            }
            boundary = child_end;
            i += 1;
        }
        let node = QuantizedNode { start_tick, end_tick, source: *span, residual, children, issue: None };
        proof {
            assert(node.children@.len() == n);
            assert(node.tiled());
        }
        Ok(node)
    }
}

/// Appending a tiled node keeps the prefix property.
pub proof fn lemma_all_tiled_push(s: Seq<QuantizedNode>, x: QuantizedNode)
    requires
        QuantizedNode::all_tiled(s, s.len() as int),
        x.tiled(),
    ensures
        QuantizedNode::all_tiled(s.push(x), s.len() + 1int),
{
    lemma_all_tiled_extend(s, s.push(x), s.len() as int);
}

/// `all_tiled` only looks at the prefix it is given.
pub proof fn lemma_all_tiled_extend(s: Seq<QuantizedNode>, t: Seq<QuantizedNode>, k: int)
    requires
        0 <= k <= s.len() <= t.len(),
        forall|j: int| 0 <= j < s.len() ==> t[j] == s[j],
        QuantizedNode::all_tiled(s, k),
    ensures
        QuantizedNode::all_tiled(t, k),
    decreases k,
{
    if k > 0 {
        lemma_all_tiled_extend(s, t, k - 1);
    }
}


/// The exact gap, in beats, between the cumulative share of the first `k`
/// children and the tick boundary after them.
pub open spec fn prefix_gap(parent: int, ws: Seq<(int, int)>, k: int, convention: RoundingConvention, ticks: int) -> (int, int) {
    rat_div(
        rat_sub(share(parent, sum_pairs(ws.take(k)), sum_pairs(ws)), (boundary_tick(parent, ws, k, convention), 1int)),
        (ticks, 1int),
    )
}

/// One child's residual carries the gap before it to the gap after it.
proof fn lemma_gap_step(a: (int, int), c: (int, int), b: int, d: int, t: int)
    requires
        a.1 > 0,
        c.1 > 0,
        t > 0,
    ensures
        rat_eq(
            rat_add(
                rat_div(rat_sub(a, (b, 1int)), (t, 1int)),
                rat_div(rat_sub(rat_sub(c, a), (d - b, 1int)), (t, 1int)),
            ),
            rat_div(rat_sub(c, (d, 1int)), (t, 1int)),
        ),
        rat_div(rat_sub(a, (b, 1int)), (t, 1int)).1 > 0,
        rat_div(rat_sub(rat_sub(c, a), (d - b, 1int)), (t, 1int)).1 > 0,
{
    let (a0, a1, c0, c1) = (a.0, a.1, c.0, c.1);
    let x1 = rat_div(rat_sub(a, (b, 1int)), (t, 1int));
    let x2 = rat_div(rat_sub(rat_sub(c, a), (d - b, 1int)), (t, 1int));
    let target = rat_div(rat_sub(c, (d, 1int)), (t, 1int));
    let p = a0 - b * a1;
    let q = c0 * a1 - a0 * c1 - (d - b) * (c1 * a1);
    assert(x1 == (p, a1 * t));
    assert(x2 == (q, (c1 * a1) * t));
    assert(target == (c0 - d * c1, c1 * t));
    lemma_den_product(a1, t);
    lemma_den_product(c1, a1);
    lemma_den_product(c1 * a1, t);
    let sum = rat_add(x1, x2);
    let m = a1 * t;
    assert(sum.0 == p * ((c1 * a1) * t) + q * m);
    assert(p * ((c1 * a1) * t) == m * (p * c1)) by (nonlinear_arith)
        requires
            m == a1 * t,
    ;
    assert(q * m == m * q) by (nonlinear_arith);
    assert(m * (p * c1) + m * q == m * (p * c1 + q)) by (nonlinear_arith);
    assert(p * c1 + q == a1 * (c0 - d * c1)) by (nonlinear_arith)
        requires
            p == a0 - b * a1,
            q == c0 * a1 - a0 * c1 - (d - b) * (c1 * a1),
    ;
    assert(sum.0 == m * (a1 * (c0 - d * c1)));
    assert(sum.1 == m * ((c1 * a1) * t));
    let v = c0 - d * c1;
    assert((m * (a1 * v)) * (c1 * t) == v * (m * ((c1 * a1) * t))) by (nonlinear_arith)
        requires
            m == a1 * t,
    ;
}

/// The gap after the first `k` children is the sum of their residuals.
#[verifier::spinoff_prover]
#[verifier::rlimit(30)]
proof fn lemma_gap_prefix(
    parent: int,
    ws: Seq<(int, int)>,
    convention: RoundingConvention,
    ticks: int,
    residuals: Seq<(int, int)>,
    k: int,
)
    requires
        parent >= 0,
        ticks > 0,
        ws.len() > 0,
        residuals.len() == ws.len(),
        0 <= k <= ws.len(),
        forall|j: int| 0 <= j < ws.len() ==> (#[trigger] ws[j]).0 > 0 && ws[j].1 > 0,
        forall|i: int|
            0 <= i < ws.len() ==> rat_eq(
                #[trigger] residuals[i],
                rat_div(
                    rat_sub(
                        rat_sub(
                            share(parent, sum_pairs(ws.take(i + 1)), sum_pairs(ws)),
                            share(parent, sum_pairs(ws.take(i)), sum_pairs(ws)),
                        ),
                        (boundary_tick(parent, ws, i + 1, convention) - boundary_tick(parent, ws, i, convention), 1int),
                    ),
                    (ticks, 1int),
                ),
            ),
    ensures
        rat_eq(sum_pairs(residuals.take(k)), prefix_gap(parent, ws, k, convention, ticks)),
        prefix_gap(parent, ws, k, convention, ticks).1 > 0,
    decreases k,
{
    let total = sum_pairs(ws);
    lemma_sum_pairs_positive_value(ws);
    lemma_sum_pairs_take_positive(ws, k);
    let w = sum_pairs(ws.take(k));
    let a = share(parent, w, total);
    lemma_den_product(w.1, total.0);
    assert(a.1 == w.1 * total.0);
    lemma_den_product(a.1, ticks);
    assert(prefix_gap(parent, ws, k, convention, ticks).1 > 0) by {
        let g = rat_sub(a, (boundary_tick(parent, ws, k, convention), 1int));
        assert(g.1 == a.1 * 1);
        assert(prefix_gap(parent, ws, k, convention, ticks) == rat_div(g, (ticks, 1int)));
        assert(rat_div(g, (ticks, 1int)).1 == g.1 * ticks);
    }
    if k == 0 {
        assert(ws.take(0) =~= Seq::<(int, int)>::empty());
        assert(residuals.take(0) =~= Seq::<(int, int)>::empty());
        assert(w == (0int, 1int));
        assert(a.0 == 0) by (nonlinear_arith)
            requires
                a.0 == (parent * w.0) * total.1,
                w.0 == 0,
        ;
        let g = rat_sub(a, (boundary_tick(parent, ws, 0, convention), 1int));
        assert(boundary_tick(parent, ws, 0, convention) == 0);
        assert(g.0 == 0) by (nonlinear_arith)
            requires
                g.0 == a.0 * 1 - 0 * a.1,
                a.0 == 0,
        ;
        assert(prefix_gap(parent, ws, k, convention, ticks).0 == 0) by (nonlinear_arith)
            requires
                prefix_gap(parent, ws, k, convention, ticks).0 == g.0 * 1,
                g.0 == 0,
        ;
        assert(sum_pairs(residuals.take(0)) == (0int, 1int));
    } else {
        lemma_gap_prefix(parent, ws, convention, ticks, residuals, k - 1);
        let i = k - 1;
        let w0 = sum_pairs(ws.take(i));
        lemma_sum_pairs_take_positive(ws, i);
        let a0 = share(parent, w0, total);
        lemma_den_product(w0.1, total.0);
        let b = boundary_tick(parent, ws, i, convention);
        let d = boundary_tick(parent, ws, k, convention);
        lemma_gap_step(a0, a, b, d, ticks);
        lemma_sum_take_step(residuals, i);
        let before = sum_pairs(residuals.take(i));
        let g0 = prefix_gap(parent, ws, i, convention, ticks);
        let x = rat_div(rat_sub(rat_sub(a, a0), (d - b, 1int)), (ticks, 1int));
        crate::algebra::lemma_rat_add_congruent(before, residuals[i], g0, x);
        lemma_den_product(g0.1, x.1);
        crate::algebra::lemma_rat_eq_trans(
            sum_pairs(residuals.take(k)),
            rat_add(g0, x),
            prefix_gap(parent, ws, k, convention, ticks),
        );
    }
}

/// Under endpoint-preserving allocation the children's residuals cancel:
/// their exact sum is zero, which is what preserving the endpoint means.
/// The residual of child `i` is the exact share it was owed less the ticks
/// it received, in beats.
pub proof fn law_preserving_residuals_cancel(
    parent: int,
    ws: Seq<(int, int)>,
    convention: RoundingConvention,
    ticks: int,
    residuals: Seq<(int, int)>,
)
    requires
        parent >= 0,
        ticks > 0,
        ws.len() > 0,
        residuals.len() == ws.len(),
        forall|j: int| 0 <= j < ws.len() ==> (#[trigger] ws[j]).0 > 0 && ws[j].1 > 0,
        forall|i: int|
            0 <= i < ws.len() ==> rat_eq(
                #[trigger] residuals[i],
                rat_div(
                    rat_sub(
                        rat_sub(
                            share(parent, sum_pairs(ws.take(i + 1)), sum_pairs(ws)),
                            share(parent, sum_pairs(ws.take(i)), sum_pairs(ws)),
                        ),
                        (boundary_tick(parent, ws, i + 1, convention) - boundary_tick(parent, ws, i, convention), 1int),
                    ),
                    (ticks, 1int),
                ),
            ),
    ensures
        rat_eq(sum_pairs(residuals), (0int, 1int)),
{
    let n = ws.len() as int;
    lemma_gap_prefix(parent, ws, convention, ticks, residuals, n);
    assert(residuals.take(n) =~= residuals);
    assert(ws.take(n) =~= ws);
    let total = sum_pairs(ws);
    lemma_sum_pairs_positive_value(ws);
    let a = share(parent, total, total);
    assert(a == (parent * total.0 * total.1, total.1 * total.0));
    assert(boundary_tick(parent, ws, n, convention) == parent);
    let g = prefix_gap(parent, ws, n, convention, ticks);
    assert(g.0 == 0) by (nonlinear_arith)
        requires
            g.0 == (a.0 * 1 - parent * a.1) * 1,
            a == (parent * total.0 * total.1, total.1 * total.0),
    ;
    assert(g.0 * 1 == 0 * g.1) by (nonlinear_arith)
        requires
            g.0 == 0,
    ;
    assert(rat_eq(g, (0int, 1int)));
    crate::algebra::lemma_rat_eq_trans(sum_pairs(residuals), g, (0int, 1int));
}

/// Quantizing `tree` over `[start, end]` between ticks `a` and `b` of grid
/// `g` stays within storage and runs forward at every node: the node's
/// length, its length in ticks and its residual fit, and a node with children
/// allocates its ticks (never fewer than none) within storage; unless the
/// allocation is reported infeasible, the node divides its span computably,
/// and each child's end tick fits and the child quantizes over its share.
pub open spec fn quantizes_within(
    g: TickGrid,
    tree: RhythmTree,
    start: (int, int),
    end: (int, int),
    a: int,
    b: int,
    policy: AllocationPolicy,
) -> bool
    decreases tree,
    via quantizes_within_decreases
{
    let d = reduce(rat_sub(end, start));
    let x = reduce(rat_mul(d, (g.ticks(), 1int)));
    let parent = b - a;
    let cs = tree.children_view();
    let ws = weights_of(cs);
    let n = cs.len() as int;
    &&& fits(d)
    &&& fits(x)
    &&& i64::MIN < parent <= i64::MAX
    &&& fits(reduce(rat_sub(x, (parent, 1int))))
    &&& fits(reduce(rat_div(rat_sub(x, (parent, 1int)), (g.ticks(), 1int))))
    &&& n > 0 ==> {
        &&& parent >= 0
        &&& prefix_sums_fit(ws)
        &&& forall|k: int|
            1 <= k <= n ==> #[trigger] preserving_step_fits(parent, ws, k, g.ticks(), policy.convention)
        &&& !(policy.on_infeasible == CollisionPolicy::Report && (minimum_unmeetable(policy, n, parent)
            || some_child_collapses(policy, parent, ws))) ==> {
            &&& division_computable(start, end, ws)
            &&& forall|i: int|
                0 <= i < n ==> {
                    &&& a + boundary_tick(parent, ws, i + 1, policy.convention) <= i64::MAX
                    &&& a + boundary_tick(parent, ws, i + 1, policy.convention) >= i64::MIN
                    &&& quantizes_within(
                        g,
                        cs[i],
                        #[trigger] division_cut(start, end, ws, i),
                        division_cut(start, end, ws, i + 1),
                        a + boundary_tick(parent, ws, i, policy.convention),
                        a + boundary_tick(parent, ws, i + 1, policy.convention),
                        policy,
                    )
                }
        }
    }
}

#[via_fn]
proof fn quantizes_within_decreases(
    g: TickGrid,
    tree: RhythmTree,
    start: (int, int),
    end: (int, int),
    a: int,
    b: int,
    policy: AllocationPolicy,
) {
    assert forall|i: int| 0 <= i < tree.children_view().len() implies decreases_to!(
        tree => tree.children_view()[i]
    ) by {
        RhythmTree::lemma_child_decreases(tree, i);
    }
}

/// Children whose ticks are the gaps between consecutive boundaries total
/// the boundary they reach.
pub proof fn lemma_tick_total_boundary(
    children: Seq<AllocatedChild>,
    parent: int,
    ws: Seq<(int, int)>,
    convention: RoundingConvention,
    i: int,
)
    requires
        0 <= i <= children.len(),
        forall|j: int|
            0 <= j < children.len() ==> (#[trigger] children[j]).ticks == boundary_tick(parent, ws, j + 1, convention)
                - boundary_tick(parent, ws, j, convention),
    ensures
        tick_total(children, i) == boundary_tick(parent, ws, i, convention),
    decreases i,
{
    if i > 0 {
        lemma_tick_total_boundary(children, parent, ws, convention, i - 1);
        assert(children[i - 1].ticks == boundary_tick(parent, ws, i, convention) - boundary_tick(parent, ws, i - 1, convention));
    }
}

/// A position rounds onto grid `g` within storage, with its residual.
pub open spec fn quantizable(g: TickGrid, at: (int, int), convention: RoundingConvention) -> bool {
    let t = round_spec(at.0 * g.ticks(), at.1, convention);
    fits_z(t) && fits(reduce(rat_sub(at, (t, g.ticks()))))
}

/// `node` is the quantization of `tree` over `[start, end]` between ticks
/// `a` and `b` of grid `g`: it records its ticks and source, its residual is
/// the exact length in ticks less the ticks it holds, in beats; a leaf has no
/// children and no issue; a node whose allocation is reported infeasible
/// records that and goes no deeper; any other node has one child per tree
/// child, each the quantization of that child over its stored share between
/// the endpoint-preserving boundaries.
pub open spec fn quantized_as(
    g: TickGrid,
    tree: RhythmTree,
    node: QuantizedNode,
    start: (int, int),
    end: (int, int),
    a: int,
    b: int,
    policy: AllocationPolicy,
) -> bool
    decreases tree,
    via quantized_as_decreases
{
    let x = reduce(rat_mul(reduce(rat_sub(end, start)), (g.ticks(), 1int)));
    let parent = b - a;
    let cs = tree.children_view();
    let ws = weights_of(cs);
    let n = cs.len() as int;
    let infeasible = policy.on_infeasible == CollisionPolicy::Report && (minimum_unmeetable(
        policy,
        n,
        parent,
    ) || some_child_collapses(policy, parent, ws));
    &&& node.start_view() == a
    &&& node.end_view() == b
    &&& node.source_view()@ == (start, end)
    &&& node.residual_view()@ == reduce(rat_div(rat_sub(x, (parent, 1int)), (g.ticks(), 1int)))
    &&& n == 0 ==> node.children_view().len() == 0 && node.issue_view() is None
    &&& n > 0 && infeasible ==> node.children_view().len() == 0 && node.issue_view() == Some(
        AllocationInfeasibility::MinimumSpan {
            children: n as usize,
            required_ticks: (policy.minimum_ticks * n) as i128,
            available_ticks: parent as i64,
        },
    )
    &&& n > 0 && !infeasible ==> {
        &&& node.issue_view() is None
        &&& node.children_view().len() == n
        &&& forall|i: int|
            0 <= i < n ==> quantized_as(
                g,
                cs[i],
                #[trigger] node.children_view()[i],
                division_cut(start, end, ws, i),
                division_cut(start, end, ws, i + 1),
                a + boundary_tick(parent, ws, i, policy.convention),
                a + boundary_tick(parent, ws, i + 1, policy.convention),
                policy,
            )
    }
}

#[via_fn]
proof fn quantized_as_decreases(
    g: TickGrid,
    tree: RhythmTree,
    node: QuantizedNode,
    start: (int, int),
    end: (int, int),
    a: int,
    b: int,
    policy: AllocationPolicy,
) {
    assert forall|i: int| 0 <= i < tree.children_view().len() implies decreases_to!(
        tree => tree.children_view()[i]
    ) by {
        RhythmTree::lemma_child_decreases(tree, i);
    }
}

/// The low end, in half ticks, of how far a value may lie above its rounding
/// under a convention: floor rounds down by less than a tick, ceiling up by
/// less than a tick, and the nearest conventions by at most half a tick.
pub open spec fn deviation_floor(convention: RoundingConvention) -> int {
    match convention {
        RoundingConvention::Floor => 0,
        RoundingConvention::Ceiling => -2,
        _ => -1,
    }
}

/// The exact boundary after the first `k` children lies within the
/// convention's band around the boundary tick: `2 * (exact - tick)` is
/// between `deviation_floor` and two more, in units of the denominator.
proof fn lemma_boundary_deviation(parent: int, ws: Seq<(int, int)>, k: int, convention: RoundingConvention)
    requires
        ws.len() > 0,
        0 <= k <= ws.len(),
        forall|j: int| 0 <= j < ws.len() ==> #[trigger] ws[j].1 > 0,
        forall|j: int| 0 <= j < ws.len() ==> #[trigger] ws[j].0 > 0,
    ensures
        ({
            let e = share(parent, sum_pairs(ws.take(k)), sum_pairs(ws));
            let b = boundary_tick(parent, ws, k, convention);
            &&& e.1 > 0
            &&& deviation_floor(convention) * e.1 <= 2 * (e.0 - b * e.1) <= (deviation_floor(convention) + 2) * e.1
        }),
{
    let total = sum_pairs(ws);
    lemma_sum_pairs_positive_value(ws);
    lemma_sum_pairs_take_positive(ws, k);
    let c = sum_pairs(ws.take(k));
    let e = share(parent, c, total);
    lemma_den_product(c.1, total.0);
    assert(e.1 == (1 * c.1) * total.0);
    let b = boundary_tick(parent, ws, k, convention);
    let lo = deviation_floor(convention);
    if k == 0 {
        assert(ws.take(0) =~= Seq::<(int, int)>::empty());
        assert(c == (0int, 1int));
        assert(e.0 == (parent * 0) * total.1);
        assert(e.0 == 0) by (nonlinear_arith)
            requires
                e.0 == (parent * 0) * total.1,
        ;
        assert(lo * e.1 <= 0 <= (lo + 2) * e.1) by (nonlinear_arith)
            requires
                -2 <= lo <= 0,
                e.1 > 0,
        ;
    } else if k == ws.len() {
        assert(ws.take(k) =~= ws);
        assert(e.0 - b * e.1 == 0) by (nonlinear_arith)
            requires
                e.0 == (parent * total.0) * total.1,
                e.1 == (1 * total.1) * total.0,
                b == parent,
        ;
        assert(lo * e.1 <= 0 <= (lo + 2) * e.1) by (nonlinear_arith)
            requires
                -2 <= lo <= 0,
                e.1 > 0,
        ;
    } else {
        crate::algebra::law_floor_and_ceiling_bracket(e.0, e.1);
        let f = round_spec(e.0, e.1, RoundingConvention::Floor);
        let g = round_spec(e.0, e.1, RoundingConvention::Ceiling);
        match convention {
            RoundingConvention::Floor => {
                assert(0 <= 2 * (e.0 - f * e.1) <= 2 * e.1) by (nonlinear_arith)
                    requires
                        f * e.1 <= e.0,
                        e.0 <= g * e.1,
                        g - f <= 1,
                        e.1 > 0,
                ;
            },
            RoundingConvention::Ceiling => {
                assert(-2 * e.1 <= 2 * (e.0 - g * e.1) <= 0) by (nonlinear_arith)
                    requires
                        f * e.1 <= e.0,
                        e.0 <= g * e.1,
                        g - f <= 1,
                        e.1 > 0,
                ;
            },
            _ => {
                crate::algebra::law_nearest_is_within_half_a_step(e.0, e.1, convention);
            },
        }
    }
}

/// Under endpoint-preserving allocation every child receives within one
/// tick of its exact share: its ticks differ from the exact difference of
/// its boundaries by at most one.
pub proof fn law_child_within_one_tick(parent: int, ws: Seq<(int, int)>, k: int, convention: RoundingConvention)
    requires
        0 <= k < ws.len(),
        forall|j: int| 0 <= j < ws.len() ==> #[trigger] ws[j].1 > 0,
        forall|j: int| 0 <= j < ws.len() ==> #[trigger] ws[j].0 > 0,
    ensures
        ({
            let x = rat_sub(
                share(parent, sum_pairs(ws.take(k + 1)), sum_pairs(ws)),
                share(parent, sum_pairs(ws.take(k)), sum_pairs(ws)),
            );
            let t = boundary_tick(parent, ws, k + 1, convention) - boundary_tick(parent, ws, k, convention);
            rat_le((t - 1, 1int), x) && rat_le(x, (t + 1, 1int))
        }),
{
    lemma_boundary_deviation(parent, ws, k, convention);
    lemma_boundary_deviation(parent, ws, k + 1, convention);
    let e0 = share(parent, sum_pairs(ws.take(k)), sum_pairs(ws));
    let e1 = share(parent, sum_pairs(ws.take(k + 1)), sum_pairs(ws));
    let b0 = boundary_tick(parent, ws, k, convention);
    let b1 = boundary_tick(parent, ws, k + 1, convention);
    let lo = deviation_floor(convention);
    let u0 = 2 * (e0.0 - b0 * e0.1);
    let u1 = 2 * (e1.0 - b1 * e1.1);
    let t = b1 - b0;
    let x = rat_sub(e1, e0);
    assert(2 * (x.0 - t * x.1) == u1 * e0.1 - u0 * e1.1) by (nonlinear_arith)
        requires
            x.0 == e1.0 * e0.1 - e0.0 * e1.1,
            x.1 == e1.1 * e0.1,
            t == b1 - b0,
            u0 == 2 * (e0.0 - b0 * e0.1),
            u1 == 2 * (e1.0 - b1 * e1.1),
    ;
    assert(-2 * x.1 <= u1 * e0.1 - u0 * e1.1 <= 2 * x.1) by (nonlinear_arith)
        requires
            lo * e0.1 <= u0 <= (lo + 2) * e0.1,
            lo * e1.1 <= u1 <= (lo + 2) * e1.1,
            e0.1 > 0,
            e1.1 > 0,
            x.1 == e1.1 * e0.1,
    ;
    assert((t - 1) * x.1 <= x.0 * 1 && x.0 * 1 <= (t + 1) * x.1) by (nonlinear_arith)
        requires
            2 * (x.0 - t * x.1) == u1 * e0.1 - u0 * e1.1,
            -2 * x.1 <= u1 * e0.1 - u0 * e1.1 <= 2 * x.1,
    ;
}

} // verus!
