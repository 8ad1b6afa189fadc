//! Hierarchical and tupleted rhythm: weighted rhythm trees whose children
//! partition their parent's span exactly, and cyclic onset patterns.
use crate::algebra::{
    fits, lemma_den_product, lemma_q_view, lemma_rat_add_congruent, lemma_rat_div_congruent,
    lemma_rat_div_positive, lemma_rat_eq_refl_symm, lemma_rat_le_congruent, lemma_rat_mul_congruent,
    lemma_reduce_eq, lemma_reduce_unique, lemma_step_add, lemma_step_div, lemma_step_mul, rat_add,
    rat_div, rat_eq, rat_le, rat_mul, rat_sub, reduce, Q,
};
use crate::error::TimeError;
use crate::time::beat::{lemma_prefix_step, lemma_span_view, prefix_sums_fit, sum_pairs, BeatSpan, BeatTime, Beats};
use crate::time::meter::lemma_sorted_set_eq;
use vstd::prelude::*;
use vstd::std_specs::convert::FromSpec;

verus! {

broadcast use {lemma_q_view, lemma_span_view};

/// A node of a rhythm tree: a strictly positive weight and, for an internal
/// node, a non-empty ordered list of children.
#[derive(Debug, PartialEq, Eq)]
pub struct RhythmTree {
    weight: Q,
    children: Vec<RhythmTree>,
}

/// The weights of a sequence of trees.
pub open spec fn weights_of(children: Seq<RhythmTree>) -> Seq<(int, int)> {
    children.map_values(|c: RhythmTree| c.weight_view())
}

/// The exact boundary after the first `k` of `weights`, in a span from
/// `start` to `end`.
pub open spec fn boundary(start: (int, int), end: (int, int), weights: Seq<(int, int)>, k: int) -> (
    int,
    int,
) {
    rat_add(
        start,
        rat_mul(rat_sub(end, start), rat_div(sum_pairs(weights.take(k)), sum_pairs(weights))),
    )
}

/// Consecutive spans that share their boundaries exactly and run from
/// `start` to `end`.
pub open spec fn chained(spans: Seq<BeatSpan>, start: (int, int), end: (int, int)) -> bool {
    &&& spans.len() > 0
    &&& spans[0]@.0 == start
    &&& spans.last()@.1 == end
    &&& forall|i: int| 0 <= i < spans.len() - 1 ==> (#[trigger] spans[i])@.1 == spans[i + 1]@.0
}

impl RhythmTree {
    #[verifier::type_invariant]
    spec fn inv(self) -> bool {
        self.weight@.0 > 0
    }

    /// The node's weight, which is strictly positive.
    pub closed spec fn weight_view(self) -> (int, int) {
        if self.weight@.0 > 0 {
            self.weight@
        } else {
            (1, 1)
        }
    }

    /// The node's children, in order.
    pub closed spec fn children_view(self) -> Seq<RhythmTree> {
        self.children@
    }

    /// The number of leaves below this node, the node itself if it is a leaf.
    pub closed spec fn leaves(self) -> nat
        decreases self,
    {
        if self.children@.len() == 0 {
            1
        } else {
            Self::leaves_of(self.children@, self.children@.len() as int)
        }
    }

    /// The number of leaves below the first `k` trees of a sequence.
    pub closed spec fn leaves_of(s: Seq<RhythmTree>, k: int) -> nat
        decreases s, k,
    {
        if k <= 0 || k > s.len() {
            0
        } else {
            Self::leaves_of(s, k - 1) + s[k - 1].leaves()
        }
    }

    /// The height of the tree: zero for a leaf.
    pub closed spec fn height(self) -> nat
        decreases self,
    {
        if self.children@.len() == 0 {
            0
        } else {
            1 + Self::height_of(self.children@, self.children@.len() as int)
        }
    }

    /// The greatest height among the first `k` trees of a sequence.
    pub closed spec fn height_of(s: Seq<RhythmTree>, k: int) -> nat
        decreases s, k,
    {
        if k <= 0 || k > s.len() {
            0
        } else {
            let rest = Self::height_of(s, k - 1);
            let here = s[k - 1].height();
            if rest >= here {
                rest
            } else {
                here
            }
        }
    }

    /// Every tree has a positive weight.
    pub broadcast proof fn lemma_weight_positive(t: RhythmTree)
        ensures
            #![trigger t.weight_view()]
            t.weight_view().0 > 0,
            0 < t.weight_view().1 <= i64::MAX,
            t.weight_view().0 <= i64::MAX,
    {
    }

    /// A leaf of an integer weight.
    pub fn leaf(weight: i64) -> (r: Result<RhythmTree, TimeError>)
        ensures
            weight <= 0 ==> r == Err::<RhythmTree, TimeError>(TimeError::NonPositiveWeight),
            weight > 0 ==> (r matches Ok(t) && t.weight_view() == (weight as int, 1int)
                && t.children_view().len() == 0),
    {
        if weight <= 0 {
            return Err(TimeError::NonPositiveWeight);
        }
        Self::weighted_leaf(Q::integer(weight))
    }

    /// A leaf of an exact weight.
    pub fn weighted_leaf(weight: Q) -> (r: Result<RhythmTree, TimeError>)
        ensures
            weight@.0 <= 0 ==> r == Err::<RhythmTree, TimeError>(TimeError::NonPositiveWeight),
            weight@.0 > 0 ==> (r matches Ok(t) && t.weight_view() == weight@
                && t.children_view().len() == 0),
    {
        if !weight.is_positive() {
            return Err(TimeError::NonPositiveWeight);
        }
        Ok(RhythmTree { weight, children: Vec::new() })
    }

    /// A division of unit weight into the given children.
    pub fn division(children: Vec<RhythmTree>) -> (r: Result<RhythmTree, TimeError>)
        ensures
            children@.len() == 0 ==> r == Err::<RhythmTree, TimeError>(TimeError::EmptyDivision),
            children@.len() > 0 ==> (r matches Ok(t) && t.weight_view() == (1int, 1int)
                && t.children_view() == children@),
    {
        Self::weighted_division(Q::one(), children)
    }

    /// A division of an exact weight into the given children.
    pub fn weighted_division(weight: Q, children: Vec<RhythmTree>) -> (r: Result<
        RhythmTree,
        TimeError,
    >)
        ensures
            weight@.0 <= 0 ==> r == Err::<RhythmTree, TimeError>(TimeError::NonPositiveWeight),
            weight@.0 > 0 && children@.len() == 0 ==> r == Err::<RhythmTree, TimeError>(
                TimeError::EmptyDivision,
            ),
            weight@.0 > 0 && children@.len() > 0 ==> (r matches Ok(t) && t.weight_view()
                == weight@ && t.children_view() == children@),
    {
        if !weight.is_positive() {
            return Err(TimeError::NonPositiveWeight);
        }
        if children.len() == 0 {
            return Err(TimeError::EmptyDivision);
        }
        Ok(RhythmTree { weight, children })
    }

    /// `count` equal leaves of weight one under a unit division.
    pub fn equal_division(count: usize) -> (r: Result<RhythmTree, TimeError>)
        ensures
            count == 0 ==> r == Err::<RhythmTree, TimeError>(TimeError::EmptyDivision),
            count > 0 ==> (r matches Ok(t) && t.weight_view() == (1int, 1int)
                && t.children_view().len() == count && forall|i: int|
                0 <= i < count ==> (#[trigger] t.children_view()[i]).weight_view() == (1int, 1int)
                && t.children_view()[i].children_view().len() == 0),
    {
        let mut children: Vec<RhythmTree> = Vec::new();
        let mut i: usize = 0;
        while i < count
            invariant
                i <= count,
                children@.len() == i,
                forall|j: int|
                    0 <= j < i ==> (#[trigger] children@[j]).weight_view() == (1int, 1int)
                        && children@[j].children_view().len() == 0,
            decreases count - i,
        {
            let leaf = RhythmTree { weight: Q::one(), children: Vec::new() };
            children.push(leaf);
            i += 1;
        }
        Self::division(children)
    }

    /// A unit division into leaves of the given integer weights.
    pub fn additive(weights: &[i64]) -> (r: Result<RhythmTree, TimeError>)
        ensures
            (exists|i: int| 0 <= i < weights@.len() && weights@[i] <= 0) ==> r == Err::<
                RhythmTree,
                TimeError,
            >(TimeError::NonPositiveWeight),
            (forall|i: int| 0 <= i < weights@.len() ==> weights@[i] > 0) && weights@.len() == 0
                ==> r == Err::<RhythmTree, TimeError>(TimeError::EmptyDivision),
            (forall|i: int| 0 <= i < weights@.len() ==> weights@[i] > 0) && weights@.len() > 0
                ==> (r matches Ok(t) && t.weight_view() == (1int, 1int)
                && t.children_view().len() == weights@.len() && forall|i: int|
                0 <= i < weights@.len() ==> (#[trigger] t.children_view()[i]).weight_view() == (
                weights@[i] as int,
                1int,
            ) && t.children_view()[i].children_view().len() == 0),
    {
        let mut children: Vec<RhythmTree> = Vec::new();
        let mut i: usize = 0;
        while i < weights.len()
            invariant
                i <= weights.len(),
                children@.len() == i,
                forall|j: int| 0 <= j < i ==> weights@[j] > 0,
                forall|j: int|
                    0 <= j < i ==> (#[trigger] children@[j]).weight_view() == (weights@[j] as int, 1int)
                        && children@[j].children_view().len() == 0,
            decreases weights.len() - i,
        {
            let leaf = Self::leaf(weights[i])?;
            children.push(leaf);
            i += 1;
        }
        Self::division(children)
    }

    /// The node's exact weight.
    pub fn weight(&self) -> (r: Q)
        ensures
            r@ == self.weight_view(),
    {
        proof {
            use_type_invariant(self);
        }
        self.weight
    }

    /// The node's children, in order.
    pub fn children(&self) -> (r: &[RhythmTree])
        ensures
            r@ == self.children_view(),
    {
        self.children.as_slice()
    }

    /// Whether the node has no children.
    pub fn is_leaf(&self) -> (r: bool)
        ensures
            r == (self.children_view().len() == 0),
    {
        self.children.len() == 0
    }

    /// The exact sum of the children's weights.
    pub fn child_weight_total(&self) -> (r: Option<Q>)
        ensures
            r is Some <==> prefix_sums_fit(weights_of(self.children_view())),
            r matches Some(t) ==> rat_eq(t@, sum_pairs(weights_of(self.children_view()))) && t@.1
                > 0,
    {
        let n = self.children.len();
        let mut total = Q::zero();
        let mut i: usize = 0;
        while i < n
            invariant
                n == self.children@.len(),
                i <= n,
                rat_eq(total@, sum_pairs(weights_of(self.children@).take(i as int))),
                total@.1 > 0,
                forall|k: int| 1 <= k <= i ==> fits(#[trigger] reduce(sum_pairs(weights_of(self.children@).take(k)))),
            decreases n - i,
        {
            let w = self.children[i].weight();
            proof {
                lemma_weights_positive(self.children@);
                lemma_prefix_step(total@, weights_of(self.children@), i as int);
            }
            let next = match total.checked_add(&w) {
                Some(t) => t,
                None => {
                    proof {
                        assert(!fits(reduce(sum_pairs(weights_of(self.children@).take(i + 1)))));
                    }
                    return None;
                },
            };
            proof {
                let ws = weights_of(self.children@);
                lemma_sum_take_step(ws, i as int);
                lemma_weights_positive(self.children@);
                lemma_sum_pairs_take_positive(ws, i as int);
                lemma_rat_eq_refl_symm(w@, w@);
                lemma_step_add(next@, total@, w@, sum_pairs(ws.take(i as int)), ws[i as int]);
            }
            total = next;
            i += 1;
        }
        proof {
            assert(weights_of(self.children@).take(n as int) =~= weights_of(self.children@));
        }
        Some(total)
    }

    /// The number of leaves, saturating at `usize::MAX`.
    pub fn leaf_count(&self) -> (r: usize)
        ensures
            self.leaves() <= usize::MAX ==> r == self.leaves(),
        decreases self,
    {
        if self.children.len() == 0 {
            return 1;
        }
        let mut total: usize = 0;
        let mut i: usize = 0;
        while i < self.children.len()
            invariant
                i <= self.children@.len(),
                self.children@.len() > 0,
                Self::leaves_of(self.children@, i as int) <= usize::MAX ==> total
                    == Self::leaves_of(self.children@, i as int),
                total <= Self::leaves_of(self.children@, i as int),
            decreases self.children@.len() - i,
        {
            proof {
                assert(decreases_to!(self => self.children@[i as int]));
            }
            let here = self.children[i].leaf_count();
            total = total.saturating_add(here);
            i += 1;
        }
        total
    }

    /// The height of the tree, saturating at `usize::MAX`.
    pub fn depth(&self) -> (r: usize)
        ensures
            self.height() <= usize::MAX ==> r == self.height(),
        decreases self,
    {
        if self.children.len() == 0 {
            return 0;
        }
        let mut best: usize = 0;
        let mut i: usize = 0;
        while i < self.children.len()
            invariant
                i <= self.children@.len(),
                self.children@.len() > 0,
                Self::height_of(self.children@, i as int) <= usize::MAX ==> best
                    == Self::height_of(self.children@, i as int),
                best <= Self::height_of(self.children@, i as int),
            decreases self.children@.len() - i,
        {
            proof {
                assert(decreases_to!(self => self.children@[i as int]));
            }
            let here = self.children[i].depth();
            if here > best {
                best = here;
            }
            i += 1;
        }
        best.saturating_add(1)
    }
}

/// The weighted boundaries do not depend on how the endpoints are written.
pub proof fn lemma_boundary_congruent(
    s1: (int, int),
    e1: (int, int),
    s2: (int, int),
    e2: (int, int),
    ws: Seq<(int, int)>,
    k: int,
)
    requires
        rat_eq(s1, s2),
        rat_eq(e1, e2),
    ensures
        rat_eq(boundary(s1, e1, ws, k), boundary(s2, e2, ws, k)),
{
    let f = rat_div(sum_pairs(ws.take(k)), sum_pairs(ws));
    crate::algebra::lemma_rat_sub_congruent(e1, s1, e2, s2);
    lemma_rat_eq_refl_symm(f, f);
    crate::algebra::lemma_rat_mul_congruent(rat_sub(e1, s1), f, rat_sub(e2, s2), f);
    crate::algebra::lemma_rat_add_congruent(
        s1,
        rat_mul(rat_sub(e1, s1), f),
        s2,
        rat_mul(rat_sub(e2, s2), f),
    );
}

/// Between endpoints with positive denominators, every weighted boundary
/// has a positive denominator; the first is the start and the last the end.
pub proof fn lemma_boundary_ends(s: (int, int), e: (int, int), ws: Seq<(int, int)>, k: int)
    requires
        s.1 > 0,
        e.1 > 0,
        ws.len() > 0,
        0 <= k <= ws.len(),
        forall|j: int| 0 <= j < ws.len() ==> #[trigger] ws[j].1 > 0,
        forall|j: int| 0 <= j < ws.len() ==> #[trigger] ws[j].0 > 0,
    ensures
        boundary(s, e, ws, k).1 > 0,
        rat_eq(boundary(s, e, ws, 0), s),
        rat_eq(boundary(s, e, ws, ws.len() as int), e),
{
    let total = sum_pairs(ws);
    lemma_sum_pairs_positive_value(ws);
    lemma_sum_pairs_take_positive(ws, k);
    let part = sum_pairs(ws.take(k));
    let f = rat_div(part, total);
    let d = rat_sub(e, s);
    lemma_den_product(e.1, s.1);
    lemma_den_product(part.1, total.0);
    lemma_den_product(d.1, f.1);
    lemma_den_product(s.1, d.1 * f.1);
    assert(ws.take(0) =~= Seq::<(int, int)>::empty());
    assert(sum_pairs(ws.take(0)) == (0int, 1int));
    assert(total.0 > 0);
    let f0 = rat_div(sum_pairs(ws.take(0)), total);
    assert(f0 == (0 * total.1, 1 * total.0));
    assert(f0.0 == 0);
    let b0 = boundary(s, e, ws, 0);
    assert(rat_mul(d, f0).0 == 0);
    lemma_den_product(1, total.0);
    lemma_den_product(d.1, f0.1);
    assert(b0.0 * s.1 == s.0 * b0.1) by (nonlinear_arith)
        requires
            b0 == rat_add(s, rat_mul(d, f0)),
            rat_mul(d, f0).0 == 0,
    ;
    assert(ws.take(ws.len() as int) =~= ws);
    let fl = rat_div(total, total);
    let bl = boundary(s, e, ws, ws.len() as int);
    assert(fl.0 == fl.1) by (nonlinear_arith)
        requires
            fl == (total.0 * total.1, total.1 * total.0),
    ;
    lemma_den_product(total.1, total.0);
    assert(bl.0 * e.1 == e.0 * bl.1) by (nonlinear_arith)
        requires
            bl == rat_add(s, rat_mul(d, fl)),
            d == rat_sub(e, s),
            fl.0 == fl.1,
            fl.1 > 0,
            s.1 > 0,
            e.1 > 0,
    ;
}

/// The boundary after the first `k` weighted shares of the span from
/// `start` to `end`: the same value as `boundary`, kept behind a name so
/// that reasoning about nested flattenings does not unfold the weight sums.
#[verifier::opaque]
pub open spec fn share_boundary(start: (int, int), end: (int, int), ws: Seq<(int, int)>, k: int) -> (int, int) {
    boundary(start, end, ws, k)
}

/// The shares of the children of a node: each boundary has a positive
/// denominator, and equal endpoints give equal boundaries.
pub proof fn lemma_share_facts(
    s1: (int, int),
    e1: (int, int),
    s2: (int, int),
    e2: (int, int),
    cs: Seq<RhythmTree>,
    k: int,
)
    requires
        s1.1 > 0,
        e1.1 > 0,
        s2.1 > 0,
        e2.1 > 0,
        rat_eq(s1, s2),
        rat_eq(e1, e2),
        cs.len() > 0,
        0 <= k <= cs.len(),
    ensures
        share_boundary(s1, e1, weights_of(cs), k).1 > 0,
        share_boundary(s2, e2, weights_of(cs), k).1 > 0,
        rat_eq(share_boundary(s1, e1, weights_of(cs), k), share_boundary(s2, e2, weights_of(cs), k)),
{
    reveal(share_boundary);
    lemma_weights_positive(cs);
    lemma_boundary_ends(s1, e1, weights_of(cs), k);
    lemma_boundary_ends(s2, e2, weights_of(cs), k);
    lemma_boundary_congruent(s1, e1, s2, e2, weights_of(cs), k);
}

/// Spans that partition the span from `s` to `e` at the weighted
/// boundaries run, one by one, over the children's shares.
pub proof fn lemma_child_span_shares(v: Seq<BeatSpan>, s: (int, int), e: (int, int), cs: Seq<RhythmTree>)
    requires
        cs.len() > 0,
        v.len() == cs.len(),
        s.1 > 0,
        e.1 > 0,
        chained(v, s, e),
        forall|i: int|
            0 <= i < v.len() - 1 ==> rat_eq((#[trigger] v[i])@.1, boundary(s, e, weights_of(cs), i + 1)),
    ensures
        forall|i: int|
            0 <= i < v.len() ==> rat_eq((#[trigger] v[i])@.0, share_boundary(s, e, weights_of(cs), i))
                && rat_eq(v[i]@.1, share_boundary(s, e, weights_of(cs), i + 1)) && share_boundary(
                s,
                e,
                weights_of(cs),
                i,
            ).1 > 0 && share_boundary(s, e, weights_of(cs), i + 1).1 > 0,
{
    reveal(share_boundary);
    let ws = weights_of(cs);
    lemma_weights_positive(cs);
    let n = v.len() as int;
    lemma_boundary_ends(s, e, ws, 0);
    assert forall|i: int| 0 <= i < n implies rat_eq((#[trigger] v[i])@.0, share_boundary(s, e, ws, i))
        && rat_eq(v[i]@.1, share_boundary(s, e, ws, i + 1)) && share_boundary(s, e, ws, i).1 > 0
        && share_boundary(s, e, ws, i + 1).1 > 0 by {
        lemma_boundary_ends(s, e, ws, i);
        lemma_boundary_ends(s, e, ws, i + 1);
        if i == 0 {
            lemma_rat_eq_refl_symm(boundary(s, e, ws, 0), s);
        } else {
            assert(v[i - 1]@.1 == v[i]@.0);
        }
        if i == n - 1 {
            assert(v[i] == v.last());
            lemma_rat_eq_refl_symm(boundary(s, e, ws, n), e);
        }
    }
}

impl RhythmTree {
    /// A tree is larger than each of its children.
    pub proof fn lemma_child_decreases(t: RhythmTree, i: int)
        requires
            0 <= i < t.children_view().len(),
        ensures
            decreases_to!(t => t.children_view()[i]),
    {
        assert(decreases_to!(t => t.children@[i]));
    }

    /// `leaves` is the flattening of the tree over the span from `start` to
    /// `end`, below `path`. A leaf gives a single leaf with that span and
    /// path. The children of an internal node take consecutive runs of the
    /// leaves, in order, and each child's run is its own flattening over its
    /// weighted share of the span, below the path extended by the child's
    /// index.
    /// The spans run from `s` to `e`, one over each child's weighted share.
    #[verifier::opaque]
    pub closed spec fn shares_of(spans: Seq<BeatSpan>, s: (int, int), e: (int, int), cs: Seq<RhythmTree>) -> bool {
        let ws = weights_of(cs);
        &&& s.1 > 0
        &&& e.1 > 0
        &&& chained(spans, s, e)
        &&& forall|i: int|
            0 <= i < spans.len() ==> rat_eq((#[trigger] spans[i])@.0, share_boundary(s, e, ws, i))
                && rat_eq(spans[i]@.1, share_boundary(s, e, ws, i + 1)) && share_boundary(s, e, ws, i).1 > 0
                && share_boundary(s, e, ws, i + 1).1 > 0
    }

    /// After flattening the first `k` children, `out` holds what it held
    /// before followed by their leaves, chained from `s`, each child's run
    /// flattening it over its share.
    #[verifier::opaque]
    pub closed spec fn collected_upto(
        cs: Seq<RhythmTree>,
        s: (int, int),
        e: (int, int),
        spans: Seq<BeatSpan>,
        base: int,
        path: Seq<usize>,
        held: Seq<FlatLeaf>,
        k: int,
        out: Seq<FlatLeaf>,
    ) -> bool {
        let ws = weights_of(cs);
        &&& base == held.len()
        &&& out.len() == base + Self::leaves_of(cs, k)
        &&& out.take(base) == held
        &&& k > 0 ==> chained_leaves(out.skip(base), s, spans[k - 1]@.1)
        &&& forall|i: int|
            0 <= i < k ==> (#[trigger] cs[i]).flattens(
                share_boundary(s, e, ws, i),
                share_boundary(s, e, ws, i + 1),
                path.push(i as usize),
                out.skip(base).subrange(Self::leaves_of(cs, i) as int, Self::leaves_of(cs, i + 1) as int),
            )
    }

    /// Flattening one more child extends what has been collected.
    #[verifier::spinoff_prover]
    #[verifier::rlimit(50)]
    proof fn lemma_collect_step(
        cs: Seq<RhythmTree>,
        s: (int, int),
        e: (int, int),
        spans: Seq<BeatSpan>,
        base: int,
        path: Seq<usize>,
        held: Seq<FlatLeaf>,
        k: int,
        before: Seq<FlatLeaf>,
        after: Seq<FlatLeaf>,
    )
        requires
            0 <= k < cs.len(),
            spans.len() == cs.len(),
            Self::shares_of(spans, s, e, cs),
            Self::collected_upto(cs, s, e, spans, base, path, held, k, before),
            spans[k]@.0.1 > 0,
            spans[k]@.1.1 > 0,
            after.len() == before.len() + cs[k].leaves(),
            after.take(before.len() as int) == before,
            chained_leaves(after.skip(before.len() as int), spans[k]@.0, spans[k]@.1),
            cs[k].flattens(spans[k]@.0, spans[k]@.1, path.push(k as usize), after.skip(before.len() as int)),
        ensures
            Self::collected_upto(cs, s, e, spans, base, path, held, k + 1, after),
    {
        let ws = weights_of(cs);
        assert(rat_eq(spans[k]@.0, share_boundary(s, e, ws, k)) && rat_eq(spans[k]@.1, share_boundary(s, e, ws, k + 1))
            && share_boundary(s, e, ws, k).1 > 0 && share_boundary(s, e, ws, k + 1).1 > 0
            && (k == 0 ==> spans[0]@.0 == s) && (k > 0 ==> spans[k - 1]@.1 == spans[k]@.0)) by {
            reveal(RhythmTree::shares_of);
        }
        reveal(RhythmTree::collected_upto);
        Self::lemma_leaves_positive(cs[k]);
        assert(after.take(base) =~= held) by {
            assert(after.take(base) =~= after.take(before.len() as int).take(base));
        }
        let seg_old = before.skip(base);
        let seg_new = after.skip(before.len() as int);
        assert(after.skip(base) =~= seg_old + seg_new) by {
            assert(after.take(before.len() as int) == before);
        }
        if k == 0 {
            assert(seg_old.len() == 0);
            assert(after.skip(base) =~= seg_new);
        } else {
            lemma_chain_concat(seg_old, seg_new, s, spans[k - 1]@.1, spans[k]@.1);
        }
        Self::lemma_flattens_congruent(
            cs[k],
            spans[k]@.0,
            spans[k]@.1,
            share_boundary(s, e, ws, k),
            share_boundary(s, e, ws, k + 1),
            path.push(k as usize),
            seg_new,
        );
        assert(Self::leaves_of(cs, k + 1) == Self::leaves_of(cs, k) + cs[k].leaves());
        assert(after.skip(base).subrange(Self::leaves_of(cs, k) as int, Self::leaves_of(cs, k + 1) as int)
            =~= seg_new);
        assert forall|i: int| 0 <= i < k + 1 implies (#[trigger] cs[i]).flattens(
            share_boundary(s, e, ws, i),
            share_boundary(s, e, ws, i + 1),
            path.push(i as usize),
            after.skip(base).subrange(Self::leaves_of(cs, i) as int, Self::leaves_of(cs, i + 1) as int),
        ) by {
            if i < k {
                Self::lemma_leaves_of_monotone(cs, i, i + 1);
                Self::lemma_leaves_of_monotone(cs, i + 1, k);
                assert(after.skip(base).subrange(Self::leaves_of(cs, i) as int, Self::leaves_of(cs, i + 1) as int)
                    =~= seg_old.subrange(Self::leaves_of(cs, i) as int, Self::leaves_of(cs, i + 1) as int));
            }
        }
    }

    /// A child that cannot be flattened over its stored share makes the
    /// whole tree fail.
    proof fn lemma_child_fails(t: RhythmTree, s: (int, int), e: (int, int), spans: Seq<BeatSpan>, k: int)
        requires
            0 <= k < t.children@.len(),
            spans.len() == t.children@.len(),
            spans_are_cuts(spans, s, e, weights_of(t.children@)),
            !divides_within(t.children@[k], spans[k]@.0, spans[k]@.1),
        ensures
            !divides_within(t, s, e),
    {
        reveal(spans_are_cuts);
        reveal(divides_within);
        let ws = weights_of(t.children@);
        assert(spans[k]@ == (division_cut(s, e, ws, k), division_cut(s, e, ws, k + 1)));
    }

    /// Once every child is collected, the tree is flattened.
    proof fn lemma_collect_done(
        t: RhythmTree,
        s: (int, int),
        e: (int, int),
        spans: Seq<BeatSpan>,
        base: int,
        path: Seq<usize>,
        held: Seq<FlatLeaf>,
        out: Seq<FlatLeaf>,
    )
        requires
            t.children@.len() > 0,
            spans.len() == t.children@.len(),
            Self::shares_of(spans, s, e, t.children@),
            Self::collected_upto(t.children@, s, e, spans, base, path, held, t.children@.len() as int, out),
        ensures
            out.len() == held.len() + t.leaves(),
            out.take(held.len() as int) == held,
            chained_leaves(out.skip(held.len() as int), s, e),
            t.flattens(s, e, path, out.skip(held.len() as int)),
    {
        reveal(RhythmTree::collected_upto);
        reveal(RhythmTree::shares_of);
        reveal(RhythmTree::flattens);
        assert(spans.last() == spans[spans.len() - 1]);
    }

    #[verifier::opaque]
    pub closed spec fn flattens(
        self,
        start: (int, int),
        end: (int, int),
        path: Seq<usize>,
        leaves: Seq<FlatLeaf>,
    ) -> bool
        decreases self,
    {
        if self.children@.len() == 0 {
            &&& leaves.len() == 1
            &&& rat_eq(leaves[0].span@.0, start)
            &&& rat_eq(leaves[0].span@.1, end)
            &&& leaves[0].path@ == path
        } else {
            let ws = weights_of(self.children@);
            &&& leaves.len() == Self::leaves_of(self.children@, self.children@.len() as int)
            &&& forall|i: int|
                0 <= i < self.children@.len() ==> self.children@[i].flattens(
                    #[trigger] share_boundary(start, end, ws, i),
                    share_boundary(start, end, ws, i + 1),
                    path.push(i as usize),
                    leaves.subrange(Self::leaves_of(self.children@, i) as int, Self::leaves_of(self.children@, i + 1) as int),
                )
        }
    }

    /// The leaves below the first `i` trees never outnumber those below the
    /// first `j`, for `i <= j`.
    pub proof fn lemma_leaves_of_monotone(s: Seq<RhythmTree>, i: int, j: int)
        requires
            0 <= i <= j <= s.len(),
        ensures
            Self::leaves_of(s, i) <= Self::leaves_of(s, j),
        decreases j - i,
    {
        if i < j {
            Self::lemma_leaves_of_monotone(s, i, j - 1);
        }
    }

    /// A flattening does not depend on how the span's endpoints are written.
    #[verifier::spinoff_prover]
    pub proof fn lemma_flattens_congruent(
        t: RhythmTree,
        s1: (int, int),
        e1: (int, int),
        s2: (int, int),
        e2: (int, int),
        path: Seq<usize>,
        leaves: Seq<FlatLeaf>,
    )
        requires
            s1.1 > 0,
            e1.1 > 0,
            s2.1 > 0,
            e2.1 > 0,
            rat_eq(s1, s2),
            rat_eq(e1, e2),
            t.flattens(s1, e1, path, leaves),
        ensures
            t.flattens(s2, e2, path, leaves),
        decreases t,
    {
        reveal(RhythmTree::flattens);
        if t.children@.len() == 0 {
            crate::algebra::lemma_rat_eq_trans(leaves[0].span@.0, s1, s2);
            crate::algebra::lemma_rat_eq_trans(leaves[0].span@.1, e1, e2);
        } else {
            let cs = t.children@;
            let ws = weights_of(cs);
            assert forall|i: int| 0 <= i < cs.len() implies (#[trigger] cs[i]).flattens(
                share_boundary(s2, e2, ws, i),
                share_boundary(s2, e2, ws, i + 1),
                path.push(i as usize),
                leaves.subrange(Self::leaves_of(cs, i) as int, Self::leaves_of(cs, i + 1) as int),
            ) by {
                assert(decreases_to!(t => t.children@[i]));
                let a1 = share_boundary(s1, e1, ws, i);
                let b1 = share_boundary(s1, e1, ws, i + 1);
                let a2 = share_boundary(s2, e2, ws, i);
                let b2 = share_boundary(s2, e2, ws, i + 1);
                let run = leaves.subrange(Self::leaves_of(cs, i) as int, Self::leaves_of(cs, i + 1) as int);
                assert(cs[i].flattens(a1, b1, path.push(i as usize), run));
                lemma_share_facts(s1, e1, s2, e2, cs, i);
                lemma_share_facts(s1, e1, s2, e2, cs, i + 1);
                Self::lemma_flattens_congruent(cs[i], a1, b1, a2, b2, path.push(i as usize), run);
            }
        }
    }

    /// Every tree has at least one leaf.
    pub proof fn lemma_leaves_positive(t: RhythmTree)
        ensures
            t.leaves() >= 1,
        decreases t,
    {
        if t.children@.len() > 0 {
            let n = t.children@.len() as int;
            assert(decreases_to!(t => t.children@[n - 1]));
            Self::lemma_leaves_positive(t.children@[n - 1]);
        }
    }

    /// The spans of the children of a node with children, as flattening
    /// uses them.
    fn shares(&self, span: &BeatSpan) -> (r: Result<Vec<BeatSpan>, TimeError>)
        requires
            self.children_view().len() > 0,
        ensures
            r matches Err(e) ==> e == TimeError::Overflow || e == TimeError::ReversedBeatSpan,
            r matches Ok(v) ==> v@.len() == self.children_view().len() && chained(v@, span@.0, span@.1)
                && forall|i: int|
                0 <= i < v@.len() - 1 ==> rat_eq(
                    (#[trigger] v@[i])@.1,
                    boundary(span@.0, span@.1, weights_of(self.children_view()), i + 1),
                ),
            r matches Ok(v) ==> spans_are_cuts(v@, span@.0, span@.1, weights_of(self.children_view())),
            r is Err ==> !divides_within(*self, span@.0, span@.1),
    {
        proof {
            reveal(divides_within);
            reveal(spans_are_cuts);
        }
        self.child_spans(span)
    }

    /// The spans of the children, which partition `span` exactly: each child
    /// receives a share proportional to its weight, consecutive spans share
    /// their boundary, and the last ends exactly at the parent's end.
    pub fn child_spans(&self, span: &BeatSpan) -> (r: Result<Vec<BeatSpan>, TimeError>)
        ensures
            self.children_view().len() == 0 ==> (r matches Ok(v) && v@.len() == 0),
            r matches Err(e) ==> e == TimeError::Overflow || e == TimeError::ReversedBeatSpan,
            r is Err ==> !division_computable(span@.0, span@.1, weights_of(self.children_view())),
            r matches Ok(v) ==> forall|i: int|
                0 <= i < v@.len() ==> (#[trigger] v@[i])@ == (
                    division_cut(span@.0, span@.1, weights_of(self.children_view()), i),
                    division_cut(span@.0, span@.1, weights_of(self.children_view()), i + 1),
                ),
            self.children_view().len() > 0 ==> (r matches Ok(v) ==> v@.len()
                == self.children_view().len() && chained(v@, span@.0, span@.1) && forall|i: int|
                0 <= i < v@.len() - 1 ==> rat_eq(
                (#[trigger] v@[i])@.1,
                boundary(span@.0, span@.1, weights_of(self.children_view()), i + 1),
            )),
    {
        let n = self.children.len();
        if n == 0 {
            return Ok(Vec::new());
        }
        let ghost ws = weights_of(self.children@);
        let total = match self.child_weight_total() {
            Some(t) => t,
            None => {
                return Err(TimeError::Overflow);
            },
        };
        let length = match span.duration() {
            Some(l) => l,
            None => {
                return Err(TimeError::Overflow);
            },
        };
        proof {
            lemma_weights_positive(self.children@);
            lemma_sum_pairs_positive_value(ws);
            assert(total@.0 > 0) by (nonlinear_arith)
                requires
                    total@.0 * sum_pairs(ws).1 == sum_pairs(ws).0 * total@.1,
                    sum_pairs(ws).0 > 0,
                    sum_pairs(ws).1 > 0,
                    total@.1 > 0,
            ;
            crate::algebra::lemma_reduce_eq(rat_sub(span@.1, span@.0));
            lemma_rat_eq_refl_symm(span@.0, span@.0);
        }
        let origin = span.start();
        let mut spans: Vec<BeatSpan> = Vec::new();
        let mut cumulative = Q::zero();
        let mut start = span.start();
        let mut index: usize = 0;
        while index < n
            invariant
                n == self.children@.len(),
                n > 0,
                ws == weights_of(self.children@),
                index <= n,
                spans@.len() == index,
                origin@ == span@.0,
                total@.0 > 0,
                rat_eq(total@, sum_pairs(ws)),
                rat_eq(length@, rat_sub(span@.1, span@.0)),
                rat_eq(cumulative@, sum_pairs(ws.take(index as int))),
                cumulative@.1 > 0,
                index == 0 ==> start@ == span@.0,
                index > 0 ==> spans@[0]@.0 == span@.0 && spans@.last()@.1 == start@,
                forall|i: int| 0 <= i < index - 1 ==> (#[trigger] spans@[i])@.1 == spans@[i + 1]@.0,
                forall|i: int|
                    0 <= i < index && i < n - 1 ==> rat_eq(
                        (#[trigger] spans@[i])@.1,
                        boundary(span@.0, span@.1, ws, i + 1),
                    ),
                index == n ==> spans@.last()@.1 == span@.1,
                rat_eq(start@, division_point(span@.0, span@.1, ws, index as int)),
                start@ == division_cut(span@.0, span@.1, ws, index as int),
                forall|j: int|
                    0 <= j < index ==> (#[trigger] spans@[j])@ == (
                        division_cut(span@.0, span@.1, ws, j),
                        division_cut(span@.0, span@.1, ws, j + 1),
                    ),
                start@.1 > 0,
                division_point(span@.0, span@.1, ws, index as int).1 > 0,
            decreases n - index,
        {
            let w = self.children[index].weight();
            let next_cumulative = match cumulative.checked_add(&w) {
                Some(c) => c,
                None => {
                    proof {
                        lemma_weights_positive(self.children@);
                        lemma_prefix_step(cumulative@, ws, index as int);
                        assert(!fits(reduce(sum_pairs(ws.take(index + 1)))));
                    }
                    return Err(TimeError::Overflow);
                },
            };
            proof {
                lemma_weights_positive(self.children@);
                lemma_sum_take_step(ws, index as int);
                lemma_sum_pairs_take_positive(ws, index as int);
                lemma_rat_eq_refl_symm(w@, w@);
                lemma_step_add(next_cumulative@, cumulative@, w@, sum_pairs(ws.take(index as int)), ws[index as int]);
            }
            cumulative = next_cumulative;
            let end = if index + 1 == n {
                span.end()
            } else {
                let ghost cum = sum_pairs(ws.take(index + 1));
                let ghost part = rat_div(cum, sum_pairs(ws));
                let ghost exact = rat_mul(rat_sub(span@.1, span@.0), part);
                proof {
                    lemma_weights_positive(self.children@);
                    lemma_sum_pairs_take_positive(ws, index + 1);
                    lemma_sum_pairs_positive_value(ws);
                    lemma_rat_div_congruent(cumulative@, total@, cum, sum_pairs(ws));
                    lemma_den_product(cumulative@.1, total@.0);
                    lemma_den_product(cum.1, sum_pairs(ws).0);
                    lemma_reduce_unique(rat_div(cumulative@, total@), part);
                }
                let frac = match cumulative.checked_div(&total) {
                    Some(f) => f,
                    None => {
                        proof {
                            assert(!division_fits(span@.0, span@.1, ws, index + 1));
                        }
                        return Err(TimeError::Overflow);
                    },
                };
                proof {
                    lemma_step_div(frac@, cumulative@, total@, cum, sum_pairs(ws));
                    lemma_den_product(span@.1.1, span@.0.1);
                    lemma_rat_mul_congruent(length@, frac@, rat_sub(span@.1, span@.0), part);
                    lemma_den_product(length@.1, frac@.1);
                    lemma_den_product(rat_sub(span@.1, span@.0).1, part.1);
                    lemma_reduce_unique(rat_mul(length@, frac@), exact);
                }
                let offset = match length.0.checked_mul(&frac) {
                    Some(o) => o,
                    None => {
                        proof {
                            assert(!division_fits(span@.0, span@.1, ws, index + 1));
                        }
                        return Err(TimeError::Overflow);
                    },
                };
                proof {
                    lemma_step_mul(offset@, length@, frac@, rat_sub(span@.1, span@.0), part);
                    lemma_rat_eq_refl_symm(span@.0, span@.0);
                    lemma_rat_add_congruent(origin@, offset@, span@.0, exact);
                    lemma_den_product(origin@.1, offset@.1);
                    lemma_den_product(span@.0.1, exact.1);
                    lemma_reduce_unique(rat_add(origin@, offset@), rat_add(span@.0, exact));
                }
                let position = match origin.0.checked_add(&offset) {
                    Some(p) => p,
                    None => {
                        proof {
                            assert(!division_fits(span@.0, span@.1, ws, index + 1));
                        }
                        return Err(TimeError::Overflow);
                    },
                };
                proof {
                    let cum = sum_pairs(ws.take(index + 1));
                    lemma_sum_pairs_take_positive(ws, index + 1);
                    lemma_sum_pairs_positive_value(ws);
                    lemma_step_div(frac@, cumulative@, total@, cum, sum_pairs(ws));
                    lemma_rat_div_positive(cum, sum_pairs(ws));
                    lemma_den_product(span@.1.1, span@.0.1);
                    lemma_step_mul(offset@, length@, frac@, rat_sub(span@.1, span@.0), rat_div(cum, sum_pairs(ws)));
                    lemma_den_product(rat_sub(span@.1, span@.0).1, rat_div(cum, sum_pairs(ws)).1);
                    lemma_step_add(position@, origin@, offset@, span@.0, rat_mul(rat_sub(span@.1, span@.0), rat_div(cum, sum_pairs(ws))));
                    lemma_den_product(cum.1, sum_pairs(ws).0);
                    lemma_den_product(rat_sub(span@.1, span@.0).1, part.1);
                    lemma_den_product(span@.0.1, exact.1);
                    assert(division_point(span@.0, span@.1, ws, index + 1) == rat_add(span@.0, exact));
                }
                BeatTime(position)
            };
            proof {
                assert(rat_eq(end@, division_point(span@.0, span@.1, ws, index + 1)));
                assert(division_point(span@.0, span@.1, ws, index + 1).1 > 0);
                assert(end@ == division_cut(span@.0, span@.1, ws, index + 1));
            }
            let piece = match BeatSpan::new(start, end) {
                Ok(p) => p,
                Err(e) => {
                    proof {
                        let a = division_point(span@.0, span@.1, ws, index as int);
                        let b = division_point(span@.0, span@.1, ws, index + 1);
                        if rat_le(a, b) {
                            lemma_rat_le_congruent(a, b, start@, end@);
                        }
                        assert(!rat_le(a, b));
                    }
                    return Err(e);
                },
            };
            spans.push(piece);
            start = end;
            index += 1;
        }
        Ok(spans)
    }

    /// Flattens the tree over `span` into its leaves, in order.
    ///
    /// Each leaf carries its span and the path of child indices from the
    /// root. The leaves partition `span` exactly: the first starts at its
    /// start, each begins where the previous ended, and the last ends at its
    /// end; and every node's children divide the node's span in proportion
    /// to their weights.
    pub fn flatten(&self, span: &BeatSpan) -> (r: Result<Vec<FlatLeaf>, TimeError>)
        ensures
            r matches Ok(v) ==> v@.len() == self.leaves() && chained_leaves(v@, span@.0, span@.1)
                && self.flattens(span@.0, span@.1, Seq::empty(), v@),
            r matches Err(e) ==> e == TimeError::Overflow || e == TimeError::ReversedBeatSpan,
            r is Err ==> !divides_within(*self, span@.0, span@.1),
    {
        let mut leaves: Vec<FlatLeaf> = Vec::new();
        let mut path: Vec<usize> = Vec::new();
        proof {
            assert(path@ =~= Seq::<usize>::empty());
        }
        self.collect(span, &mut path, &mut leaves)?;
        proof {
            assert(leaves@.skip(0) =~= leaves@);
        }
        Ok(leaves)
    }

    fn collect(&self, span: &BeatSpan, path: &mut Vec<usize>, out: &mut Vec<FlatLeaf>) -> (r: Result<
        (),
        TimeError,
    >)
        ensures
            r is Ok ==> final(out)@.len() == old(out)@.len() + self.leaves() && final(out)@.take(
                old(out)@.len() as int,
            ) == old(out)@ && chained_leaves(
                final(out)@.skip(old(out)@.len() as int),
                span@.0,
                span@.1,
            ) && final(path)@ == old(path)@ && self.flattens(
                span@.0,
                span@.1,
                old(path)@,
                final(out)@.skip(old(out)@.len() as int),
            ),
            r matches Err(e) ==> e == TimeError::Overflow || e == TimeError::ReversedBeatSpan,
            r is Err ==> !divides_within(*self, span@.0, span@.1),
        decreases self,
    {
        if self.children.len() == 0 {
            let leaf = FlatLeaf { span: *span, path: path.clone() };
            out.push(leaf);
            proof {
                assert(out@.skip(old(out)@.len() as int) =~= seq![leaf]);
                assert(out@.take(old(out)@.len() as int) =~= old(out)@);
                reveal(RhythmTree::flattens);
                lemma_rat_eq_refl_symm(span@.0, span@.0);
                lemma_rat_eq_refl_symm(span@.1, span@.1);
            }
            return Ok(());
        }
        let spans = self.shares(span)?;
        let n = self.children.len();
        let ghost base = old(out)@.len() as int;
        let ghost cs = self.children@;
        proof {
            lemma_child_span_shares(spans@, span@.0, span@.1, cs);
            reveal(RhythmTree::shares_of);
            lemma_span_view(*span);
        }
        let mut index: usize = 0;
        proof {
            reveal(RhythmTree::collected_upto);
            reveal(RhythmTree::shares_of);
            assert(out@.skip(base) =~= Seq::<FlatLeaf>::empty());
            assert(out@.take(base) =~= old(out)@);
        }
        while index < n
            invariant
                n == self.children@.len(),
                n > 0,
                cs == self.children@,
                spans@.len() == n,
                Self::shares_of(spans@, span@.0, span@.1, cs),
                index <= n,
                base == old(out)@.len(),
                path@ == old(path)@,
                Self::collected_upto(cs, span@.0, span@.1, spans@, base, old(path)@, old(out)@, index as int, out@),
                spans_are_cuts(spans@, span@.0, span@.1, weights_of(cs)),
            decreases n - index,
        {
            proof {
                assert(decreases_to!(self => self.children@[index as int]));
            }
            let ghost before = out@;
            path.push(index);
            let child_span = spans[index];
            match self.children[index].collect(&child_span, path, out) {
                Ok(()) => {},
                Err(e) => {
                    proof {
                        Self::lemma_child_fails(*self, span@.0, span@.1, spans@, index as int);
                    }
                    return Err(e);
                },
            }
            path.pop();
            proof {
                lemma_span_view(child_span);
                Self::lemma_collect_step(
                    cs,
                    span@.0,
                    span@.1,
                    spans@,
                    base,
                    old(path)@,
                    old(out)@,
                    index as int,
                    before,
                    out@,
                );
            }
            index += 1;
        }
        proof {
            Self::lemma_collect_done(*self, span@.0, span@.1, spans@, base, old(path)@, old(out)@, out@);
        }
        Ok(())
    }
}

/// A leaf of a flattened rhythm tree: its span and its path from the root.
#[derive(Debug, Clone, PartialEq, Eq)]
pub struct FlatLeaf {
    pub span: BeatSpan,
    pub path: Vec<usize>,
}

/// Consecutive leaves that share their boundaries exactly and run from
/// `start` to `end`.
pub open spec fn chained_leaves(leaves: Seq<FlatLeaf>, start: (int, int), end: (int, int)) -> bool {
    &&& leaves.len() > 0
    &&& leaves[0].span@.0 == start
    &&& leaves.last().span@.1 == end
    &&& forall|i: int|
        0 <= i < leaves.len() - 1 ==> (#[trigger] leaves[i]).span@.1 == leaves[i + 1].span@.0
}

/// Two chains that meet form one chain.
pub proof fn lemma_chain_concat(a: Seq<FlatLeaf>, b: Seq<FlatLeaf>, s: (int, int), m: (int, int), e: (
    int,
    int,
))
    requires
        chained_leaves(a, s, m),
        chained_leaves(b, m, e),
    ensures
        chained_leaves(a + b, s, e),
{
    let c = a + b;
    assert forall|i: int| 0 <= i < c.len() - 1 implies (#[trigger] c[i]).span@.1 == c[i + 1].span@.0 by {
        if i < a.len() - 1 {
            assert(c[i] == a[i] && c[i + 1] == a[i + 1]);
        } else if i == a.len() - 1 {
            assert(c[i] == a.last() && c[i + 1] == b[0]);
        } else {
            assert(c[i] == b[i - a.len()] && c[i + 1] == b[i - a.len() + 1]);
        }
    }
}

impl FlatLeaf {
    /// The leaf's span.
    pub fn span(&self) -> (r: &BeatSpan)
        ensures
            r == &self.span,
    {
        &self.span
    }

    /// The path of child indices from the root.
    pub fn path(&self) -> (r: &[usize])
        ensures
            r@ == self.path@,
    {
        self.path.as_slice()
    }

    /// The depth of the leaf: the length of its path.
    pub fn depth(&self) -> (r: usize)
        ensures
            r == self.path@.len(),
    {
        self.path.len()
    }
}

/// The exact total duration of a sequence of flattened leaves.
pub fn flattened_total(leaves: &[FlatLeaf]) -> (r: Option<Beats>)
    ensures
        r is Some <==> (forall|j: int|
            0 <= j < leaves@.len() ==> fits(
                reduce(rat_sub((#[trigger] leaves@[j]).span@.1, leaves@[j].span@.0)),
            )) && prefix_sums_fit(leaves@.map_values(|l: FlatLeaf| rat_sub(l.span@.1, l.span@.0))),
        r matches Some(b) ==> rat_eq(
            b@,
            sum_pairs(leaves@.map_values(|l: FlatLeaf| rat_sub(l.span@.1, l.span@.0))),
        ),
{
    let mut total = Beats::zero();
    let mut i: usize = 0;
    let ghost ds = leaves@.map_values(|l: FlatLeaf| rat_sub(l.span@.1, l.span@.0));
    while i < leaves.len()
        invariant
            i <= leaves@.len(),
            ds == leaves@.map_values(|l: FlatLeaf| rat_sub(l.span@.1, l.span@.0)),
            rat_eq(total@, sum_pairs(ds.take(i as int))),
            total@.1 > 0,
            forall|j: int| 0 <= j < i ==> fits(reduce(rat_sub((#[trigger] leaves@[j]).span@.1, leaves@[j].span@.0))),
            forall|k: int| 1 <= k <= i ==> fits(#[trigger] reduce(sum_pairs(ds.take(k)))),
        decreases leaves@.len() - i,
    {
        proof {
            assert forall|j: int| 0 <= j < ds.len() implies #[trigger] ds[j].1 > 0 by {
                lemma_den_product(leaves@[j].span@.1.1, leaves@[j].span@.0.1);
            }
            assert(ds[i as int] == rat_sub(leaves@[i as int].span@.1, leaves@[i as int].span@.0));
        }
        let d = match leaves[i].span.duration() {
            Some(d) => d,
            None => {
                return None;
            },
        };
        proof {
            lemma_prefix_step(total@, ds, i as int);
            crate::algebra::lemma_reduce_eq(ds[i as int]);
            lemma_rat_eq_refl_symm(total@, total@);
            crate::algebra::lemma_rat_add_congruent(total@, d@, total@, ds[i as int]);
            lemma_den_product(total@.1, d@.1);
            crate::algebra::lemma_reduce_unique(rat_add(total@, d@), rat_add(total@, ds[i as int]));
        }
        let next = match total.checked_add(&d) {
            Some(t) => t,
            None => {
                proof {
                    assert(!fits(reduce(sum_pairs(ds.take(i + 1)))));
                }
                return None;
            },
        };
        proof {
            assert forall|j: int| 0 <= j < ds.len() implies #[trigger] ds[j].1 > 0 by {
                lemma_den_product(leaves@[j].span@.1.1, leaves@[j].span@.0.1);
            }
            lemma_sum_take_step(ds, i as int);
            lemma_sum_pairs_take_positive(ds, i as int);
            crate::algebra::lemma_reduce_eq(ds[i as int]);
            lemma_step_add(next@, total@, d@, sum_pairs(ds.take(i as int)), ds[i as int]);
        }
        total = next;
        i += 1;
    }
    proof {
        assert(ds.take(leaves@.len() as int) =~= ds);
    }
    Some(total)
}

/// A non-empty sum of strictly positive pairs is strictly positive.
pub proof fn lemma_sum_pairs_positive_value(s: Seq<(int, int)>)
    requires
        forall|j: int| 0 <= j < s.len() ==> #[trigger] s[j].1 > 0,
        forall|j: int| 0 <= j < s.len() ==> #[trigger] s[j].0 > 0,
    ensures
        sum_pairs(s).0 >= 0,
        s.len() > 0 ==> sum_pairs(s).0 > 0,
        sum_pairs(s).1 > 0,
    decreases s.len(),
{
    if s.len() > 0 {
        let t = s.drop_last();
        lemma_sum_pairs_positive_value(t);
        let a = sum_pairs(t);
        let b = s.last();
        assert(a.0 * b.1 + b.0 * a.1 > 0 && a.1 * b.1 > 0) by (nonlinear_arith)
            requires
                a.0 >= 0,
                a.1 > 0,
                b.0 > 0,
                b.1 > 0,
        ;
    }
}

/// The weights of trees are positive.
pub proof fn lemma_weights_positive(s: Seq<RhythmTree>)
    ensures
        forall|i: int| 0 <= i < s.len() ==> #[trigger] weights_of(s)[i].1 > 0,
        forall|i: int| 0 <= i < s.len() ==> #[trigger] weights_of(s)[i].0 > 0,
        weights_of(s).len() == s.len(),
{
    assert forall|i: int| 0 <= i < s.len() implies #[trigger] weights_of(s)[i].1 > 0 by {
        RhythmTree::lemma_weight_positive(s[i]);
    }
    assert forall|i: int| 0 <= i < s.len() implies #[trigger] weights_of(s)[i].0 > 0 by {
        RhythmTree::lemma_weight_positive(s[i]);
    }
}

/// A prefix sum grows by one element.
pub proof fn lemma_sum_take_step(s: Seq<(int, int)>, i: int)
    requires
        0 <= i < s.len(),
    ensures
        sum_pairs(s.take(i + 1)) == rat_add(sum_pairs(s.take(i)), s[i]),
{
    assert(s.take(i + 1).drop_last() =~= s.take(i));
}

/// Prefix sums of positive-denominator pairs have positive denominators.
pub proof fn lemma_sum_pairs_take_positive(s: Seq<(int, int)>, i: int)
    requires
        0 <= i <= s.len(),
        forall|j: int| 0 <= j < s.len() ==> #[trigger] s[j].1 > 0,
    ensures
        sum_pairs(s.take(i)).1 > 0,
    decreases i,
{
    if i > 0 {
        lemma_sum_pairs_take_positive(s, i - 1);
        lemma_sum_take_step(s, i - 1);
        lemma_den_product(sum_pairs(s.take(i - 1)).1, s[i - 1].1);
    }
}


/// A rhythm tree in wire form, revalidated on the way in.
#[derive(Debug)]
pub struct RawRhythmTree {
    /// Weight relative to this node's siblings.
    pub weight: Q,
    /// Ordered children; empty for a leaf.
    pub children: Vec<RawRhythmTree>,
}

/// Every weight in a wire-form tree is strictly positive.
pub open spec fn raw_tree_valid(v: RawRhythmTree) -> bool
    decreases v,
{
    &&& v.weight@.0 > 0
    &&& forall|i: int| 0 <= i < v.children@.len() ==> raw_tree_valid(#[trigger] v.children@[i])
}

/// `v` is the wire form of `t`: the same weight at every node and the same
/// children in the same order.
pub open spec fn tree_wire_form(v: RawRhythmTree, t: RhythmTree) -> bool
    decreases v,
{
    &&& v.weight@ == t.weight_view()
    &&& v.children@.len() == t.children_view().len()
    &&& forall|i: int|
        0 <= i < v.children@.len() ==> tree_wire_form(#[trigger] v.children@[i], t.children_view()[i])
}

/// Two trees with the same weight at every node and the same shape.
pub open spec fn same_tree(a: RhythmTree, b: RhythmTree) -> bool
    decreases a,
{
    &&& a.weight_view() == b.weight_view()
    &&& a.children_view().len() == b.children_view().len()
    &&& forall|i: int|
        0 <= i < a.children_view().len() ==> same_tree(#[trigger] a.children_view()[i], b.children_view()[i])
}

/// Rebuilds a tree from its wire form, children first, left to right.
fn revalidate(raw: &RawRhythmTree) -> (r: Result<RhythmTree, TimeError>)
    ensures
        r is Ok <==> raw_tree_valid(*raw),
        r is Err ==> r == Err::<RhythmTree, TimeError>(TimeError::NonPositiveWeight),
        r matches Ok(t) ==> tree_wire_form(*raw, t),
    decreases raw,
{
    let mut children: Vec<RhythmTree> = Vec::new();
    let mut i: usize = 0;
    while i < raw.children.len()
        invariant
            i <= raw.children@.len(),
            children@.len() == i,
            forall|j: int| 0 <= j < i ==> raw_tree_valid(#[trigger] raw.children@[j]),
            forall|j: int| 0 <= j < i ==> tree_wire_form(#[trigger] raw.children@[j], children@[j]),
        decreases raw.children@.len() - i,
    {
        proof {
            assert(decreases_to!(raw.children => raw.children@[i as int]));
        }
        let child = match revalidate(&raw.children[i]) {
            Ok(c) => c,
            Err(e) => {
                proof {
                    assert(!raw_tree_valid(raw.children@[i as int]));
                }
                return Err(e);
            },
        };
        children.push(child);
        i += 1;
    }
    proof {
        assert(children@.len() == raw.children@.len());
    }
    if children.len() == 0 {
        RhythmTree::weighted_leaf(raw.weight)
    } else {
        RhythmTree::weighted_division(raw.weight, children)
    }
}

/// Writes a tree in wire form.
fn wire_of(t: &RhythmTree) -> (r: RawRhythmTree)
    ensures
        tree_wire_form(r, *t),
    decreases t,
{
    proof {
        use_type_invariant(t);
    }
    let mut children: Vec<RawRhythmTree> = Vec::new();
    let mut i: usize = 0;
    while i < t.children.len()
        invariant
            i <= t.children@.len(),
            children@.len() == i,
            forall|j: int| 0 <= j < i ==> tree_wire_form(#[trigger] children@[j], t.children@[j]),
        decreases t.children@.len() - i,
    {
        proof {
            assert(decreases_to!(t.children => t.children@[i as int]));
        }
        let child = wire_of(&t.children[i]);
        children.push(child);
        i += 1;
    }
    RawRhythmTree { weight: t.weight, children }
}

impl TryFrom<RawRhythmTree> for RhythmTree {
    type Error = TimeError;

    fn try_from(value: RawRhythmTree) -> (r: Result<RhythmTree, TimeError>)
        ensures
            r is Ok <==> raw_tree_valid(value),
            r is Err ==> r == Err::<RhythmTree, TimeError>(TimeError::NonPositiveWeight),
            r matches Ok(t) ==> tree_wire_form(value, t),
    {
        revalidate(&value)
    }
}

/// Revalidation builds fresh child vectors, so its result is not claimed as
/// a value of the model here; `try_from` states what it returns.
impl vstd::std_specs::convert::TryFromSpecImpl<RawRhythmTree> for RhythmTree {
    open spec fn obeys_try_from_spec() -> bool {
        false
    }

    open spec fn try_from_spec(v: RawRhythmTree) -> Result<RhythmTree, TimeError> {
        vstd::pervasive::arbitrary()
    }
}

impl From<RhythmTree> for RawRhythmTree {
    fn from(value: RhythmTree) -> (r: RawRhythmTree)
        ensures
            tree_wire_form(r, value),
    {
        wire_of(&value)
    }
}

/// Writing builds fresh child vectors, so its result is not claimed as a
/// value of the model here; `from` states what it returns.
impl vstd::std_specs::convert::FromSpecImpl<RhythmTree> for RawRhythmTree {
    open spec fn obeys_from_spec() -> bool {
        false
    }

    open spec fn from_spec(v: RhythmTree) -> RawRhythmTree {
        vstd::pervasive::arbitrary()
    }
}

/// A tree written to its wire form and read back is the same tree: the wire
/// form of any tree passes revalidation, and whatever revalidation builds
/// from it has the same weights and shape.
pub proof fn law_tree_wire_form_round_trips(raw: RawRhythmTree, t: RhythmTree, back: RhythmTree)
    requires
        tree_wire_form(raw, t),
        tree_wire_form(raw, back),
    ensures
        raw_tree_valid(raw),
        same_tree(t, back),
    decreases raw,
{
    let n = raw.children@.len();
    assert forall|i: int| 0 <= i < n implies raw_tree_valid(#[trigger] raw.children@[i]) && same_tree(
        t.children_view()[i],
        back.children_view()[i],
    ) by {
        assert(tree_wire_form(raw.children@[i], t.children_view()[i]));
        assert(tree_wire_form(raw.children@[i], back.children_view()[i]));
        assert(decreases_to!(raw.children => raw.children@[i]));
        law_tree_wire_form_round_trips(raw.children@[i], t.children_view()[i], back.children_view()[i]);
    }
    assert forall|i: int| 0 <= i < t.children_view().len() implies same_tree(
        #[trigger] t.children_view()[i],
        back.children_view()[i],
    ) by {
        assert(raw_tree_valid(raw.children@[i]));
    }
}

} // verus!

verus! {

/// A strictly increasing sequence.
pub open spec fn strictly_increasing(s: Seq<u32>) -> bool {
    forall|i: int, j: int| 0 <= i < j < s.len() ==> s[i] < s[j]
}

/// A cyclic onset pattern: a number of pulses per cycle, the sorted distinct
/// pulses that carry an onset, and the pulse that the pattern's reference
/// rotation points at.
#[derive(Debug, PartialEq, Eq)]
pub struct CyclicRhythm {
    pulses: u32,
    onsets: Vec<u32>,
    rotation: u32,
}

/// Inserts `x` into a strictly increasing vector, keeping it so.
pub(crate) fn insert_sorted(v: &mut Vec<u32>, x: u32)
    requires
        strictly_increasing(old(v)@),
    ensures
        strictly_increasing(final(v)@),
        forall|y: u32| final(v)@.contains(y) <==> (old(v)@.contains(y) || y == x),
{
    let mut i: usize = 0;
    while i < v.len() && v[i] < x
        invariant
            i <= v@.len(),
            v@ == old(v)@,
            strictly_increasing(v@),
            forall|j: int| 0 <= j < i ==> v@[j] < x,
        decreases v@.len() - i,
    {
        i += 1;
    }
    if i < v.len() && v[i] == x {
        return;
    }
    v.insert(i, x);
    proof {
        assert forall|y: u32| v@.contains(y) <==> (old(v)@.contains(y) || y == x) by {
            if v@.contains(y) {
                let k = choose|k: int| 0 <= k < v@.len() && v@[k] == y;
                if k < i {
                    assert(old(v)@[k] == y);
                } else if k > i {
                    assert(old(v)@[k - 1] == y);
                }
            }
            if old(v)@.contains(y) {
                let k = choose|k: int| 0 <= k < old(v)@.len() && old(v)@[k] == y;
                if k < i {
                    assert(v@[k] == y);
                } else {
                    assert(v@[k + 1] == y);
                }
            }
            if y == x {
                assert(v@[i as int] == x);
            }
        }
    }
}

/// The offset of an onset into `[start, end]` and its time both fit the
/// storage of `Q`.
pub open spec fn onset_fits(start: (int, int), end: (int, int), onset: int, pulses: int) -> bool {
    let offset = rat_mul(rat_sub(end, start), (onset, pulses));
    fits(reduce(offset)) && fits(reduce(rat_add(start, offset)))
}

/// Placing every onset over `[start, end]` stays within the storage of `Q`:
/// the length and each onset's offset and time.
pub open spec fn onsets_computable(start: (int, int), end: (int, int), onsets: Seq<u32>, pulses: int) -> bool {
    &&& fits(reduce(rat_sub(end, start)))
    &&& forall|j: int| 0 <= j < onsets.len() ==> #[trigger] onset_fits(start, end, onsets[j] as int, pulses)
}

/// `index` is the first onset of the list outside a cycle of `pulses`
/// pulses.
pub open spec fn first_outside(onsets: Seq<u32>, pulses: u32, index: u32) -> bool {
    exists|i: int|
        0 <= i < onsets.len() && #[trigger] onsets[i] == index && index >= pulses && forall|j: int|
            0 <= j < i ==> onsets[j] < pulses
}

impl CyclicRhythm {
    /// A rhythm is valid when its cycle is non-empty, its rotation lies in
    /// the cycle and its onsets are sorted, distinct and in the cycle; every
    /// rhythm that exists at run time is.
    #[verifier::type_invariant]
    pub closed spec fn is_valid(self) -> bool {
        &&& self.pulses > 0
        &&& self.rotation < self.pulses
        &&& strictly_increasing(self.onsets@)
        &&& forall|i: int| 0 <= i < self.onsets@.len() ==> self.onsets@[i] < self.pulses
    }

    /// The pulses per cycle.
    pub closed spec fn pulses_view(self) -> u32 {
        self.pulses
    }

    /// The sorted distinct onset pulses.
    pub closed spec fn onsets_view(self) -> Seq<u32> {
        self.onsets@
    }

    /// The reference rotation.
    pub closed spec fn rotation_view(self) -> u32 {
        self.rotation
    }

    /// Builds a cycle of `pulses` pulses with onsets at the given pulses,
    /// sorted and with repeats removed.
    pub fn new(pulses: u32, onsets: &[u32], rotation: u32) -> (r: Result<CyclicRhythm, TimeError>)
        ensures
            pulses == 0 ==> r == Err::<CyclicRhythm, TimeError>(TimeError::EmptyCycle),
            pulses > 0 && (exists|i: int| 0 <= i < onsets@.len() && onsets@[i] >= pulses) ==> (
            r matches Err(TimeError::OnsetOutsideCycle { index, pulses: p }) && p == pulses
                && first_outside(onsets@, pulses, index)),
            pulses > 0 && (forall|i: int| 0 <= i < onsets@.len() ==> onsets@[i] < pulses)
                && rotation >= pulses ==> r == Err::<CyclicRhythm, TimeError>(
                TimeError::OnsetOutsideCycle { index: rotation, pulses },
            ),
            pulses > 0 && (forall|i: int| 0 <= i < onsets@.len() ==> onsets@[i] < pulses)
                && rotation < pulses ==> (r matches Ok(c) && c.pulses_view() == pulses
                && c.rotation_view() == rotation && strictly_increasing(c.onsets_view())
                && forall|x: u32| c.onsets_view().contains(x) <==> onsets@.contains(x)),
    {
        if pulses == 0 {
            return Err(TimeError::EmptyCycle);
        }
        let mut i: usize = 0;
        while i < onsets.len()
            invariant
                pulses > 0,
                i <= onsets@.len(),
                forall|j: int| 0 <= j < i ==> onsets@[j] < pulses,
            decreases onsets@.len() - i,
        {
            if onsets[i] >= pulses {
                proof {
                    assert(onsets@[i as int] == onsets[i as int]);
                }
                return Err(TimeError::OnsetOutsideCycle { index: onsets[i], pulses });
            }
            i += 1;
        }
        if rotation >= pulses {
            return Err(TimeError::OnsetOutsideCycle { index: rotation, pulses });
        }
        let mut sorted: Vec<u32> = Vec::new();
        let mut k: usize = 0;
        while k < onsets.len()
            invariant
                k <= onsets@.len(),
                strictly_increasing(sorted@),
                forall|j: int| 0 <= j < onsets@.len() ==> onsets@[j] < pulses,
                forall|x: u32| sorted@.contains(x) <==> onsets@.take(k as int).contains(x),
            decreases onsets@.len() - k,
        {
            insert_sorted(&mut sorted, onsets[k]);
            proof {
                assert forall|x: u32| sorted@.contains(x) <==> onsets@.take(k + 1).contains(x) by {
                    if onsets@.take(k + 1).contains(x) {
                        let j = choose|j: int| 0 <= j < k + 1 && #[trigger] onsets@.take(k + 1)[j] == x;
                        if j < k {
                            assert(onsets@.take(k as int)[j] == x);
                        }
                    }
                    if onsets@.take(k as int).contains(x) {
                        let j = choose|j: int| 0 <= j < k && #[trigger] onsets@.take(k as int)[j] == x;
                        assert(onsets@.take(k + 1)[j] == x);
                    }
                    if x == onsets@[k as int] {
                        assert(onsets@.take(k + 1)[k as int] == x);
                    }
                }
            }
            k += 1;
        }
        proof {
            assert(onsets@.take(onsets@.len() as int) =~= onsets@);
            assert forall|j: int| 0 <= j < sorted@.len() implies sorted@[j] < pulses by {
                assert(sorted@.contains(sorted@[j]));
                let m = choose|m: int| 0 <= m < onsets@.len() && onsets@[m] == sorted@[j];
            }
        }
        Ok(CyclicRhythm { pulses, onsets: sorted, rotation })
    }

    /// The pulses per cycle.
    pub fn pulses(&self) -> (r: u32)
        ensures
            r == self.pulses_view(),
    {
        self.pulses
    }

    /// The sorted distinct onset pulses.
    pub fn onsets(&self) -> (r: &[u32])
        ensures
            r@ == self.onsets_view(),
    {
        self.onsets.as_slice()
    }

    /// The reference rotation.
    pub fn rotation(&self) -> (r: u32)
        ensures
            r == self.rotation_view(),
    {
        self.rotation
    }

    /// Whether a pulse carries an onset.
    pub fn is_onset(&self, index: u32) -> (r: bool)
        ensures
            r == self.onsets_view().contains(index),
    {
        let mut i: usize = 0;
        while i < self.onsets.len()
            invariant
                i <= self.onsets@.len(),
                forall|j: int| 0 <= j < i ==> self.onsets@[j] != index,
            decreases self.onsets@.len() - i,
        {
            if self.onsets[i] == index {
                return true;
            }
            i += 1;
        }
        false
    }

    /// The same pattern read from pulse `by`: every onset and the rotation
    /// move back by `by` pulses, modulo the cycle.
    pub fn rotated(&self, by: u32) -> (r: Result<CyclicRhythm, TimeError>)
        ensures
            by >= self.pulses_view() ==> r == Err::<CyclicRhythm, TimeError>(
                TimeError::OnsetOutsideCycle { index: by, pulses: self.pulses_view() },
            ),
            by < self.pulses_view() ==> (r matches Ok(c) && c.pulses_view() == self.pulses_view()
                && c.rotation_view() == (self.rotation_view() + self.pulses_view() - by) as int
                % self.pulses_view() as int && strictly_increasing(c.onsets_view()) && forall|
                x: u32,
            |
                c.onsets_view().contains(x) <==> exists|i: int|
                    0 <= i < self.onsets_view().len() && x == (self.onsets_view()[i]
                        + self.pulses_view() - by) as int % self.pulses_view() as int),
    {
        proof {
            use_type_invariant(self);
        }
        if by >= self.pulses {
            return Err(TimeError::OnsetOutsideCycle { index: by, pulses: self.pulses });
        }
        let p = self.pulses as u64;
        let mut moved: Vec<u32> = Vec::new();
        let mut i: usize = 0;
        while i < self.onsets.len()
            invariant
                p == self.pulses,
                p > 0,
                by < p,
                i <= self.onsets@.len(),
                moved@.len() == i,
                forall|j: int| 0 <= j < self.onsets@.len() ==> self.onsets@[j] < p,
                forall|j: int|
                    0 <= j < i ==> (#[trigger] moved@[j]) as int == (self.onsets@[j] + p - by) as int
                        % p as int,
            decreases self.onsets@.len() - i,
        {
            let value = ((self.onsets[i] as u64 + p - by as u64) % p) as u32;
            moved.push(value);
            i += 1;
        }
        let rotation = ((self.rotation as u64 + p - by as u64) % p) as u32;
        proof {
            assert forall|j: int| 0 <= j < moved@.len() implies moved@[j] < self.pulses by {
                assert(((self.onsets@[j] + p - by) as int % (p as int)) < p);
            }
        }
        let r = Self::new(self.pulses, moved.as_slice(), rotation);
        proof {
            if r is Ok {
                let c = r->Ok_0;
                assert forall|x: u32| c.onsets_view().contains(x) <==> exists|i: int|
                    0 <= i < self.onsets@.len() && x == (self.onsets@[i] + self.pulses - by) as int
                        % self.pulses as int by {
                    if c.onsets_view().contains(x) {
                        assert(moved@.contains(x));
                        let k = choose|k: int| 0 <= k < moved@.len() && moved@[k] == x;
                        assert(x == (self.onsets@[k] + self.pulses - by) as int % self.pulses as int);
                    }
                    if exists|i: int|
                        0 <= i < self.onsets@.len() && x == (self.onsets@[i] + self.pulses - by) as int
                            % self.pulses as int {
                        let k = choose|i: int|
                            0 <= i < self.onsets@.len() && x == (self.onsets@[i] + self.pulses - by)
                                as int % self.pulses as int;
                        assert(moved@[k] == x);
                        assert(moved@.contains(x));
                    }
                }
            }
        }
        r
    }

    /// The exact onset times over one cycle spanning `cycle`: onset `k` sits
    /// at `start + length * k / pulses`.
    pub fn onset_times(&self, cycle: &BeatSpan) -> (r: Result<Vec<BeatTime>, TimeError>)
        ensures
            r matches Err(e) ==> e == TimeError::Overflow,
            r is Ok <==> onsets_computable(cycle@.0, cycle@.1, self.onsets_view(), self.pulses_view() as int),
            r matches Ok(v) ==> v@.len() == self.onsets_view().len() && forall|i: int|
                0 <= i < v@.len() ==> rat_eq(
                    (#[trigger] v@[i])@,
                    rat_add(
                        cycle@.0,
                        rat_mul(
                            rat_sub(cycle@.1, cycle@.0),
                            (self.onsets_view()[i] as int, self.pulses_view() as int),
                        ),
                    ),
                ),
    {
        proof {
            use_type_invariant(self);
        }
        let length = match cycle.duration() {
            Some(l) => l,
            None => {
                return Err(TimeError::Overflow);
            },
        };
        let origin = cycle.start();
        let mut times: Vec<BeatTime> = Vec::new();
        proof {
            assert(length@ == reduce(rat_sub(cycle@.1, cycle@.0)));
        }
        let mut i: usize = 0;
        proof {
            crate::algebra::lemma_reduce_eq(rat_sub(cycle@.1, cycle@.0));
            lemma_den_product(cycle@.1.1, cycle@.0.1);
            lemma_rat_eq_refl_symm(cycle@.0, cycle@.0);
        }
        while i < self.onsets.len()
            invariant
                i <= self.onsets@.len(),
                times@.len() == i,
                self.pulses > 0,
                origin@ == cycle@.0,
                rat_eq(length@, rat_sub(cycle@.1, cycle@.0)),
                rat_sub(cycle@.1, cycle@.0).1 > 0,
                forall|j: int| 0 <= j < self.onsets@.len() ==> self.onsets@[j] < self.pulses,
                fits(reduce(rat_sub(cycle@.1, cycle@.0))),
                forall|j: int|
                    0 <= j < i ==> #[trigger] onset_fits(cycle@.0, cycle@.1, self.onsets@[j] as int, self.pulses as int),
                forall|j: int|
                    0 <= j < i ==> rat_eq(
                        (#[trigger] times@[j])@,
                        rat_add(
                            cycle@.0,
                            rat_mul(
                                rat_sub(cycle@.1, cycle@.0),
                                (self.onsets@[j] as int, self.pulses as int),
                            ),
                        ),
                    ),
            decreases self.onsets@.len() - i,
        {
            let position = Q::new(self.onsets[i] as i64, self.pulses as i64);
            let ghost frac = (self.onsets@[i as int] as int, self.pulses as int);
            let ghost exact = rat_mul(rat_sub(cycle@.1, cycle@.0), frac);
            proof {
                lemma_reduce_eq(frac);
                lemma_den_product(length@.1, position@.1);
                lemma_den_product(rat_sub(cycle@.1, cycle@.0).1, frac.1);
                lemma_rat_mul_congruent(length@, position@, rat_sub(cycle@.1, cycle@.0), frac);
                lemma_reduce_unique(rat_mul(length@, position@), exact);
            }
            let offset = match length.0.checked_mul(&position) {
                Some(o) => o,
                None => {
                    proof {
                        assert(!onset_fits(cycle@.0, cycle@.1, self.onsets@[i as int] as int, self.pulses as int));
                    }
                    return Err(TimeError::Overflow);
                },
            };
            proof {
                lemma_step_mul(offset@, length@, position@, rat_sub(cycle@.1, cycle@.0), frac);
                lemma_rat_eq_refl_symm(cycle@.0, cycle@.0);
                lemma_rat_add_congruent(origin@, offset@, cycle@.0, exact);
                lemma_den_product(origin@.1, offset@.1);
                lemma_den_product(cycle@.0.1, exact.1);
                lemma_reduce_unique(rat_add(origin@, offset@), rat_add(cycle@.0, exact));
            }
            let at = match origin.0.checked_add(&offset) {
                Some(a) => a,
                None => {
                    proof {
                        assert(!onset_fits(cycle@.0, cycle@.1, self.onsets@[i as int] as int, self.pulses as int));
                    }
                    return Err(TimeError::Overflow);
                },
            };
            proof {
                assert(onset_fits(cycle@.0, cycle@.1, self.onsets@[i as int] as int, self.pulses as int));
                let frac = (self.onsets@[i as int] as int, self.pulses as int);
                lemma_step_mul(offset@, length@, position@, rat_sub(cycle@.1, cycle@.0), frac);
                lemma_den_product(rat_sub(cycle@.1, cycle@.0).1, frac.1);
                lemma_step_add(at@, origin@, offset@, cycle@.0, rat_mul(rat_sub(cycle@.1, cycle@.0), frac));
            }
            times.push(BeatTime(at));
            i += 1;
        }
        proof {
            assert forall|j: int| 0 <= j < self.onsets@.len() implies #[trigger] onset_fits(
                cycle@.0,
                cycle@.1,
                self.onsets@[j] as int,
                self.pulses as int,
            ) by {}
        }
        Ok(times)
    }

    /// The gaps between consecutive onsets, wrapping from the last onset to
    /// the first; they sum to the pulse count.
    pub fn inter_onset_pulses(&self) -> (r: Vec<u32>)
        ensures
            self.onsets_view().len() == 0 ==> r@.len() == 0,
            self.onsets_view().len() > 0 ==> r@.len() == self.onsets_view().len() && (forall|i: int|
                0 <= i < r@.len() - 1 ==> (#[trigger] r@[i]) == self.onsets_view()[i + 1]
                    - self.onsets_view()[i]) && r@.last() == self.pulses_view()
                + self.onsets_view()[0] - self.onsets_view().last(),
    {
        proof {
            use_type_invariant(self);
        }
        let n = self.onsets.len();
        let mut gaps: Vec<u32> = Vec::new();
        if n == 0 {
            return gaps;
        }
        let mut i: usize = 0;
        while i + 1 < n
            invariant
                n == self.onsets@.len(),
                n > 0,
                i + 1 <= n,
                gaps@.len() == i,
                strictly_increasing(self.onsets@),
                forall|j: int|
                    0 <= j < i ==> (#[trigger] gaps@[j]) == self.onsets@[j + 1] - self.onsets@[j],
            decreases n - i,
        {
            gaps.push(self.onsets[i + 1] - self.onsets[i]);
            i += 1;
        }
        gaps.push(self.pulses - self.onsets[n - 1] + self.onsets[0]);
        gaps
    }

    /// The stored onset vector.
    pub closed spec fn onsets_vec(self) -> Vec<u32> {
        self.onsets
    }
}

/// A cyclic pattern in wire form, revalidated on the way in.
#[derive(Debug, Clone)]
pub struct RawCyclicRhythm {
    /// Pulses in one cycle.
    pub pulses: u32,
    /// Pulse indices carrying an onset.
    pub onsets: Vec<u32>,
    /// The designated rotation reference.
    pub rotation: u32,
}

impl TryFrom<RawCyclicRhythm> for CyclicRhythm {
    type Error = TimeError;

    fn try_from(value: RawCyclicRhythm) -> (r: Result<CyclicRhythm, TimeError>)
        ensures
            value.pulses == 0 ==> r == Err::<CyclicRhythm, TimeError>(TimeError::EmptyCycle),
            value.pulses > 0 && (exists|i: int| 0 <= i < value.onsets@.len() && value.onsets@[i] >= value.pulses) ==> (
            r matches Err(TimeError::OnsetOutsideCycle { index, pulses: p }) && p == value.pulses
                && index >= value.pulses && (exists|i: int|
                0 <= i < value.onsets@.len() && value.onsets@[i] == index)),
            value.pulses > 0 && (forall|i: int| 0 <= i < value.onsets@.len() ==> value.onsets@[i] < value.pulses)
                && value.rotation >= value.pulses ==> r == Err::<CyclicRhythm, TimeError>(
                TimeError::OnsetOutsideCycle { index: value.rotation, pulses: value.pulses },
            ),
            value.pulses > 0 && (forall|i: int| 0 <= i < value.onsets@.len() ==> value.onsets@[i] < value.pulses)
                && value.rotation < value.pulses ==> (r matches Ok(c) && c.pulses_view() == value.pulses
                && c.rotation_view() == value.rotation && strictly_increasing(c.onsets_view())
                && forall|x: u32| c.onsets_view().contains(x) <==> value.onsets@.contains(x)),
            r is Ok <==> raw_cycle_valid(value),
            r matches Ok(c) ==> revalidated_cycle(value, c),
    {
        CyclicRhythm::new(value.pulses, value.onsets.as_slice(), value.rotation)
    }
}

/// The wire form names a non-empty cycle, onsets inside it and a rotation
/// inside it.
pub open spec fn raw_cycle_valid(v: RawCyclicRhythm) -> bool {
    &&& v.pulses > 0
    &&& forall|i: int| 0 <= i < v.onsets@.len() ==> v.onsets@[i] < v.pulses
    &&& v.rotation < v.pulses
}

/// `c` is what revalidating `v` gives: the same cycle and rotation, and the
/// onsets of `v` sorted with repeats removed.
pub open spec fn revalidated_cycle(v: RawCyclicRhythm, c: CyclicRhythm) -> bool {
    &&& c.pulses_view() == v.pulses
    &&& c.rotation_view() == v.rotation
    &&& strictly_increasing(c.onsets_view())
    &&& forall|x: u32| c.onsets_view().contains(x) <==> v.onsets@.contains(x)
}

/// Revalidation builds a fresh sorted onset vector, so its result is not
/// claimed as a value of the model here; `try_from` states what it returns.
impl vstd::std_specs::convert::TryFromSpecImpl<RawCyclicRhythm> for CyclicRhythm {
    open spec fn obeys_try_from_spec() -> bool {
        false
    }

    open spec fn try_from_spec(v: RawCyclicRhythm) -> Result<CyclicRhythm, TimeError> {
        vstd::pervasive::arbitrary()
    }
}

impl From<CyclicRhythm> for RawCyclicRhythm {
    fn from(value: CyclicRhythm) -> (r: RawCyclicRhythm)
        ensures
            r.pulses == value.pulses_view(),
            r.onsets@ == value.onsets_view(),
            r.rotation == value.rotation_view(),
    {
        RawCyclicRhythm { pulses: value.pulses, onsets: value.onsets, rotation: value.rotation }
    }
}

impl vstd::std_specs::convert::FromSpecImpl<CyclicRhythm> for RawCyclicRhythm {
    open spec fn obeys_from_spec() -> bool {
        true
    }

    open spec fn from_spec(v: CyclicRhythm) -> RawCyclicRhythm {
        RawCyclicRhythm { pulses: v.pulses_view(), onsets: v.onsets_vec(), rotation: v.rotation_view() }
    }
}

/// A rhythm written to its wire form and read back is the same rhythm: the
/// wire form of a valid rhythm passes revalidation, and whatever revalidation
/// builds from it has the same cycle, onsets and rotation.
pub proof fn law_cycle_wire_form_round_trips(c: CyclicRhythm, back: CyclicRhythm)
    requires
        c.is_valid(),
        revalidated_cycle(<RawCyclicRhythm as FromSpec<CyclicRhythm>>::from_spec(c), back),
    ensures
        raw_cycle_valid(<RawCyclicRhythm as FromSpec<CyclicRhythm>>::from_spec(c)),
        back.pulses_view() == c.pulses_view(),
        back.onsets_view() == c.onsets_view(),
        back.rotation_view() == c.rotation_view(),
{
    let raw = <RawCyclicRhythm as FromSpec<CyclicRhythm>>::from_spec(c);
    assert(raw.onsets@ == c.onsets_view());
    lemma_sorted_set_eq(back.onsets_view(), c.onsets_view());
}

/// The point after the first `k` of `weights` in `[start, end]`: the start,
/// an inner boundary, or the end.
pub open spec fn division_point(start: (int, int), end: (int, int), weights: Seq<(int, int)>, k: int) -> (
    int,
    int,
) {
    if k <= 0 {
        start
    } else if k >= weights.len() {
        end
    } else {
        boundary(start, end, weights, k)
    }
}

/// The share of the first `k` weights, its offset into `[start, end]` and
/// the boundary it gives all fit the storage of `Q`.
pub open spec fn division_fits(start: (int, int), end: (int, int), weights: Seq<(int, int)>, k: int) -> bool {
    let part = rat_div(sum_pairs(weights.take(k)), sum_pairs(weights));
    let offset = rat_mul(rat_sub(end, start), part);
    &&& fits(reduce(part))
    &&& fits(reduce(offset))
    &&& fits(reduce(rat_add(start, offset)))
}

/// The endpoint after the first `k` of `weights` in `[start, end]` as stored:
/// the start, an inner boundary in reduced form, or the end.
pub open spec fn division_cut(start: (int, int), end: (int, int), weights: Seq<(int, int)>, k: int) -> (
    int,
    int,
) {
    if k <= 0 {
        start
    } else if k >= weights.len() {
        end
    } else {
        reduce(boundary(start, end, weights, k))
    }
}

/// Dividing `[start, end]` in proportion to `weights` stays within the
/// storage of `Q` (the running sums of the weights, the length, and every
/// inner boundary with its share and offset), and its points run forward.
pub open spec fn division_computable(start: (int, int), end: (int, int), weights: Seq<(int, int)>) -> bool {
    &&& prefix_sums_fit(weights)
    &&& fits(reduce(rat_sub(end, start)))
    &&& forall|k: int| 1 <= k < weights.len() ==> #[trigger] division_fits(start, end, weights, k)
    &&& forall|k: int|
        0 <= k < weights.len() ==> rat_le(
            #[trigger] division_point(start, end, weights, k),
            division_point(start, end, weights, k + 1),
        )
}

/// Flattening `tree` over `[start, end]` stays within storage: every node
/// with children divides its span computably, and each child then flattens
/// over its share as stored.
#[verifier::opaque]
pub open spec fn divides_within(tree: RhythmTree, start: (int, int), end: (int, int)) -> bool
    decreases tree,
    via divides_within_decreases
{
    let cs = tree.children_view();
    let ws = weights_of(cs);
    cs.len() > 0 ==> {
        &&& division_computable(start, end, ws)
        &&& forall|i: int|
            0 <= i < cs.len() ==> divides_within(
                cs[i],
                #[trigger] division_cut(start, end, ws, i),
                division_cut(start, end, ws, i + 1),
            )
    }
}

#[via_fn]
proof fn divides_within_decreases(tree: RhythmTree, start: (int, int), end: (int, int)) {
    assert forall|i: int| 0 <= i < tree.children_view().len() implies decreases_to!(
        tree => tree.children_view()[i]
    ) by {
        RhythmTree::lemma_child_decreases(tree, i);
    }
}

/// Each span is the stored share of its child: from one cut to the next.
#[verifier::opaque]
pub open spec fn spans_are_cuts(spans: Seq<BeatSpan>, start: (int, int), end: (int, int), weights: Seq<(int, int)>) -> bool {
    forall|i: int|
        0 <= i < spans.len() ==> (#[trigger] spans[i])@ == (
            division_cut(start, end, weights, i),
            division_cut(start, end, weights, i + 1),
        )
}


/// The depth of a tree is that of its deepest leaf: zero for a leaf, and
/// for a division one more than the deepest of its children, so never less
/// than one more than the depth of any child.
pub proof fn law_depth_is_one_more_than_the_deepest_child(t: RhythmTree)
    ensures
        t.children_view().len() == 0 ==> t.height() == 0,
        forall|i: int|
            0 <= i < t.children_view().len() ==> t.height() >= 1 + (#[trigger] t.children_view()[i]).height(),
        t.children_view().len() > 0 ==> exists|i: int|
            0 <= i < t.children_view().len() && t.height() == 1 + (#[trigger] t.children_view()[i]).height(),
{
    let s = t.children_view();
    if s.len() > 0 {
        lemma_height_of_bounds(s, s.len() as int);
    }
}

/// The greatest height among the first `k` trees bounds each of them and is
/// reached by one of them.
proof fn lemma_height_of_bounds(s: Seq<RhythmTree>, k: int)
    requires
        0 < k <= s.len(),
    ensures
        forall|i: int| 0 <= i < k ==> RhythmTree::height_of(s, k) >= (#[trigger] s[i]).height(),
        exists|i: int| 0 <= i < k && RhythmTree::height_of(s, k) == (#[trigger] s[i]).height(),
    decreases k,
{
    if k == 1 {
        assert(RhythmTree::height_of(s, 0) == 0);
        assert(RhythmTree::height_of(s, 1) == s[0].height());
    } else {
        lemma_height_of_bounds(s, k - 1);
        let w = choose|i: int| 0 <= i < k - 1 && RhythmTree::height_of(s, k - 1) == (#[trigger] s[i]).height();
        if RhythmTree::height_of(s, k) == s[k - 1].height() {
            assert(s[k - 1].height() == RhythmTree::height_of(s, k));
        } else {
            assert(s[w].height() == RhythmTree::height_of(s, k));
        }
    }
}
} // verus!
