//! Temporal constraint networks in three profiles.
//!
//! - [`StpProblem`] holds difference bounds `l <= t_j - t_i <= u` and decides
//!   them by all-pairs shortest paths.
//! - [`LinearTemporalProblem`] holds general linear inequalities, strict or
//!   not, including cross-multiplied ratio bounds, and decides them by exact
//!   Fourier-Motzkin elimination.
//! - [`HybridTemporalProblem`] adds external predicates, which are data with a
//!   declared evaluation contract and no decidability claim.
//!
//! Results carry the profile that produced them and their status.
use crate::algebra::{
    lemma_q_view, lemma_rat_add_assoc_comm, lemma_rat_le_add, lemma_rat_le_add_nonneg, lemma_rat_le_neg_flip, lemma_rat_le_sub, lemma_rat_le_trans,
    lemma_rat_sub_self, lemma_den_product, lemma_reduce_eq, lemma_step_add, lemma_reduce_zero, fits, rat_add,
    rat_mul, rat_div, rat_eq, rat_le, rat_lt, rat_neg, rat_sub,
    reduce, Q,
};
use crate::error::TimeError;
use crate::time::elimination::{
    chain_link, elimination_chain, elimination_size, eliminates, combination_fits, count_sign,
    sign_at, substitution_fails, system_views, back_substitute, column_zero, dot, elim_link, eliminate, eliminated_at, holds, lemma_dot_zero,
    lemma_q_values_dens, lemma_row_dens, positive_dens, q_values, row_coefficients, row_holds,
    rows_hold, rows_sized, Row,
};
use crate::time::paths::{
    bound_add, bound_le, bounds_hold, cell, edges_hold, lemma_bound_add, lemma_bound_algebra,
    doubled, lemma_bound_trans, lemma_cell_pos, no_negative_diagonal, nonneg, paths_facts,
    shortest_paths, triangle, weights_small, on_grid,
};
use vstd::prelude::*;
use vstd::string::StringExecFns;

verus! {

broadcast use lemma_q_view;

/// Stable identity of a temporal variable, typically an event onset or offset.
#[derive(Debug, Hash)]
pub struct TimeVarId(String);

impl View for TimeVarId {
    type V = Seq<char>;

    closed spec fn view(&self) -> Seq<char> {
        self.0@
    }
}

impl TimeVarId {
    /// Wraps a stable variable identity.
    pub fn new(id: &str) -> (r: TimeVarId)
        ensures
            r@ == id@,
    {
        TimeVarId(String::from_str(id))
    }

    /// The identity text.
    pub fn as_str(&self) -> (r: &str)
        ensures
            r@ == self@,
    {
        self.0.as_str()
    }

    /// The identity text, owned.
    pub fn to_text(&self) -> (r: String)
        ensures
            r@ == self@,
    {
        self.0.clone()
    }

    /// Whether two identities are the same.
    pub fn same(&self, other: &TimeVarId) -> (r: bool)
        ensures
            r == (self@ == other@),
    {
        self.0 == other.0
    }
}

impl Clone for TimeVarId {
    fn clone(&self) -> (r: Self)
        ensures
            r@ == self@,
            r == *self,
    {
        TimeVarId(self.0.clone())
    }
}

impl PartialEq for TimeVarId {
    fn eq(&self, other: &Self) -> (r: bool) {
        self.0 == other.0
    }
}

impl vstd::std_specs::cmp::PartialEqSpecImpl for TimeVarId {
    open spec fn obeys_eq_spec() -> bool {
        true
    }

    open spec fn eq_spec(&self, other: &Self) -> bool {
        self@ == other@
    }
}

impl Eq for TimeVarId {

}

/// Which solver profile produced a result.
#[derive(Debug, Clone, Copy, PartialEq, Eq, Hash, Structural)]
pub enum SolverProfile {
    /// Difference bounds, solved by shortest paths.
    SimpleTemporal,
    /// General linear inequalities, solved by exact elimination.
    LinearRatio,
    /// Linear constraints plus external predicates.
    Hybrid,
}

/// How exact a reported temporal solution is.
#[derive(Debug, Clone, Copy, PartialEq, Eq, Hash, Structural)]
pub enum Exactness {
    /// The assignment is exact rational data.
    Exact,
    /// The assignment is an approximation with a declared tolerance.
    Approximate,
}

/// The value of an optional rational.
pub open spec fn opt_view(o: Option<Q>) -> Option<(int, int)> {
    match o {
        Some(q) => Some(q@),
        None => None,
    }
}

/// A difference constraint `lower <= t_to - t_from <= upper`; an absent
/// bound is unbounded on that side.
#[derive(Debug, PartialEq, Eq)]
pub struct DifferenceConstraint {
    /// The variable subtracted.
    pub from: TimeVarId,
    /// The variable subtracted from.
    pub to: TimeVarId,
    /// The lower bound, if any.
    pub lower: Option<Q>,
    /// The upper bound, if any.
    pub upper: Option<Q>,
}

/// `gap` lies within the optional bounds.
pub open spec fn within_bounds(
    lower: Option<(int, int)>,
    upper: Option<(int, int)>,
    gap: (int, int),
) -> bool {
    &&& (lower matches Some(l) ==> rat_le(l, gap))
    &&& (upper matches Some(u) ==> rat_le(gap, u))
}

impl DifferenceConstraint {
    /// `lower <= t_to - t_from <= upper`.
    pub fn between(from: &TimeVarId, to: &TimeVarId, lower: Option<Q>, upper: Option<Q>) -> (r:
        DifferenceConstraint)
        ensures
            r.from@ == from@,
            r.to@ == to@,
            r.lower == lower,
            r.upper == upper,
    {
        DifferenceConstraint { from: from.clone(), to: to.clone(), lower, upper }
    }

    /// `t_to - t_from <= upper`.
    pub fn at_most(from: &TimeVarId, to: &TimeVarId, upper: Q) -> (r: DifferenceConstraint)
        ensures
            r.from@ == from@,
            r.to@ == to@,
            r.lower is None,
            r.upper == Some(upper),
    {
        Self::between(from, to, None, Some(upper))
    }

    /// `t_to - t_from >= lower`.
    pub fn at_least(from: &TimeVarId, to: &TimeVarId, lower: Q) -> (r: DifferenceConstraint)
        ensures
            r.from@ == from@,
            r.to@ == to@,
            r.lower == Some(lower),
            r.upper is None,
    {
        Self::between(from, to, Some(lower), None)
    }
}

/// The identities of a list of variables.
pub open spec fn names(variables: Seq<TimeVarId>) -> Seq<Seq<char>> {
    variables.map_values(|v: TimeVarId| v@)
}

/// No identity occurs twice.
pub open spec fn distinct_names(variables: Seq<TimeVarId>) -> bool {
    forall|i: int, j: int|
        0 <= i < j < variables.len() ==> #[trigger] variables[i]@ != #[trigger] variables[j]@
}

/// Whether an identity is declared.
pub open spec fn declared(variables: Seq<TimeVarId>, name: Seq<char>) -> bool {
    exists|i: int| 0 <= i < variables.len() && #[trigger] variables[i]@ == name
}

/// An assignment of exact values, one per variable, each with a positive
/// denominator.
pub open spec fn valid_values(x: Seq<(int, int)>, count: int) -> bool {
    &&& x.len() == count
    &&& forall|k: int| 0 <= k < x.len() ==> #[trigger] x[k].1 > 0
}

/// An assignment meets one difference constraint.
pub open spec fn meets_difference(
    variables: Seq<TimeVarId>,
    c: DifferenceConstraint,
    x: Seq<(int, int)>,
) -> bool {
    forall|i: int, j: int|
        0 <= i < variables.len() && 0 <= j < variables.len() && #[trigger] variables[i]@
            == c.from@ && #[trigger] variables[j]@ == c.to@ ==> within_bounds(
            opt_view(c.lower),
            opt_view(c.upper),
            rat_sub(x[j], x[i]),
        )
}

/// An assignment meets every constraint of a difference network.
pub open spec fn satisfies_network(
    variables: Seq<TimeVarId>,
    constraints: Seq<DifferenceConstraint>,
    x: Seq<(int, int)>,
) -> bool {
    &&& valid_values(x, variables.len() as int)
    &&& forall|c: int|
        0 <= c < constraints.len() ==> meets_difference(variables, #[trigger] constraints[c], x)
}

/// A Simple Temporal Problem: difference bounds only.
///
/// Only difference bounds can be added, so nothing that is not a shortest-path
/// edge can enter it.
#[derive(Debug)]
pub struct StpProblem {
    variables: Vec<TimeVarId>,
    constraints: Vec<DifferenceConstraint>,
}

impl Clone for DifferenceConstraint {
    fn clone(&self) -> (r: Self)
        ensures
            r == *self,
    {
        DifferenceConstraint {
            from: self.from.clone(),
            to: self.to.clone(),
            lower: self.lower,
            upper: self.upper,
        }
    }
}

impl Clone for StpProblem {
    fn clone(&self) -> (r: Self)
        ensures
            r.variables_view() == self.variables_view(),
            r.constraints_view() == self.constraints_view(),
    {
        proof {
            use_type_invariant(self);
        }
        let variables = self.variables.clone();
        let constraints = self.constraints.clone();
        proof {
            assert(variables@ =~= self.variables@);
            assert(constraints@ =~= self.constraints@);
        }
        StpProblem { variables, constraints }
    }
}

impl StpProblem {
    /// Every constraint names declared variables, and no variable is declared
    /// twice.
    #[verifier::type_invariant]
    spec fn invariant_holds(self) -> bool {
        self.well_formed()
    }

    pub closed spec fn well_formed(&self) -> bool {
        &&& distinct_names(self.variables@)
        &&& forall|c: int|
            0 <= c < self.constraints@.len() ==> declared(
                self.variables@,
                #[trigger] self.constraints@[c].from@,
            ) && declared(self.variables@, self.constraints@[c].to@)
    }

    /// The declared variables.
    pub closed spec fn variables_view(&self) -> Seq<TimeVarId> {
        self.variables@
    }

    /// The declared constraints.
    pub closed spec fn constraints_view(&self) -> Seq<DifferenceConstraint> {
        self.constraints@
    }

    /// An empty problem.
    pub fn new() -> (r: StpProblem)
        ensures
            r.well_formed(),
            r.variables_view().len() == 0,
            r.constraints_view().len() == 0,
    {
        StpProblem { variables: Vec::new(), constraints: Vec::new() }
    }

    /// Declares a variable, returning its identity; declaring it again
    /// changes nothing.
    pub fn variable(&mut self, id: &str) -> (r: TimeVarId)
        ensures
            r@ == id@,
            final(self).constraints_view() == old(self).constraints_view(),
            declared(old(self).variables_view(), id@) ==> final(self).variables_view() == old(
                self,
            ).variables_view(),
            !declared(old(self).variables_view(), id@) ==> names(final(self).variables_view())
                == names(old(self).variables_view()).push(id@),
    {
        proof {
            use_type_invariant(&*self);
        }
        let variable = TimeVarId::new(id);
        let found = index_of(&self.variables, &variable);
        if found.is_none() {
            let ghost before = self.variables@;
            let mut taken = StpProblem::new();
            std::mem::swap(&mut taken, self);
            let StpProblem { mut variables, constraints } = taken;
            variables.push(variable.clone());
            proof {
                assert(names(variables@) =~= names(before).push(id@));
                assert forall|c: int| 0 <= c < constraints@.len() implies declared(
                    variables@,
                    #[trigger] constraints@[c].from@,
                ) && declared(variables@, constraints@[c].to@) by {
                    let a = choose|i: int|
                        0 <= i < before.len() && #[trigger] before[i]@
                            == constraints@[c].from@;
                    let b = choose|i: int|
                        0 <= i < before.len() && #[trigger] before[i]@ == constraints@[c].to@;
                    assert(variables@[a] == before[a]);
                    assert(variables@[b] == before[b]);
                }
            }
            *self = StpProblem { variables, constraints };
        }
        variable
    }

    /// The declared variables, in declaration order.
    pub fn variables(&self) -> (r: &[TimeVarId])
        ensures
            r@ == self.variables_view(),
    {
        self.variables.as_slice()
    }

    /// The declared constraints.
    pub fn constraints(&self) -> (r: &[DifferenceConstraint])
        ensures
            r@ == self.constraints_view(),
    {
        self.constraints.as_slice()
    }

    /// Adds a difference constraint whose endpoints are both declared.
    pub fn constrain(&mut self, constraint: DifferenceConstraint) -> (r: Result<(), TimeError>)
        ensures
            final(self).variables_view() == old(self).variables_view(),
            r is Ok <==> declared(old(self).variables_view(), constraint.from@) && declared(
                old(self).variables_view(),
                constraint.to@,
            ),
            r is Ok ==> final(self).constraints_view() == old(self).constraints_view().push(
                constraint,
            ),
            r is Err ==> final(self).constraints_view() == old(self).constraints_view(),
            !declared(old(self).variables_view(), constraint.from@) ==> (r matches Err(
                TimeError::UnknownTimeVariable { variable },
            ) && variable@ == constraint.from@),
            declared(old(self).variables_view(), constraint.from@) && !declared(
                old(self).variables_view(),
                constraint.to@,
            ) ==> (r matches Err(TimeError::UnknownTimeVariable { variable })
                && variable@ == constraint.to@),
    {
        proof {
            use_type_invariant(&*self);
        }
        if index_of(&self.variables, &constraint.from).is_none() {
            return Err(TimeError::UnknownTimeVariable { variable: constraint.from.to_text() });
        }
        if index_of(&self.variables, &constraint.to).is_none() {
            return Err(TimeError::UnknownTimeVariable { variable: constraint.to.to_text() });
        }
        let ghost before = self.constraints@;
        let mut taken = StpProblem::new();
        std::mem::swap(&mut taken, self);
        let StpProblem { variables, mut constraints } = taken;
        constraints.push(constraint);
        proof {
            assert forall|c: int| 0 <= c < constraints@.len() implies declared(
                variables@,
                #[trigger] constraints@[c].from@,
            ) && declared(variables@, constraints@[c].to@) by {
                if c < before.len() {
                    assert(constraints@[c] == before[c]);
                }
            }
        }
        *self = StpProblem { variables, constraints };
        Ok(())
    }
}

/// The position of a variable in a declaration list.
fn index_of(variables: &Vec<TimeVarId>, variable: &TimeVarId) -> (r: Option<usize>)
    ensures
        r matches Some(i) ==> i < variables@.len() && variables@[i as int]@ == variable@,
        r is None <==> !declared(variables@, variable@),
{
    let mut i: usize = 0;
    while i < variables.len()
        invariant
            i <= variables@.len(),
            forall|k: int| 0 <= k < i ==> #[trigger] variables@[k]@ != variable@,
        decreases variables@.len() - i,
    {
        if variables[i].same(variable) {
            return Some(i);
        }
        i = i + 1;
    }
    None
}

/// The values of an assignment, in variable order.
pub open spec fn assigned_values(assignment: Seq<(TimeVarId, Q)>) -> Seq<(int, int)> {
    assignment.map_values(|p: (TimeVarId, Q)| p.1@)
}

/// An assignment names the declared variables in order.
pub open spec fn names_variables(assignment: Seq<(TimeVarId, Q)>, variables: Seq<TimeVarId>) -> bool {
    &&& assignment.len() == variables.len()
    &&& forall|k: int| 0 <= k < assignment.len() ==> (#[trigger] assignment[k]).0@ == variables[k]@
}

/// The result of a temporal solve, with the profile that produced it and
/// its status.
#[derive(Debug)]
pub enum TemporalOutcome {
    /// A consistent network with an exact or approximate assignment.
    Solved {
        /// Which profile produced it.
        profile: SolverProfile,
        /// Whether the assignment is exact.
        exactness: Exactness,
        /// One consistent assignment, in variable order.
        assignment: Vec<(TimeVarId, Q)>,
        /// Implied pairwise bounds, where the profile computes them.
        tight_bounds: Vec<DifferenceConstraint>,
    },
    /// Consistent as far as the static constraints go, with external
    /// conditions still outstanding.
    PartiallySolved {
        /// Which profile produced it.
        profile: SolverProfile,
        /// An assignment satisfying the static constraints.
        assignment: Vec<(TimeVarId, Q)>,
        /// Identities of the predicates that remain undecided.
        unresolved: Vec<String>,
    },
    /// The constraints contradict each other.
    Inconsistent {
        /// Which profile detected it.
        profile: SolverProfile,
        /// A human-readable witness to the contradiction.
        witness: String,
    },
    /// The selected profile cannot express these constraints.
    UnsupportedByProfile {
        /// Which profile was asked.
        profile: SolverProfile,
        /// What it cannot express.
        reason: String,
    },
}

impl TemporalOutcome {
    /// The profile recorded in an outcome.
    pub open spec fn profile_view(&self) -> SolverProfile {
        match self {
            TemporalOutcome::Solved { profile, .. } => *profile,
            TemporalOutcome::PartiallySolved { profile, .. } => *profile,
            TemporalOutcome::Inconsistent { profile, .. } => *profile,
            TemporalOutcome::UnsupportedByProfile { profile, .. } => *profile,
        }
    }

    /// The assignment, where there is one.
    pub fn assignment(&self) -> (r: Option<&Vec<(TimeVarId, Q)>>)
        ensures
            match self {
                TemporalOutcome::Solved { assignment, .. } => r == Some(assignment),
                TemporalOutcome::PartiallySolved { assignment, .. } => r == Some(assignment),
                _ => r is None,
            },
    {
        match self {
            TemporalOutcome::Solved { assignment, .. } => Some(assignment),
            TemporalOutcome::PartiallySolved { assignment, .. } => Some(assignment),
            _ => None,
        }
    }

    /// Whether the network is consistent as far as this solver determined.
    pub fn is_consistent(&self) -> (r: bool)
        ensures
            r == (self is Solved || self is PartiallySolved),
    {
        match self {
            TemporalOutcome::Solved { .. } => true,
            TemporalOutcome::PartiallySolved { .. } => true,
            _ => false,
        }
    }

    /// Predicates still outstanding.
    pub fn unresolved(&self) -> (r: &[String])
        ensures
            match self {
                TemporalOutcome::PartiallySolved { unresolved, .. } => r@ == unresolved@,
                _ => r@.len() == 0,
            },
    {
        match self {
            TemporalOutcome::PartiallySolved { unresolved, .. } => unresolved.as_slice(),
            _ => &[],
        }
    }

    /// Which profile produced this result.
    pub fn profile(&self) -> (r: SolverProfile)
        ensures
            r == self.profile_view(),
    {
        match self {
            TemporalOutcome::Solved { profile, .. } => *profile,
            TemporalOutcome::PartiallySolved { profile, .. } => *profile,
            TemporalOutcome::Inconsistent { profile, .. } => *profile,
            TemporalOutcome::UnsupportedByProfile { profile, .. } => *profile,
        }
    }
}

/// `e` is the edge of one bound of `c`: `from -> to` weighted by the upper
/// bound, or `to -> from` weighted by the negated lower bound.
pub open spec fn edge_of(variables: Seq<TimeVarId>, c: DifferenceConstraint, e: (usize, usize, Q)) -> bool {
    &&& e.0 < variables.len()
    &&& e.1 < variables.len()
    &&& {
        ||| (variables[e.0 as int]@ == c.from@ && variables[e.1 as int]@ == c.to@ && c.upper
            == Some(e.2))
        ||| (variables[e.0 as int]@ == c.to@ && variables[e.1 as int]@ == c.from@ && (c.lower matches Some(
            l,
        ) && e.2@ == rat_neg(l@)))
    }
}

/// Every bound of `c` has its edge in `edges`.
pub open spec fn has_edges(variables: Seq<TimeVarId>, c: DifferenceConstraint, edges: Seq<(usize, usize, Q)>) -> bool {
    &&& (c.upper matches Some(u) ==> exists|e: int|
        0 <= e < edges.len() && #[trigger] edges[e].0 < variables.len() && edges[e].1
            < variables.len() && variables[edges[e].0 as int]@ == c.from@ && variables[edges[e].1 as int]@
            == c.to@ && edges[e].2@ == u@)
    &&& (c.lower matches Some(l) ==> exists|e: int|
        0 <= e < edges.len() && #[trigger] edges[e].0 < variables.len() && edges[e].1
            < variables.len() && variables[edges[e].0 as int]@ == c.to@ && variables[edges[e].1 as int]@
            == c.from@ && edges[e].2@ == rat_neg(l@))
}

/// Every bound the network gives is a multiple of `1 / grid` beats, at most
/// `m` steps of the grid from zero.
pub open spec fn grid_bounds(cs: Seq<DifferenceConstraint>, grid: int, m: int) -> bool {
    forall|c: int|
        0 <= c < cs.len() ==> on_grid(opt_view((#[trigger] cs[c]).upper), grid, m) && on_grid(
            opt_view(cs[c].lower),
            grid,
            m,
        )
}

impl StpProblem {
    /// The weighted edges of the difference graph.
    fn edges(&self) -> (r: Vec<(usize, usize, Q)>)
        requires
            self.well_formed(),
        ensures
            forall|e: int|
                0 <= e < r@.len() ==> (#[trigger] r@[e]).0 < self.variables@.len() && r@[e].1
                    < self.variables@.len(),
            forall|x: Seq<(int, int)>|
                valid_values(x, self.variables@.len() as int) ==> (#[trigger] edges_hold(
                    r@,
                    self.variables@.len() as int,
                    x,
                ) <==> satisfies_network(self.variables@, self.constraints@, x)),
            forall|grid: int, m: int| #[trigger] grid_bounds(self.constraints@, grid, m) ==> weights_small(
                r@,
                grid,
                m,
            ),
    {
        let ghost vars = self.variables@;
        let ghost cs = self.constraints@;
        let mut out: Vec<(usize, usize, Q)> = Vec::new();
        let ghost mut origin: Seq<int> = Seq::empty();
        let mut c: usize = 0;
        while c < self.constraints.len()
            invariant
                self.well_formed(),
                vars == self.variables@,
                cs == self.constraints@,
                c <= cs.len(),
                origin.len() == out@.len(),
                forall|e: int|
                    0 <= e < out@.len() ==> 0 <= #[trigger] origin[e] < c && edge_of(
                        vars,
                        cs[origin[e]],
                        out@[e],
                    ),
                forall|c2: int| 0 <= c2 < c ==> has_edges(vars, #[trigger] cs[c2], out@),
            decreases cs.len() - c,
        {
            let constraint = &self.constraints[c];
            let from = index_of(&self.variables, &constraint.from);
            let to = index_of(&self.variables, &constraint.to);
            proof {
                assert(declared(vars, cs[c as int].from@));
                assert(declared(vars, cs[c as int].to@));
            }
            let f = from.unwrap();
            let t = to.unwrap();
            let ghost before = out@;
            let ghost old_origin = origin;
            match constraint.upper {
                Some(u) => {
                    out.push((f, t, u));
                    proof {
                        origin = origin.push(c as int);
                    }
                },
                None => {},
            }
            let ghost middle = out@;
            match constraint.lower {
                Some(l) => {
                    out.push((t, f, l.neg()));
                    proof {
                        origin = origin.push(c as int);
                    }
                },
                None => {},
            }
            proof {
                assert forall|e: int| 0 <= e < out@.len() implies 0 <= #[trigger] origin[e] < c + 1
                    && edge_of(vars, cs[origin[e]], out@[e]) by {
                    if e < before.len() {
                        assert(out@[e] == before[e]);
                        assert(origin[e] == old_origin[e]);
                    } else {
                        assert(origin[e] == c);
                        assert(edge_of(vars, cs[c as int], out@[e]));
                    }
                }
                assert forall|c2: int| 0 <= c2 < c + 1 implies has_edges(vars, #[trigger] cs[c2], out@) by {
                    if c2 < c {
                        assert(has_edges(vars, cs[c2], before));
                        if cs[c2].upper is Some {
                            let e = choose|e: int|
                                0 <= e < before.len() && #[trigger] before[e].0 < vars.len()
                                    && before[e].1 < vars.len() && vars[before[e].0 as int]@
                                    == cs[c2].from@ && vars[before[e].1 as int]@ == cs[c2].to@
                                    && before[e].2@ == cs[c2].upper->0@;
                            assert(out@[e] == before[e]);
                        }
                        if cs[c2].lower is Some {
                            let e = choose|e: int|
                                0 <= e < before.len() && #[trigger] before[e].0 < vars.len()
                                    && before[e].1 < vars.len() && vars[before[e].0 as int]@
                                    == cs[c2].to@ && vars[before[e].1 as int]@ == cs[c2].from@
                                    && before[e].2@ == rat_neg(cs[c2].lower->0@);
                            assert(out@[e] == before[e]);
                        }
                    } else {
                        if cs[c2].upper is Some {
                            assert(out@[before.len() as int] == middle[before.len() as int]);
                            assert(out@[before.len() as int].0 < vars.len());
                        }
                        if cs[c2].lower is Some {
                            assert(out@[middle.len() as int].0 < vars.len());
                        }
                    }
                }
            }
            c = c + 1;
        }
        proof {
            let count = vars.len() as int;
            assert forall|e: int| 0 <= e < out@.len() implies (#[trigger] out@[e]).0 < count
                && out@[e].1 < count by {
                assert(edge_of(vars, cs[origin[e]], out@[e]));
            }
            assert forall|x: Seq<(int, int)>| valid_values(x, count) implies (#[trigger] edges_hold(
                out@,
                count,
                x,
            ) <==> satisfies_network(vars, cs, x)) by {
                lemma_edges_from_network(vars, cs, out@, origin, x);
                lemma_network_from_edges(vars, cs, out@, x);
            }
            assert forall|grid: int, m: int| #[trigger] grid_bounds(cs, grid, m) implies weights_small(
                out@,
                grid,
                m,
            ) by {
                assert forall|e: int| 0 <= e < out@.len() implies on_grid(
                    Some((#[trigger] out@[e]).2@),
                    grid,
                    m,
                ) by {
                    let c = cs[origin[e]];
                    assert(edge_of(vars, c, out@[e]));
                    assert(on_grid(opt_view(c.upper), grid, m) && on_grid(opt_view(c.lower), grid, m));
                    if c.lower is Some {
                        let l = c.lower->0@;
                        let dl = grid / l.1;
                        assert((-l.0) * dl == -(l.0 * dl)) by (nonlinear_arith);
                    }
                }
            }
        }
        out
    }
}


/// A solution of the network meets every edge.
proof fn lemma_edges_from_network(
    vars: Seq<TimeVarId>,
    cs: Seq<DifferenceConstraint>,
    edges: Seq<(usize, usize, Q)>,
    origin: Seq<int>,
    x: Seq<(int, int)>,
)
    requires
        valid_values(x, vars.len() as int),
        origin.len() == edges.len(),
        forall|e: int|
            0 <= e < edges.len() ==> 0 <= #[trigger] origin[e] < cs.len() && edge_of(
                vars,
                cs[origin[e]],
                edges[e],
            ),
    ensures
        satisfies_network(vars, cs, x) ==> edges_hold(edges, vars.len() as int, x),
{
    if satisfies_network(vars, cs, x) {
        assert forall|e: int| 0 <= e < edges.len() implies rat_le(
            rat_sub(x[(#[trigger] edges[e]).1 as int], x[edges[e].0 as int]),
            edges[e].2@,
        ) by {
            let c2 = origin[e];
            assert(meets_difference(vars, cs[c2], x));
            let a = edges[e].0 as int;
            let b = edges[e].1 as int;
            if vars[a]@ == cs[c2].from@ && vars[b]@ == cs[c2].to@ && cs[c2].upper == Some(
                edges[e].2,
            ) {
                assert(within_bounds(
                    opt_view(cs[c2].lower),
                    opt_view(cs[c2].upper),
                    rat_sub(x[b], x[a]),
                ));
            } else {
                assert(within_bounds(
                    opt_view(cs[c2].lower),
                    opt_view(cs[c2].upper),
                    rat_sub(x[a], x[b]),
                ));
                lemma_rat_le_neg_flip(cs[c2].lower->0@, x[b], x[a]);
            }
        }
    }
}

/// An assignment meeting every edge is a solution of the network.
proof fn lemma_network_from_edges(
    vars: Seq<TimeVarId>,
    cs: Seq<DifferenceConstraint>,
    edges: Seq<(usize, usize, Q)>,
    x: Seq<(int, int)>,
)
    requires
        valid_values(x, vars.len() as int),
        distinct_names(vars),
        forall|c2: int| 0 <= c2 < cs.len() ==> has_edges(vars, #[trigger] cs[c2], edges),
    ensures
        edges_hold(edges, vars.len() as int, x) ==> satisfies_network(vars, cs, x),
{
    let count = vars.len() as int;
    if edges_hold(edges, count, x) {
        assert forall|c2: int| 0 <= c2 < cs.len() implies meets_difference(
            vars,
            #[trigger] cs[c2],
            x,
        ) by {
            assert(has_edges(vars, cs[c2], edges));
            assert forall|i: int, j: int|
                0 <= i < vars.len() && 0 <= j < vars.len() && #[trigger] vars[i]@
                    == cs[c2].from@ && #[trigger] vars[j]@ == cs[c2].to@ implies within_bounds(
                opt_view(cs[c2].lower),
                opt_view(cs[c2].upper),
                rat_sub(x[j], x[i]),
            ) by {
                if cs[c2].upper is Some {
                    let e = choose|e: int|
                        0 <= e < edges.len() && #[trigger] edges[e].0 < vars.len()
                            && edges[e].1 < vars.len() && vars[edges[e].0 as int]@
                            == cs[c2].from@ && vars[edges[e].1 as int]@ == cs[c2].to@
                            && edges[e].2@ == cs[c2].upper->0@;
                    assert(edges[e].0 as int == i) by {
                        if edges[e].0 as int != i {
                            if (edges[e].0 as int) < i {
                                assert(vars[edges[e].0 as int]@ != vars[i]@);
                            } else {
                                assert(vars[i]@ != vars[edges[e].0 as int]@);
                            }
                        }
                    }
                    assert(edges[e].1 as int == j) by {
                        if edges[e].1 as int != j {
                            if (edges[e].1 as int) < j {
                                assert(vars[edges[e].1 as int]@ != vars[j]@);
                            } else {
                                assert(vars[j]@ != vars[edges[e].1 as int]@);
                            }
                        }
                    }
                }
                if cs[c2].lower is Some {
                    let e = choose|e: int|
                        0 <= e < edges.len() && #[trigger] edges[e].0 < vars.len()
                            && edges[e].1 < vars.len() && vars[edges[e].0 as int]@
                            == cs[c2].to@ && vars[edges[e].1 as int]@ == cs[c2].from@
                            && edges[e].2@ == rat_neg(cs[c2].lower->0@);
                    assert(edges[e].0 as int == j) by {
                        if edges[e].0 as int != j {
                            if (edges[e].0 as int) < j {
                                assert(vars[edges[e].0 as int]@ != vars[j]@);
                            } else {
                                assert(vars[j]@ != vars[edges[e].0 as int]@);
                            }
                        }
                    }
                    assert(edges[e].1 as int == i) by {
                        if edges[e].1 as int != i {
                            if (edges[e].1 as int) < i {
                                assert(vars[edges[e].1 as int]@ != vars[i]@);
                            } else {
                                assert(vars[i]@ != vars[edges[e].1 as int]@);
                            }
                        }
                    }
                    lemma_rat_le_neg_flip(cs[c2].lower->0@, x[i], x[j]);
                }
            }
        }
    }
}

/// Distinct names have distinct positions.
proof fn lemma_same_name(vars: Seq<TimeVarId>, i: int, j: int)
    requires
        distinct_names(vars),
        0 <= i < vars.len(),
        0 <= j < vars.len(),
        vars[i]@ == vars[j]@,
    ensures
        i == j,
{
    if i < j {
        assert(vars[i]@ != vars[j]@);
    } else if j < i {
        assert(vars[j]@ != vars[i]@);
    }
}

/// The distances from the source meet every edge once no cycle is negative.
proof fn lemma_source_row_meets_edges(
    d: Seq<Vec<Option<Q>>>,
    count: int,
    edges: Seq<(usize, usize, Q)>,
    a: Seq<(int, int)>,
)
    requires
        paths_facts(d, count, edges),
        no_negative_diagonal(d, count + 1),
        forall|e: int| 0 <= e < edges.len() ==> (#[trigger] edges[e]).0 < count && edges[e].1 < count,
        a.len() == count,
        forall|v: int| 0 <= v < count ==> #[trigger] cell(d, count, v) == Some(a[v]),
    ensures
        edges_hold(edges, count, a),
{
    assert forall|k: int| 0 <= k < a.len() implies #[trigger] a[k].1 > 0 by {
        lemma_cell_pos(d, count, k);
        assert(cell(d, count, k) == Some(a[k]));
    }
    assert forall|e: int| 0 <= e < edges.len() implies rat_le(
        rat_sub(a[(#[trigger] edges[e]).1 as int], a[edges[e].0 as int]),
        edges[e].2@,
    ) by {
        let f = edges[e].0 as int;
        let t = edges[e].1 as int;
        let w = edges[e].2@;
        assert(triangle(d, count + 1, count + 1));
        assert(bound_le(cell(d, count, t), bound_add(cell(d, count, f), cell(d, f, t))));
        assert(bound_le(cell(d, f, t), Some(w)));
        lemma_cell_pos(d, count, t);
        lemma_cell_pos(d, count, f);
        lemma_cell_pos(d, f, t);
        assert(cell(d, count, f) == Some(a[f]));
        assert(cell(d, count, t) == Some(a[t]));
        lemma_bound_algebra(Some(a[f]), Some(a[f]), Some(a[f]));
        lemma_bound_add(Some(a[f]), Some(a[f]), cell(d, f, t), Some(w));
        lemma_bound_trans(
            cell(d, count, t),
            bound_add(Some(a[f]), cell(d, f, t)),
            bound_add(Some(a[f]), Some(w)),
        );
        lemma_rat_le_sub(w, a[t], a[f]);
    }
}

/// How far an edge from a variable unreachable from `i` into one reachable
/// from `i` needs the unreachable side raised above the source row `y`:
/// `d[i][b] - (y[a] + w)` for the edge `a -> b` of weight `w`.
spec fn shift_term(
    d: Seq<Vec<Option<Q>>>,
    i: int,
    edges: Seq<(usize, usize, Q)>,
    y: Seq<(int, int)>,
    e: int,
) -> Option<(int, int)> {
    let a = edges[e].0 as int;
    let b = edges[e].1 as int;
    if cell(d, i, a) is None && cell(d, i, b) is Some {
        Some(rat_sub(cell(d, i, b)->0, rat_add(y[a], edges[e].2@)))
    } else {
        None
    }
}

/// A single shift that covers the first `n` edges.
proof fn lemma_shift_bound(
    d: Seq<Vec<Option<Q>>>,
    i: int,
    edges: Seq<(usize, usize, Q)>,
    y: Seq<(int, int)>,
    n: int,
) -> (k: (int, int))
    requires
        0 <= n <= edges.len(),
        forall|e: int| 0 <= e < n ==> (#[trigger] shift_term(d, i, edges, y, e) matches Some(t) ==> t.1 > 0),
    ensures
        k.1 > 0,
        k.0 >= 0,
        forall|e: int| 0 <= e < n ==> (#[trigger] shift_term(d, i, edges, y, e) matches Some(t) ==> rat_le(t, k)),
    decreases n,
{
    if n == 0 {
        (0int, 1int)
    } else {
        let k0 = lemma_shift_bound(d, i, edges, y, n - 1);
        match shift_term(d, i, edges, y, n - 1) {
            Some(t) => {
                if rat_le(t, k0) {
                    k0
                } else {
                    assert(rat_le(k0, t));
                    assert(t.0 > 0) by (nonlinear_arith)
                        requires
                            k0.0 >= 0,
                            k0.1 > 0,
                            t.1 > 0,
                            k0.0 * t.1 < t.0 * k0.1,
                    ;
                    assert forall|e: int| 0 <= e < n implies (#[trigger] shift_term(d, i, edges, y, e) matches Some(
                        u,
                    ) ==> rat_le(u, t)) by {
                        if e < n - 1 {
                            if let Some(u) = shift_term(d, i, edges, y, e) {
                                lemma_rat_le_trans(u, k0, t);
                            }
                        }
                    }
                    t
                }
            },
            None => k0,
        }
    }
}

/// An assignment meeting every edge that puts each variable reachable from
/// `i` at its distance from `i`, and each other one at least `lift` above
/// its source-row value. The unreachable ones follow the source row, raised
/// far enough that no edge into the reachable ones is broken.
proof fn lemma_anchored(
    d: Seq<Vec<Option<Q>>>,
    count: int,
    edges: Seq<(usize, usize, Q)>,
    i: int,
    lift: (int, int),
) -> (x: Seq<(int, int)>)
    requires
        paths_facts(d, count, edges),
        no_negative_diagonal(d, count + 1),
        forall|e: int| 0 <= e < edges.len() ==> (#[trigger] edges[e]).0 < count && edges[e].1 < count,
        0 <= i < count,
        lift.0 >= 0,
        lift.1 > 0,
    ensures
        edges_hold(edges, count, x),
        forall|k: int|
            0 <= k < count ==> match cell(d, i, k) {
                Some(v) => #[trigger] x[k] == v,
                None => rat_le(rat_add(cell(d, count, k)->0, lift), x[k]),
            },
{
    let y = Seq::new(count as nat, |k: int| cell(d, count, k)->0);
    assert forall|v: int| 0 <= v < count implies #[trigger] cell(d, count, v) == Some(y[v]) by {
        assert(bound_le(cell(d, count, v), Some((0int, 1int))));
    }
    lemma_source_row_meets_edges(d, count, edges, y);
    assert forall|e: int| 0 <= e < edges.len() implies (#[trigger] shift_term(d, i, edges, y, e) matches Some(
        t,
    ) ==> t.1 > 0) by {
        let a = edges[e].0 as int;
        let b = edges[e].1 as int;
        if let Some(t) = shift_term(d, i, edges, y, e) {
            lemma_cell_pos(d, i, b);
            assert(y[a].1 > 0);
            lemma_den_product(y[a].1, edges[e].2@.1);
            lemma_den_product((cell(d, i, b)->0).1, y[a].1 * edges[e].2@.1);
        }
    }
    let k0 = lemma_shift_bound(d, i, edges, y, edges.len() as int);
    let kk = rat_add(k0, lift);
    lemma_rat_le_add_nonneg(k0, lift);
    lemma_rat_le_add_nonneg(lift, k0);
    let x = Seq::new(
        count as nat,
        |k: int|
            match cell(d, i, k) {
                Some(v) => v,
                None => rat_add(y[k], kk),
            },
    );
    assert forall|k: int| 0 <= k < x.len() implies #[trigger] x[k].1 > 0 by {
        lemma_cell_pos(d, i, k);
        if cell(d, i, k) is None {
            assert(y[k].1 > 0);
            lemma_den_product(y[k].1, kk.1);
        }
    }
    assert(triangle(d, count + 1, count + 1));
    assert forall|e: int| 0 <= e < edges.len() implies rat_le(
        rat_sub(x[(#[trigger] edges[e]).1 as int], x[edges[e].0 as int]),
        edges[e].2@,
    ) by {
        let a = edges[e].0 as int;
        let b = edges[e].1 as int;
        let w = edges[e].2@;
        assert(w.1 > 0);
        assert(bound_le(cell(d, a, b), Some(w)));
        assert(bound_le(cell(d, i, b), bound_add(cell(d, i, a), cell(d, a, b))));
        lemma_cell_pos(d, i, a);
        lemma_cell_pos(d, i, b);
        lemma_cell_pos(d, a, b);
        assert(y[a].1 > 0 && y[b].1 > 0);
        match cell(d, i, a) {
            Some(da) => {
                let dab = cell(d, a, b)->0;
                let db = cell(d, i, b)->0;
                lemma_den_product(da.1, dab.1);
                lemma_rat_le_add(da, da, dab, w);
                lemma_rat_le_trans(db, rat_add(da, dab), rat_add(da, w));
                lemma_rat_le_sub(w, db, da);
                assert(x[a] == da && x[b] == db);
            },
            None => {
                let ya = y[a];
                lemma_den_product(ya.1, kk.1);
                lemma_den_product(ya.1, w.1);
                lemma_rat_add_assoc_comm(ya, w, kk);
                lemma_rat_add_assoc_comm(ya, kk, w);
                lemma_rat_add_assoc_comm(w, kk, w);
                match cell(d, i, b) {
                    Some(db) => {
                        let t = rat_sub(db, rat_add(ya, w));
                        assert(shift_term(d, i, edges, y, e) == Some(t));
                        assert(rat_le(t, k0));
                        lemma_den_product(db.1, rat_add(ya, w).1);
                        lemma_rat_le_trans(t, k0, kk);
                        lemma_rat_le_sub(kk, db, rat_add(ya, w));
                        lemma_rat_le_sub(w, db, rat_add(ya, kk));
                        assert(x[a] == rat_add(ya, kk) && x[b] == db);
                    },
                    None => {
                        let yb = y[b];
                        assert(rat_le(rat_sub(yb, ya), w));
                        lemma_rat_le_sub(w, yb, ya);
                        assert(rat_le(kk, kk));
                        lemma_rat_le_add(yb, rat_add(ya, w), kk, kk);
                        lemma_den_product(yb.1, kk.1);
                        lemma_rat_le_sub(w, rat_add(yb, kk), rat_add(ya, kk));
                        assert(x[a] == rat_add(ya, kk) && x[b] == rat_add(yb, kk));
                    },
                }
            },
        }
    }
    assert forall|k: int| 0 <= k < count implies match cell(d, i, k) {
        Some(v) => #[trigger] x[k] == v,
        None => rat_le(rat_add(cell(d, count, k)->0, lift), x[k]),
    } by {
        if cell(d, i, k) is None {
            assert(y[k] == cell(d, count, k)->0);
            assert(y[k].1 > 0);
            assert(rat_le(y[k], y[k]));
            lemma_rat_le_add(y[k], y[k], lift, kk);
        }
    }
    x
}

/// Every finite distance is attained: some assignment meeting every edge
/// puts `j` exactly `d[i][j]` after `i`.
proof fn lemma_distance_attained(
    d: Seq<Vec<Option<Q>>>,
    count: int,
    edges: Seq<(usize, usize, Q)>,
    i: int,
    j: int,
) -> (x: Seq<(int, int)>)
    requires
        paths_facts(d, count, edges),
        no_negative_diagonal(d, count + 1),
        forall|e: int| 0 <= e < edges.len() ==> (#[trigger] edges[e]).0 < count && edges[e].1 < count,
        0 <= i < count,
        0 <= j < count,
        cell(d, i, j) is Some,
    ensures
        edges_hold(edges, count, x),
        rat_eq(rat_sub(x[j], x[i]), cell(d, i, j)->0),
{
    let x = lemma_anchored(d, count, edges, i, (0int, 1int));
    let v = cell(d, i, i)->0;
    assert(bound_le(cell(d, i, i), Some((0int, 1int))));
    assert(nonneg(cell(d, i, i)));
    lemma_cell_pos(d, i, i);
    assert(v.0 == 0);
    let w = cell(d, i, j)->0;
    lemma_cell_pos(d, i, j);
    assert(x[i] == v && x[j] == w);
    assert((w.0 * v.1 - v.0 * w.1) * w.1 == w.0 * (w.1 * v.1)) by (nonlinear_arith)
        requires
            v.0 == 0,
    ;
    x
}

/// Where `j` cannot be reached from `i`, nothing bounds how far after `i`
/// it may lie: some assignment meeting every edge puts it more than `w`
/// after `i`.
proof fn lemma_distance_unbounded(
    d: Seq<Vec<Option<Q>>>,
    count: int,
    edges: Seq<(usize, usize, Q)>,
    i: int,
    j: int,
    w: (int, int),
) -> (x: Seq<(int, int)>)
    requires
        paths_facts(d, count, edges),
        no_negative_diagonal(d, count + 1),
        forall|e: int| 0 <= e < edges.len() ==> (#[trigger] edges[e]).0 < count && edges[e].1 < count,
        0 <= i < count,
        0 <= j < count,
        cell(d, i, j) is None,
        w.1 > 0,
    ensures
        edges_hold(edges, count, x),
        rat_lt(w, rat_sub(x[j], x[i])),
{
    assert(bound_le(cell(d, count, j), Some((0int, 1int))));
    let yj = cell(d, count, j)->0;
    lemma_cell_pos(d, count, j);
    let r = rat_sub(w, yj);
    lemma_den_product(w.1, yj.1);
    let l0: int = if r.0 >= 0 { r.0 + 1 } else { 1 - r.0 };
    let lift = (l0, 1int);
    let x = lemma_anchored(d, count, edges, i, lift);
    assert(rat_le(rat_add(yj, lift), x[j]));
    assert(r.0 < l0 * r.1) by (nonlinear_arith)
        requires
            r.1 >= 1,
            l0 >= 1,
            l0 > r.0,
    ;
    assert(rat_lt(w, rat_add(yj, lift))) by (nonlinear_arith)
        requires
            r.0 == w.0 * yj.1 - yj.0 * w.1,
            r.1 == w.1 * yj.1,
            r.0 < l0 * r.1,
            lift == (l0, 1int),
    ;
    lemma_den_product(yj.1, 1);
    lemma_rat_lt_le(w, rat_add(yj, lift), x[j]);
    let v = cell(d, i, i)->0;
    assert(bound_le(cell(d, i, i), Some((0int, 1int))));
    assert(nonneg(cell(d, i, i)));
    lemma_cell_pos(d, i, i);
    assert(v.0 == 0);
    assert(x[i] == v);
    let xj = x[j];
    assert(xj.1 > 0);
    assert(rat_lt(w, rat_sub(xj, v))) by (nonlinear_arith)
        requires
            v.0 == 0,
            v.1 > 0,
            w.0 * xj.1 < xj.0 * w.1,
    ;
    x
}

/// `-w < xi - xj` gives `xj - xi < w`.
proof fn lemma_flip_lt(w: (int, int), xi: (int, int), xj: (int, int))
    requires
        xi.1 > 0,
        xj.1 > 0,
        rat_lt(rat_neg(w), rat_sub(xi, xj)),
    ensures
        rat_lt(rat_sub(xj, xi), w),
{
    let p = rat_sub(xi, xj);
    let q = rat_sub(xj, xi);
    assert(q.1 == p.1) by (nonlinear_arith)
        requires
            q.1 == xj.1 * xi.1,
            p.1 == xi.1 * xj.1,
    ;
    assert(q.0 * w.1 < w.0 * q.1) by (nonlinear_arith)
        requires
            (-w.0) * p.1 < p.0 * w.1,
            q.0 == -p.0,
            q.1 == p.1,
    ;
}

/// `a < b <= c` gives `a < c`.
proof fn lemma_rat_lt_le(a: (int, int), b: (int, int), c: (int, int))
    requires
        a.1 > 0,
        b.1 > 0,
        c.1 > 0,
        rat_lt(a, b),
        rat_le(b, c),
    ensures
        rat_lt(a, c),
{
    assert((a.0 * c.1) * b.1 < (c.0 * a.1) * b.1) by (nonlinear_arith)
        requires
            a.0 * b.1 < b.0 * a.1,
            b.0 * c.1 <= c.0 * b.1,
            a.1 > 0,
            c.1 > 0,
    ;
    assert(a.0 * c.1 < c.0 * a.1) by (nonlinear_arith)
        requires
            (a.0 * c.1) * b.1 < (c.0 * a.1) * b.1,
            b.1 > 0,
    ;
}

/// `d` holds the shortest distances of the network's difference graph
/// `edges`, whose edges name declared variables and whose assignments are
/// exactly the network's solutions.
spec fn distances_of(
    d: Seq<Vec<Option<Q>>>,
    variables: Seq<TimeVarId>,
    constraints: Seq<DifferenceConstraint>,
    edges: Seq<(usize, usize, Q)>,
) -> bool {
    &&& paths_facts(d, variables.len() as int, edges)
    &&& forall|e: int|
        0 <= e < edges.len() ==> (#[trigger] edges[e]).0 < variables.len() && edges[e].1 < variables.len()
    &&& forall|x: Seq<(int, int)>|
        valid_values(x, variables.len() as int) ==> (#[trigger] edges_hold(edges, variables.len() as int, x)
            <==> satisfies_network(variables, constraints, x))
}

/// `x` puts `c.to` exactly `c`'s upper bound after `c.from`, where `c` has
/// an upper bound.
pub open spec fn attains_upper(variables: Seq<TimeVarId>, c: DifferenceConstraint, x: Seq<(int, int)>) -> bool {
    opt_view(c.upper) matches Some(u) ==> forall|i: int, j: int|
        0 <= i < variables.len() && 0 <= j < variables.len() && #[trigger] variables[i]@ == c.from@
            && #[trigger] variables[j]@ == c.to@ ==> rat_eq(rat_sub(x[j], x[i]), u)
}

/// `x` puts `c.to` exactly `c`'s lower bound after `c.from`, where `c` has a
/// lower bound.
pub open spec fn attains_lower(variables: Seq<TimeVarId>, c: DifferenceConstraint, x: Seq<(int, int)>) -> bool {
    opt_view(c.lower) matches Some(l) ==> forall|i: int, j: int|
        0 <= i < variables.len() && 0 <= j < variables.len() && #[trigger] variables[i]@ == c.from@
            && #[trigger] variables[j]@ == c.to@ ==> rat_eq(rat_sub(x[j], x[i]), l)
}

/// No smaller upper bound is implied: some solution of the network attains it.
pub open spec fn upper_is_tight(
    variables: Seq<TimeVarId>,
    constraints: Seq<DifferenceConstraint>,
    c: DifferenceConstraint,
) -> bool {
    opt_view(c.upper) is Some ==> exists|x: Seq<(int, int)>|
        satisfies_network(variables, constraints, x) && #[trigger] attains_upper(variables, c, x)
}

/// No larger lower bound is implied: some solution of the network attains it.
pub open spec fn lower_is_tight(
    variables: Seq<TimeVarId>,
    constraints: Seq<DifferenceConstraint>,
    c: DifferenceConstraint,
) -> bool {
    opt_view(c.lower) is Some ==> exists|x: Seq<(int, int)>|
        satisfies_network(variables, constraints, x) && #[trigger] attains_lower(variables, c, x)
}

/// `x` puts `c.to` more than `w` after `c.from`.
pub open spec fn exceeds(variables: Seq<TimeVarId>, c: DifferenceConstraint, x: Seq<(int, int)>, w: (int, int)) -> bool {
    forall|i: int, j: int|
        0 <= i < variables.len() && 0 <= j < variables.len() && #[trigger] variables[i]@ == c.from@
            && #[trigger] variables[j]@ == c.to@ ==> rat_lt(w, rat_sub(x[j], x[i]))
}

/// `x` puts `c.to` less than `w` after `c.from`.
pub open spec fn falls_short(variables: Seq<TimeVarId>, c: DifferenceConstraint, x: Seq<(int, int)>, w: (int, int)) -> bool {
    forall|i: int, j: int|
        0 <= i < variables.len() && 0 <= j < variables.len() && #[trigger] variables[i]@ == c.from@
            && #[trigger] variables[j]@ == c.to@ ==> rat_lt(rat_sub(x[j], x[i]), w)
}

/// Some solution puts `c.to` more than `w` after `c.from`.
pub open spec fn exceeded(
    variables: Seq<TimeVarId>,
    constraints: Seq<DifferenceConstraint>,
    c: DifferenceConstraint,
    w: (int, int),
) -> bool {
    exists|x: Seq<(int, int)>| satisfies_network(variables, constraints, x) && #[trigger] exceeds(variables, c, x, w)
}

/// Some solution puts `c.to` less than `w` after `c.from`.
pub open spec fn undercut(
    variables: Seq<TimeVarId>,
    constraints: Seq<DifferenceConstraint>,
    c: DifferenceConstraint,
    w: (int, int),
) -> bool {
    exists|x: Seq<(int, int)>| satisfies_network(variables, constraints, x) && #[trigger] falls_short(variables, c, x, w)
}

/// Where `c` has no upper bound, none is implied: every candidate is
/// exceeded by some solution.
pub open spec fn absent_upper_is_unbounded(
    variables: Seq<TimeVarId>,
    constraints: Seq<DifferenceConstraint>,
    c: DifferenceConstraint,
) -> bool {
    opt_view(c.upper) is None ==> forall|w: (int, int)| w.1 > 0 ==> #[trigger] exceeded(variables, constraints, c, w)
}

/// Where `c` has no lower bound, none is implied: every candidate is
/// undercut by some solution.
pub open spec fn absent_lower_is_unbounded(
    variables: Seq<TimeVarId>,
    constraints: Seq<DifferenceConstraint>,
    c: DifferenceConstraint,
) -> bool {
    opt_view(c.lower) is None ==> forall|w: (int, int)| w.1 > 0 ==> #[trigger] undercut(variables, constraints, c, w)
}

/// Every solution puts `variables[j]` at most `w` after `variables[i]`.
pub open spec fn bounded_above_by(
    variables: Seq<TimeVarId>,
    constraints: Seq<DifferenceConstraint>,
    i: int,
    j: int,
    w: (int, int),
) -> bool {
    forall|x: Seq<(int, int)>| #[trigger] satisfies_network(variables, constraints, x) ==> rat_le(rat_sub(x[j], x[i]), w)
}

/// Every solution puts `variables[j]` at least `w` after `variables[i]`.
pub open spec fn bounded_below_by(
    variables: Seq<TimeVarId>,
    constraints: Seq<DifferenceConstraint>,
    i: int,
    j: int,
    w: (int, int),
) -> bool {
    forall|x: Seq<(int, int)>| #[trigger] satisfies_network(variables, constraints, x) ==> rat_le(w, rat_sub(x[j], x[i]))
}

/// Some bound in the list runs from `from` to `to`.
pub open spec fn lists_pair(bounds: Seq<DifferenceConstraint>, from: TimeVarId, to: TimeVarId) -> bool {
    exists|b: int| 0 <= b < bounds.len() && (#[trigger] bounds[b]).from@ == from@ && bounds[b].to@ == to@
}

/// Each ordered pair of variables names at most one bound of the list.
pub open spec fn pairs_distinct(bounds: Seq<DifferenceConstraint>) -> bool {
    forall|b1: int, b2: int|
        0 <= b1 < b2 < bounds.len() ==> !((#[trigger] bounds[b1]).from@ == (#[trigger] bounds[b2]).from@
            && bounds[b1].to@ == bounds[b2].to@)
}

/// `p` comes before `(i, j)` in the order of rows, then columns.
spec fn lex_before(p: (int, int), i: int, j: int) -> bool {
    p.0 < i || (p.0 == i && p.1 < j)
}

/// Some recorded pair is `(i, j)`.
spec fn has_origin(origin: Seq<(int, int)>, i: int, j: int) -> bool {
    exists|b: int| 0 <= b < origin.len() && #[trigger] origin[b] == (i, j)
}

proof fn lemma_origin_push(origin: Seq<(int, int)>, p: (int, int), i: int, j: int)
    requires
        has_origin(origin, i, j) || p == (i, j),
    ensures
        has_origin(origin.push(p), i, j),
{
    if has_origin(origin, i, j) {
        let b = choose|b: int| 0 <= b < origin.len() && #[trigger] origin[b] == (i, j);
        assert(origin.push(p)[b] == (i, j));
    } else {
        assert(origin.push(p)[origin.len() as int] == (i, j));
    }
}

impl StpProblem {
    /// Solves the network by all-pairs shortest paths on the difference
    /// graph, with exact weights: a negative cycle is detected as one.
    ///
    /// The assignment is one consistent assignment, not a canonical one: a
    /// difference network fixes distances, not positions.
    pub fn solve(&self) -> (r: Result<TemporalOutcome, TimeError>)
        ensures
            r matches Err(e) ==> e is Overflow,
            r matches Ok(o) ==> o.profile_view() == SolverProfile::SimpleTemporal && (o is Solved
                || o is Inconsistent),
            r matches Ok(TemporalOutcome::Inconsistent { .. }) ==> forall|x: Seq<(int, int)>|
                !satisfies_network(self.variables_view(), self.constraints_view(), x),
            r matches Ok(TemporalOutcome::Solved { exactness, assignment, tight_bounds, .. }) ==> {
                &&& exactness == Exactness::Exact
                &&& names_variables(assignment@, self.variables_view())
                &&& satisfies_network(
                    self.variables_view(),
                    self.constraints_view(),
                    assigned_values(assignment@),
                )
                &&& forall|b: int|
                    0 <= b < tight_bounds@.len() ==> declared(
                        self.variables_view(),
                        (#[trigger] tight_bounds@[b]).from@,
                    ) && declared(self.variables_view(), tight_bounds@[b].to@)
                        && tight_bounds@[b].from@ != tight_bounds@[b].to@
                &&& pairs_distinct(tight_bounds@)
                &&& forall|x: Seq<(int, int)>, b: int|
                    satisfies_network(self.variables_view(), self.constraints_view(), x) && 0 <= b
                        < tight_bounds@.len() ==> #[trigger] meets_difference(
                        self.variables_view(),
                        tight_bounds@[b],
                        x,
                    )
                &&& forall|b: int|
                    0 <= b < tight_bounds@.len() ==> upper_is_tight(
                        self.variables_view(),
                        self.constraints_view(),
                        #[trigger] tight_bounds@[b],
                    ) && lower_is_tight(self.variables_view(), self.constraints_view(), tight_bounds@[b])
                &&& forall|b: int|
                    0 <= b < tight_bounds@.len() ==> (opt_view((#[trigger] tight_bounds@[b]).upper) is Some
                        || opt_view(tight_bounds@[b].lower) is Some) && absent_upper_is_unbounded(
                        self.variables_view(),
                        self.constraints_view(),
                        tight_bounds@[b],
                    ) && absent_lower_is_unbounded(self.variables_view(), self.constraints_view(), tight_bounds@[b])
                &&& forall|i: int, j: int, w: (int, int)|
                    0 <= i < self.variables_view().len() && 0 <= j < self.variables_view().len() && i != j
                        && w.1 > 0 && #[trigger] bounded_above_by(
                        self.variables_view(),
                        self.constraints_view(),
                        i,
                        j,
                        w,
                    ) ==> lists_pair(tight_bounds@, self.variables_view()[i], self.variables_view()[j])
                &&& forall|i: int, j: int, w: (int, int)|
                    0 <= i < self.variables_view().len() && 0 <= j < self.variables_view().len() && i != j
                        && w.1 > 0 && #[trigger] bounded_below_by(
                        self.variables_view(),
                        self.constraints_view(),
                        i,
                        j,
                        w,
                    ) ==> lists_pair(tight_bounds@, self.variables_view()[i], self.variables_view()[j])
            },
            self.variables_view().len() == 0 ==> (r matches Ok(
                TemporalOutcome::Solved { assignment, tight_bounds, .. },
            ) && assignment@.len() == 0 && tight_bounds@.len() == 0),
            forall|grid: int, m: int|
                0 < grid <= i64::MAX && 0 <= m && #[trigger] grid_bounds(self.constraints_view(), grid, m)
                    && doubled(m, (self.variables_view().len() + 1) as nat) <= i64::MAX
                    && self.variables_view().len() < usize::MAX ==> r is Ok,
    {
        proof {
            use_type_invariant(self);
        }
        let count = self.variables.len();
        if count == 0 {
            let assignment: Vec<(TimeVarId, Q)> = Vec::new();
            let tight_bounds: Vec<DifferenceConstraint> = Vec::new();
            proof {
                assert(assigned_values(assignment@) =~= Seq::<(int, int)>::empty());
            }
            return Ok(
                TemporalOutcome::Solved {
                    profile: SolverProfile::SimpleTemporal,
                    exactness: Exactness::Exact,
                    assignment,
                    tight_bounds,
                },
            );
        }
        if count == usize::MAX {
            return Err(TimeError::Overflow);
        }
        let ghost vars = self.variables@;
        let ghost cs = self.constraints@;
        let edges = self.edges();
        let ghost (grid, m) = choose|grid: int, m: int|
            0 < grid <= i64::MAX && 0 <= m && #[trigger] grid_bounds(cs, grid, m) && doubled(m, (count + 1) as nat)
                <= i64::MAX;
        let d = match shortest_paths(count, &edges, Ghost(grid), Ghost(m)) {
            Ok(d) => d,
            Err(e) => {
                return Err(e);
            },
        };
        let n = count + 1;
        let mut t: usize = 0;
        while t < n
            invariant
                n == count + 1,
                count == vars.len(),
                vars == self.variables@,
                cs == self.constraints@,
                self.well_formed(),
                t <= n,
                paths_facts(d@, count as int, edges@),
                forall|x: Seq<(int, int)>|
                    valid_values(x, count as int) ==> (#[trigger] edges_hold(edges@, count as int, x)
                        <==> satisfies_network(vars, cs, x)),
                forall|t2: int| 0 <= t2 < t ==> nonneg(#[trigger] cell(d@, t2, t2)),
            decreases n - t,
        {
            match d[t][t] {
                Some(v) => {
                    if v.is_negative() {
                        proof {
                            assert(cell(d@, t as int, t as int) == Some(v@));
                            assert(t < count);
                            assert forall|x: Seq<(int, int)>| !satisfies_network(vars, cs, x) by {
                                if satisfies_network(vars, cs, x) {
                                    assert(edges_hold(edges@, count as int, x));
                                    assert(bounds_hold(d@, count as int, x));
                                    assert(cell(d@, t as int, t as int) matches Some(w) ==> rat_le(
                                        rat_sub(x[t as int], x[t as int]),
                                        w,
                                    ));
                                    assert(x[t as int].1 > 0);
                                    lemma_rat_sub_self(x[t as int], v@);
                                }
                            }
                        }
                        return Ok(
                            TemporalOutcome::Inconsistent {
                                profile: SolverProfile::SimpleTemporal,
                                witness: self.witness(t),
                            },
                        );
                    }
                },
                None => {},
            }
            t = t + 1;
        }
        let mut assignment: Vec<(TimeVarId, Q)> = Vec::new();
        let mut v: usize = 0;
        while v < count
            invariant
                n == count + 1,
                count == vars.len(),
                vars == self.variables@,
                v <= count,
                paths_facts(d@, count as int, edges@),
                assignment@.len() == v,
                forall|k: int|
                    0 <= k < v ==> (#[trigger] assignment@[k]).0@ == vars[k]@ && cell(
                        d@,
                        count as int,
                        k,
                    ) == Some(assignment@[k].1@),
            decreases count - v,
        {
            proof {
                assert(bound_le(cell(d@, count as int, v as int), Some((0int, 1int))));
            }
            let value = match d[count][v] {
                Some(q) => q,
                None => Q::zero(),
            };
            assignment.push((self.variables[v].clone(), value));
            v = v + 1;
        }
        let ghost a = assigned_values(assignment@);
        proof {
            assert forall|k: int| 0 <= k < count implies #[trigger] cell(d@, count as int, k) == Some(
                a[k],
            ) by {
                assert(cell(d@, count as int, k) == Some(assignment@[k].1@));
            }
            lemma_source_row_meets_edges(d@, count as int, edges@, a);
        }
        proof {
            assert(distances_of(d@, vars, cs, edges@));
        }
        let tight_bounds = self.tight_bounds(&d);
        Ok(
            TemporalOutcome::Solved {
                profile: SolverProfile::SimpleTemporal,
                exactness: Exactness::Exact,
                assignment,
                tight_bounds,
            },
        )
    }

    /// Text naming the variable on a negative cycle.
    fn witness(&self, index: usize) -> (r: String)
        ensures
            index < self.variables_view().len() ==> r@ == "negative cycle through `"@
                + self.variables_view()[index as int]@ + "`"@,
            index >= self.variables_view().len() ==> r@ == "negative cycle in the difference graph"@,
    {
        if index < self.variables.len() {
            let mut text = String::from_str("negative cycle through `");
            text.append(self.variables[index].as_str());
            text.append("`");
            text
        } else {
            String::from_str("negative cycle in the difference graph")
        }
    }

    /// The implied bounds between every ordered pair of distinct variables
    /// that has one.
    fn tight_bounds(&self, d: &Vec<Vec<Option<Q>>>) -> (r: Vec<DifferenceConstraint>)
        requires
            self.well_formed(),
            self.variables@.len() < usize::MAX,
            no_negative_diagonal(d@, self.variables@.len() + 1int),
            exists|edges: Seq<(usize, usize, Q)>|
                #[trigger] distances_of(d@, self.variables@, self.constraints@, edges),
        ensures
            pairs_distinct(r@),
            forall|b: int|
                0 <= b < r@.len() ==> declared(self.variables@, (#[trigger] r@[b]).from@) && declared(
                    self.variables@,
                    r@[b].to@,
                ) && r@[b].from@ != r@[b].to@,
            forall|x: Seq<(int, int)>, b: int|
                satisfies_network(self.variables@, self.constraints@, x) && 0 <= b < r@.len()
                    ==> #[trigger] meets_difference(self.variables@, r@[b], x),
            forall|b: int|
                0 <= b < r@.len() ==> upper_is_tight(self.variables@, self.constraints@, #[trigger] r@[b])
                    && lower_is_tight(self.variables@, self.constraints@, r@[b]),
            forall|b: int|
                0 <= b < r@.len() ==> (opt_view((#[trigger] r@[b]).upper) is Some || opt_view(r@[b].lower) is Some)
                    && absent_upper_is_unbounded(self.variables@, self.constraints@, r@[b])
                    && absent_lower_is_unbounded(self.variables@, self.constraints@, r@[b]),
            forall|i: int, j: int, w: (int, int)|
                0 <= i < self.variables@.len() && 0 <= j < self.variables@.len() && i != j && w.1 > 0
                    && #[trigger] bounded_above_by(self.variables@, self.constraints@, i, j, w) ==> lists_pair(
                    r@,
                    self.variables@[i],
                    self.variables@[j],
                ),
            forall|i: int, j: int, w: (int, int)|
                0 <= i < self.variables@.len() && 0 <= j < self.variables@.len() && i != j && w.1 > 0
                    && #[trigger] bounded_below_by(self.variables@, self.constraints@, i, j, w) ==> lists_pair(
                    r@,
                    self.variables@[i],
                    self.variables@[j],
                ),
    {
        let ghost edges = choose|edges: Seq<(usize, usize, Q)>|
            #[trigger] distances_of(d@, self.variables@, self.constraints@, edges);
        let count = self.variables.len();
        let ghost vars = self.variables@;
        let mut out: Vec<DifferenceConstraint> = Vec::new();
        let ghost mut origin: Seq<(int, int)> = Seq::empty();
        let mut from: usize = 0;
        while from < count
            invariant
                count == vars.len(),
                vars == self.variables@,
                from <= count,
                paths_facts(d@, count as int, edges),
                origin.len() == out@.len(),
                forall|b: int| 0 <= b < origin.len() ==> (#[trigger] origin[b]).0 < from,
                forall|b1: int, b2: int|
                    0 <= b1 < b2 < origin.len() ==> #[trigger] origin[b1] != #[trigger] origin[b2],
                forall|i2: int, j2: int|
                    0 <= i2 < from && 0 <= j2 < count && i2 != j2 && (cell(d@, i2, j2) is Some || cell(
                        d@,
                        j2,
                        i2,
                    ) is Some) ==> #[trigger] has_origin(origin, i2, j2),
                forall|b: int|
                    0 <= b < out@.len() ==> {
                        let (i, j) = #[trigger] origin[b];
                        &&& 0 <= i < count
                        &&& 0 <= j < count
                        &&& i != j
                        &&& (cell(d@, i, j) is Some || cell(d@, j, i) is Some)
                        &&& out@[b].from@ == vars[i]@
                        &&& out@[b].to@ == vars[j]@
                        &&& opt_view(out@[b].upper) == cell(d@, i, j)
                        &&& opt_view(out@[b].lower) == match cell(d@, j, i) {
                            Some(w) => Some(rat_neg(w)),
                            None => None,
                        }
                    },
            decreases count - from,
        {
            let mut to: usize = 0;
            while to < count
                invariant
                    count == vars.len(),
                    vars == self.variables@,
                    from < count,
                    to <= count,
                    paths_facts(d@, count as int, edges),
                    origin.len() == out@.len(),
                    forall|b: int| 0 <= b < origin.len() ==> lex_before(#[trigger] origin[b], from as int, to as int),
                    forall|b1: int, b2: int|
                        0 <= b1 < b2 < origin.len() ==> #[trigger] origin[b1] != #[trigger] origin[b2],
                    forall|i2: int, j2: int|
                        0 <= i2 < count && 0 <= j2 < count && i2 != j2 && (i2 < from || (i2 == from && j2 < to))
                            && (cell(d@, i2, j2) is Some || cell(d@, j2, i2) is Some) ==> #[trigger] has_origin(
                            origin,
                            i2,
                            j2,
                        ),
                    forall|b: int|
                        0 <= b < out@.len() ==> {
                            let (i, j) = #[trigger] origin[b];
                            &&& 0 <= i < count
                            &&& 0 <= j < count
                            &&& i != j
                            &&& (cell(d@, i, j) is Some || cell(d@, j, i) is Some)
                            &&& out@[b].from@ == vars[i]@
                            &&& out@[b].to@ == vars[j]@
                            &&& opt_view(out@[b].upper) == cell(d@, i, j)
                            &&& opt_view(out@[b].lower) == match cell(d@, j, i) {
                                Some(w) => Some(rat_neg(w)),
                                None => None,
                            }
                        },
                decreases count - to,
            {
                if from != to {
                    let upper = d[from][to];
                    let lower = match d[to][from] {
                        Some(q) => Some(q.neg()),
                        None => None,
                    };
                    if upper.is_some() || lower.is_some() {
                        let ghost before = out@;
                        let ghost old_origin = origin;
                        out.push(
                            DifferenceConstraint::between(
                                &self.variables[from],
                                &self.variables[to],
                                lower,
                                upper,
                            ),
                        );
                        proof {
                            let ghost prev = origin;
                            origin = origin.push((from as int, to as int));
                            assert forall|b: int| 0 <= b < origin.len() implies lex_before(
                                #[trigger] origin[b],
                                from as int,
                                to + 1,
                            ) by {
                                if b < prev.len() {
                                    assert(origin[b] == prev[b]);
                                }
                            }
                            assert forall|b1: int, b2: int|
                                0 <= b1 < b2 < origin.len() implies #[trigger] origin[b1] != #[trigger] origin[b2] by {
                                assert(origin[b1] == prev[b1]);
                                if b2 < prev.len() {
                                    assert(origin[b2] == prev[b2]);
                                } else {
                                    assert(lex_before(prev[b1], from as int, to as int));
                                }
                            }
                            assert forall|i2: int, j2: int|
                                0 <= i2 < count && 0 <= j2 < count && i2 != j2 && (i2 < from || (i2 == from && j2
                                    < to + 1)) && (cell(d@, i2, j2) is Some || cell(d@, j2, i2) is Some) implies #[trigger] has_origin(
                                origin,
                                i2,
                                j2,
                            ) by {
                                if i2 == from && j2 == to {
                                    lemma_origin_push(prev, (from as int, to as int), i2, j2);
                                } else {
                                    assert(has_origin(prev, i2, j2));
                                    lemma_origin_push(prev, (from as int, to as int), i2, j2);
                                }
                            }
                            assert forall|b: int| 0 <= b < out@.len() implies {
                                let (i, j) = #[trigger] origin[b];
                                &&& 0 <= i < count
                                &&& 0 <= j < count
                                &&& i != j
                                &&& (cell(d@, i, j) is Some || cell(d@, j, i) is Some)
                                &&& out@[b].from@ == vars[i]@
                                &&& out@[b].to@ == vars[j]@
                                &&& opt_view(out@[b].upper) == cell(d@, i, j)
                                &&& opt_view(out@[b].lower) == match cell(d@, j, i) {
                                    Some(w) => Some(rat_neg(w)),
                                    None => None,
                                }
                            } by {
                                if b < before.len() {
                                    assert(out@[b] == before[b]);
                                    assert(origin[b] == old_origin[b]);
                                }
                            }
                        }
                    }
                }
                to = to + 1;
            }
            from = from + 1;
        }
        proof {
            assert forall|b1: int, b2: int| 0 <= b1 < b2 < out@.len() implies !((#[trigger] out@[b1]).from@
                == (#[trigger] out@[b2]).from@ && out@[b1].to@ == out@[b2].to@) by {
                let (i1, j1) = origin[b1];
                let (i2, j2) = origin[b2];
                if out@[b1].from@ == out@[b2].from@ && out@[b1].to@ == out@[b2].to@ {
                    lemma_same_name(vars, i1, i2);
                    lemma_same_name(vars, j1, j2);
                    assert(origin[b1] != origin[b2]);
                }
            }
            assert forall|b: int| 0 <= b < out@.len() implies declared(
                vars,
                (#[trigger] out@[b]).from@,
            ) && declared(vars, out@[b].to@) && out@[b].from@ != out@[b].to@ by {
                let (i, j) = origin[b];
                assert(vars[i]@ == out@[b].from@);
                assert(vars[j]@ == out@[b].to@);
                if vars[i]@ == vars[j]@ {
                    lemma_same_name(vars, i, j);
                }
            }
            assert forall|x: Seq<(int, int)>, b: int|
                satisfies_network(vars, self.constraints@, x) && 0 <= b < out@.len() implies #[trigger] meets_difference(
                vars,
                out@[b],
                x,
            ) by {
                let (i, j) = origin[b];
                assert(edges_hold(edges, count as int, x));
                assert(bounds_hold(d@, count as int, x));
                assert forall|i2: int, j2: int|
                    0 <= i2 < vars.len() && 0 <= j2 < vars.len() && #[trigger] vars[i2]@
                        == out@[b].from@ && #[trigger] vars[j2]@ == out@[b].to@ implies within_bounds(
                    opt_view(out@[b].lower),
                    opt_view(out@[b].upper),
                    rat_sub(x[j2], x[i2]),
                ) by {
                    lemma_same_name(vars, i, i2);
                    lemma_same_name(vars, j, j2);
                    assert(cell(d@, i, j) matches Some(w) ==> rat_le(rat_sub(x[j], x[i]), w));
                    assert(cell(d@, j, i) matches Some(w) ==> rat_le(rat_sub(x[i], x[j]), w));
                    if cell(d@, j, i) is Some {
                        let w = cell(d@, j, i)->0;
                        lemma_rat_le_neg_flip(rat_neg(w), x[i], x[j]);
                        assert(rat_neg(rat_neg(w)) == w);
                    }
                }
            }
            assert forall|b: int| 0 <= b < out@.len() implies upper_is_tight(
                vars,
                self.constraints@,
                #[trigger] out@[b],
            ) && lower_is_tight(vars, self.constraints@, out@[b]) by {
                let (i, j) = origin[b];
                let c = out@[b];
                if cell(d@, i, j) is Some {
                    let x = lemma_distance_attained(d@, count as int, edges, i, j);
                    assert(valid_values(x, count as int));
                    assert(satisfies_network(vars, self.constraints@, x));
                    assert forall|i2: int, j2: int|
                        0 <= i2 < vars.len() && 0 <= j2 < vars.len() && #[trigger] vars[i2]@ == c.from@
                            && #[trigger] vars[j2]@ == c.to@ implies rat_eq(
                        rat_sub(x[j2], x[i2]),
                        opt_view(c.upper)->0,
                    ) by {
                        lemma_same_name(vars, i, i2);
                        lemma_same_name(vars, j, j2);
                    }
                    assert(attains_upper(vars, c, x));
                } else {
                    assert(attains_upper(vars, c, Seq::empty()));
                    assert(satisfies_network(vars, self.constraints@, Seq::empty()) ==> attains_upper(
                        vars,
                        c,
                        Seq::empty(),
                    ));
                }
                if cell(d@, j, i) is Some {
                    let x = lemma_distance_attained(d@, count as int, edges, j, i);
                    let w = cell(d@, j, i)->0;
                    assert(valid_values(x, count as int));
                    assert(satisfies_network(vars, self.constraints@, x));
                    assert(x[i].1 > 0 && x[j].1 > 0);
                    let p = rat_sub(x[i], x[j]);
                    let q = rat_sub(x[j], x[i]);
                    assert(p.0 * w.1 == w.0 * p.1);
                    assert(q.0 == -p.0);
                    assert(q.1 == p.1) by (nonlinear_arith)
                        requires
                            q.1 == x[j].1 * x[i].1,
                            p.1 == x[i].1 * x[j].1,
                    ;
                    assert(q.0 * w.1 == (-w.0) * q.1) by (nonlinear_arith)
                        requires
                            p.0 * w.1 == w.0 * p.1,
                            q.0 == -p.0,
                            q.1 == p.1,
                    ;
                    assert(rat_eq(q, rat_neg(w)));
                    assert forall|i2: int, j2: int|
                        0 <= i2 < vars.len() && 0 <= j2 < vars.len() && #[trigger] vars[i2]@ == c.from@
                            && #[trigger] vars[j2]@ == c.to@ implies rat_eq(
                        rat_sub(x[j2], x[i2]),
                        opt_view(c.lower)->0,
                    ) by {
                        lemma_same_name(vars, i, i2);
                        lemma_same_name(vars, j, j2);
                    }
                    assert(attains_lower(vars, c, x));
                }
            }
            assert forall|b: int| 0 <= b < out@.len() implies (opt_view((#[trigger] out@[b]).upper) is Some
                || opt_view(out@[b].lower) is Some) && absent_upper_is_unbounded(vars, self.constraints@, out@[b])
                && absent_lower_is_unbounded(vars, self.constraints@, out@[b]) by {
                let (i, j) = origin[b];
                let c = out@[b];
                if cell(d@, i, j) is None {
                    assert forall|w: (int, int)| w.1 > 0 implies #[trigger] exceeded(vars, self.constraints@, c, w) by {
                        let x = lemma_distance_unbounded(d@, count as int, edges, i, j, w);
                        assert(valid_values(x, count as int));
                        assert(satisfies_network(vars, self.constraints@, x));
                        assert forall|i2: int, j2: int|
                            0 <= i2 < vars.len() && 0 <= j2 < vars.len() && #[trigger] vars[i2]@ == c.from@
                                && #[trigger] vars[j2]@ == c.to@ implies rat_lt(w, rat_sub(x[j2], x[i2])) by {
                            lemma_same_name(vars, i, i2);
                            lemma_same_name(vars, j, j2);
                        }
                        assert(exceeds(vars, c, x, w));
                    }
                }
                if cell(d@, j, i) is None {
                    assert forall|w: (int, int)| w.1 > 0 implies #[trigger] undercut(vars, self.constraints@, c, w) by {
                        let x = lemma_distance_unbounded(d@, count as int, edges, j, i, rat_neg(w));
                        assert(valid_values(x, count as int));
                        assert(satisfies_network(vars, self.constraints@, x));
                        lemma_flip_lt(w, x[i], x[j]);
                        assert forall|i2: int, j2: int|
                            0 <= i2 < vars.len() && 0 <= j2 < vars.len() && #[trigger] vars[i2]@ == c.from@
                                && #[trigger] vars[j2]@ == c.to@ implies rat_lt(rat_sub(x[j2], x[i2]), w) by {
                            lemma_same_name(vars, i, i2);
                            lemma_same_name(vars, j, j2);
                        }
                        assert(falls_short(vars, c, x, w));
                    }
                }
            }
            assert forall|i: int, j: int, w: (int, int)|
                0 <= i < vars.len() && 0 <= j < vars.len() && i != j && w.1 > 0 && #[trigger] bounded_above_by(
                    vars,
                    self.constraints@,
                    i,
                    j,
                    w,
                ) implies lists_pair(out@, vars[i], vars[j]) by {
                if cell(d@, i, j) is None {
                    let x = lemma_distance_unbounded(d@, count as int, edges, i, j, w);
                    assert(valid_values(x, count as int));
                    assert(satisfies_network(vars, self.constraints@, x));
                    assert(rat_le(rat_sub(x[j], x[i]), w));
                }
                assert(has_origin(origin, i, j));
                let b = choose|b: int| 0 <= b < origin.len() && #[trigger] origin[b] == (i, j);
                assert(out@[b].from@ == vars[i]@ && out@[b].to@ == vars[j]@);
            }
            assert forall|i: int, j: int, w: (int, int)|
                0 <= i < vars.len() && 0 <= j < vars.len() && i != j && w.1 > 0 && #[trigger] bounded_below_by(
                    vars,
                    self.constraints@,
                    i,
                    j,
                    w,
                ) implies lists_pair(out@, vars[i], vars[j]) by {
                if cell(d@, j, i) is None {
                    let x = lemma_distance_unbounded(d@, count as int, edges, j, i, rat_neg(w));
                    assert(valid_values(x, count as int));
                    assert(satisfies_network(vars, self.constraints@, x));
                    lemma_flip_lt(w, x[i], x[j]);
                    assert(rat_le(w, rat_sub(x[j], x[i])));
                }
                assert(has_origin(origin, i, j));
                let b = choose|b: int| 0 <= b < origin.len() && #[trigger] origin[b] == (i, j);
                assert(out@[b].from@ == vars[i]@ && out@[b].to@ == vars[j]@);
            }
        }
        out
    }
}

/// A list of terms as names and values.
pub open spec fn terms_view(terms: Seq<(TimeVarId, Q)>) -> Seq<(Seq<char>, (int, int))> {
    terms.map_values(|t: (TimeVarId, Q)| (t.0@, t.1@))
}

/// The coefficient a list of terms gives a name: its last non-zero entry for
/// the name, or zero.
pub open spec fn term_value(terms: Seq<(Seq<char>, (int, int))>, name: Seq<char>) -> (int, int)
    decreases terms.len(),
{
    if terms.len() == 0 {
        (0, 1)
    } else if terms.last().0 == name && terms.last().1.0 != 0 {
        terms.last().1
    } else {
        term_value(terms.drop_last(), name)
    }
}

/// Every entry is non-zero and no name occurs twice.
pub open spec fn sparse_terms(terms: Seq<(Seq<char>, (int, int))>) -> bool {
    &&& forall|k: int| 0 <= k < terms.len() ==> (#[trigger] terms[k]).1.0 != 0
    &&& forall|i: int, j: int|
        0 <= i < j < terms.len() ==> (#[trigger] terms[i]).0 != (#[trigger] terms[j]).0
}

/// `c` collects `terms` with bound `bound`: the same coefficient for every
/// name, each non-zero name once.
pub open spec fn collects(
    c: LinearConstraint,
    terms: Seq<(Seq<char>, (int, int))>,
    bound: (int, int),
    strict: bool,
) -> bool {
    &&& sparse_terms(terms_view(c.coefficients@))
    &&& forall|name: Seq<char>|
        #[trigger] term_value(terms_view(c.coefficients@), name) == term_value(terms, name)
    &&& c.bound@ == bound
    &&& c.strict == strict
}

/// A general linear constraint `sum a_i t_i <= b`, strict or not.
///
/// Not a difference bound: the coefficients are arbitrary rationals over any
/// number of variables, which is what a cross-multiplied ratio bound needs.
#[derive(Debug, Clone, PartialEq, Eq)]
pub struct LinearConstraint {
    /// Non-zero coefficients, one per variable.
    pub coefficients: Vec<(TimeVarId, Q)>,
    /// The right-hand side.
    pub bound: Q,
    /// Whether the inequality is strict.
    pub strict: bool,
}

proof fn lemma_term_value_sparse(terms: Seq<(Seq<char>, (int, int))>, name: Seq<char>)
    requires
        sparse_terms(terms),
    ensures
        forall|p: int| 0 <= p < terms.len() && terms[p].0 == name ==> term_value(terms, name) == #[trigger] terms[p].1,
        (forall|p: int| 0 <= p < terms.len() ==> #[trigger] terms[p].0 != name) ==> term_value(terms, name) == (0int, 1int),
    decreases terms.len(),
{
    if terms.len() > 0 {
        let rest = terms.drop_last();
        assert(sparse_terms(rest)) by {
            assert forall|i: int, j: int| 0 <= i < j < rest.len() implies (#[trigger] rest[i]).0 != (#[trigger] rest[j]).0 by {
                assert(rest[i] == terms[i] && rest[j] == terms[j]);
            }
            assert forall|k: int| 0 <= k < rest.len() implies (#[trigger] rest[k]).1.0 != 0 by {
                assert(rest[k] == terms[k]);
            }
        }
        lemma_term_value_sparse(rest, name);
        assert forall|p: int| 0 <= p < terms.len() && terms[p].0 == name implies term_value(terms, name) == #[trigger] terms[p].1 by {
            if p < terms.len() - 1 {
                assert(rest[p] == terms[p]);
                assert(terms[p].0 != terms[terms.len() - 1].0);
            }
        }
        if forall|p: int| 0 <= p < terms.len() ==> #[trigger] terms[p].0 != name {
            assert forall|p: int| 0 <= p < rest.len() implies #[trigger] rest[p].0 != name by {
                assert(rest[p] == terms[p]);
            }
            assert(terms[terms.len() - 1].0 != name);
        }
    }
}

impl LinearConstraint {
    /// `sum a_i t_i <= b`, keeping the last non-zero coefficient given for
    /// each variable.
    pub fn at_most(terms: Vec<(TimeVarId, Q)>, bound: Q) -> (r: LinearConstraint)
        ensures
            collects(r, terms_view(terms@), bound@, false),
    {
        let mut out: Vec<(TimeVarId, Q)> = Vec::new();
        let mut i: usize = 0;
        while i < terms.len()
            invariant
                i <= terms@.len(),
                sparse_terms(terms_view(out@)),
                forall|name: Seq<char>|
                    #[trigger] term_value(terms_view(out@), name) == term_value(
                        terms_view(terms@).take(i as int),
                        name,
                    ),
            decreases terms@.len() - i,
        {
            let ghost before = terms_view(out@);
            let ghost tv = terms_view(terms@);
            proof {
                assert(tv.take(i + 1).drop_last() =~= tv.take(i as int));
                assert(tv.take(i + 1).last() == tv[i as int]);
            }
            let name = &terms[i].0;
            let value = terms[i].1;
            if !value.is_zero() {
                let position = term_position(&out, name);
                if let Some(p) = position {
                    let entry = (out[p].0.clone(), value);
                    out.set(p, entry);
                    proof {
                        let after = terms_view(out@);
                        assert(after =~= before.update(p as int, (name@, value@)));
                        assert(sparse_terms(after)) by {
                            assert forall|a: int, b: int| 0 <= a < b < after.len() implies (#[trigger] after[a]).0 != (#[trigger] after[b]).0 by {
                                assert(after[a].0 == before[a].0 && after[b].0 == before[b].0);
                            }
                        }
                        assert forall|nm: Seq<char>| #[trigger] term_value(after, nm) == term_value(tv.take(i + 1), nm) by {
                            lemma_term_value_sparse(before, nm);
                            lemma_term_value_sparse(after, nm);
                            if nm != name@ {
                                if exists|q: int| 0 <= q < before.len() && #[trigger] before[q].0 == nm {
                                    let q = choose|q: int| 0 <= q < before.len() && #[trigger] before[q].0 == nm;
                                    assert(after[q] == before[q]);
                                } else {
                                    assert forall|q: int| 0 <= q < after.len() implies #[trigger] after[q].0 != nm by {
                                        assert(after[q].0 == before[q].0);
                                    }
                                }
                            } else {
                                assert(after[p as int].0 == nm);
                            }
                        }
                    }
                } else {
                    out.push((name.clone(), value));
                    proof {
                        let after = terms_view(out@);
                        assert(after =~= before.push((name@, value@)));
                        assert(after.drop_last() =~= before);
                        assert(after.last() == (name@, value@));
                        assert(tv[i as int] == (name@, value@));
                        assert(value@.0 != 0);
                        assert(sparse_terms(after)) by {
                            assert forall|a: int, b: int| 0 <= a < b < after.len() implies (#[trigger] after[a]).0 != (#[trigger] after[b]).0 by {
                                if b == after.len() - 1 {
                                    assert(after[a] == before[a]);
                                    assert(out@[a].0@ != name@);
                                } else {
                                    assert(after[a] == before[a] && after[b] == before[b]);
                                }
                            }
                            assert forall|k: int| 0 <= k < after.len() implies (#[trigger] after[k]).1.0 != 0 by {
                                if k < before.len() {
                                    assert(after[k] == before[k]);
                                }
                            }
                        }
                        assert forall|nm: Seq<char>| #[trigger] term_value(after, nm) == term_value(tv.take(i + 1), nm) by {
                            assert(term_value(before, nm) == term_value(tv.take(i as int), nm));
                        }
                    }
                }
            } else {
                proof {
                    assert forall|nm: Seq<char>| #[trigger] term_value(terms_view(out@), nm) == term_value(tv.take(i + 1), nm) by {
                        assert(term_value(terms_view(out@), nm) == term_value(tv.take(i as int), nm));
                    }
                }
            }
            i = i + 1;
        }
        proof {
            assert(terms_view(terms@).take(terms@.len() as int) =~= terms_view(terms@));
        }
        LinearConstraint { coefficients: out, bound, strict: false }
    }

    /// `sum a_i t_i < b`.
    pub fn less_than(terms: Vec<(TimeVarId, Q)>, bound: Q) -> (r: LinearConstraint)
        ensures
            collects(r, terms_view(terms@), bound@, true),
    {
        let mut constraint = Self::at_most(terms, bound);
        constraint.strict = true;
        constraint
    }
}

/// The position of a variable's term.
fn term_position(terms: &Vec<(TimeVarId, Q)>, name: &TimeVarId) -> (r: Option<usize>)
    ensures
        r matches Some(p) ==> p < terms@.len() && terms@[p as int].0@ == name@,
        r is None ==> forall|k: int| 0 <= k < terms@.len() ==> (#[trigger] terms@[k]).0@ != name@,
{
    let mut p: usize = 0;
    while p < terms.len()
        invariant
            p <= terms@.len(),
            forall|k: int| 0 <= k < p ==> (#[trigger] terms@[k]).0@ != name@,
        decreases terms@.len() - p,
    {
        if terms[p].0.same(name) {
            return Some(p);
        }
        p = p + 1;
    }
    None
}

/// A bounded ratio constraint on three events:
/// `lower <= (t_later - t_middle) / (t_middle - t_earlier) <= upper`, under
/// the condition `t_middle - t_earlier > 0`.
///
/// After cross-multiplication this touches three variables with non-unit
/// coefficients, so it is never a difference-bound edge.
#[derive(Debug, Clone, PartialEq, Eq)]
pub struct RatioConstraint {
    /// The first event.
    pub earlier: TimeVarId,
    /// The middle event, whose distance from `earlier` is the denominator.
    pub middle: TimeVarId,
    /// The last event.
    pub later: TimeVarId,
    /// The lower bound on the ratio.
    pub lower: Q,
    /// The upper bound on the ratio.
    pub upper: Q,
}

/// How the positive-denominator condition of a ratio constraint is handled.
#[derive(Debug, Clone, PartialEq, Eq)]
pub enum PositivityHandling {
    /// Keep `t_middle - t_earlier > 0` as a strict inequality; the only
    /// choice that does not change the feasible set.
    StrictInequality,
    /// Replace it by `t_middle - t_earlier >= delta`, with the justification
    /// that licenses the substitution.
    JustifiedDelta {
        /// The lower bound.
        delta: Q,
        /// Why the model or source licenses it.
        justification: String,
    },
}

impl PositivityHandling {
    /// Whether this is the strict handling.
    pub fn is_strict(&self) -> (r: bool)
        ensures
            r == (self is StrictInequality),
    {
        match self {
            PositivityHandling::StrictInequality => true,
            _ => false,
        }
    }
}

/// A reference to an external temporal predicate: typed data with a
/// declared evaluation contract, never executable code.
#[derive(Debug, Clone, PartialEq, Eq)]
pub struct ExternalPredicate {
    /// Stable identity of this predicate instance.
    pub id: String,
    /// The predicate type, which names its declared semantics.
    pub predicate_type: String,
    /// The evaluation contract: what an evaluator must guarantee.
    pub contract: String,
    /// Declared parameters, as data.
    pub parameters: Vec<(String, String)>,
}

/// Something able to decide an external predicate at solve time.
///
/// Implemented by an application. An evaluator may return `None`, meaning
/// that it cannot decide now; the solver then reports the predicate as a
/// residual condition.
pub trait PredicateEvaluator {
    /// Decides a predicate, or declines to.
    fn evaluate(&self, predicate: &ExternalPredicate) -> Option<bool>;
}

/// The default number of intermediate constraints elimination may produce.
pub const DEFAULT_ELIMINATION_BUDGET: usize = 20000;

/// A linear temporal problem, decided by exact Fourier-Motzkin elimination,
/// which carries strict inequalities through the arithmetic.
pub struct LinearTemporalProblem {
    variables: Vec<TimeVarId>,
    constraints: Vec<LinearConstraint>,
    positivity: PositivityHandling,
    budget: usize,
}

/// Every coefficient of every constraint names a declared variable.
pub open spec fn coefficients_declared(variables: Seq<TimeVarId>, c: LinearConstraint) -> bool {
    forall|k: int|
        0 <= k < c.coefficients@.len() ==> declared(variables, (#[trigger] c.coefficients@[k]).0@)
}

/// The spec terms `(to, 1), (from, -1)`.
pub open spec fn difference_terms(from: Seq<char>, to: Seq<char>) -> Seq<(Seq<char>, (int, int))> {
    seq![(to, (1int, 1int)), (from, (-1int, 1int))]
}

impl LinearTemporalProblem {
    /// No variable is declared twice and every coefficient names a declared
    /// variable.
    #[verifier::type_invariant]
    spec fn invariant_holds(self) -> bool {
        self.well_formed()
    }

    pub closed spec fn well_formed(&self) -> bool {
        &&& distinct_names(self.variables@)
        &&& forall|c: int|
            0 <= c < self.constraints@.len() ==> coefficients_declared(
                self.variables@,
                #[trigger] self.constraints@[c],
            )
    }

    /// The declared variables.
    pub closed spec fn variables_view(&self) -> Seq<TimeVarId> {
        self.variables@
    }

    /// The accumulated constraints.
    pub closed spec fn constraints_view(&self) -> Seq<LinearConstraint> {
        self.constraints@
    }

    /// The declared positivity handling.
    pub closed spec fn positivity_view(&self) -> PositivityHandling {
        self.positivity
    }

    /// The elimination budget.
    pub closed spec fn budget_view(&self) -> usize {
        self.budget
    }

    /// An empty problem, preserving strict inequalities.
    pub fn new() -> (r: LinearTemporalProblem)
        ensures
            r.well_formed(),
            r.variables_view().len() == 0,
            r.constraints_view().len() == 0,
            r.positivity_view() is StrictInequality,
            r.budget_view() == DEFAULT_ELIMINATION_BUDGET,
    {
        LinearTemporalProblem {
            variables: Vec::new(),
            constraints: Vec::new(),
            positivity: PositivityHandling::StrictInequality,
            budget: DEFAULT_ELIMINATION_BUDGET,
        }
    }

    /// Declares how the positive-denominator condition is handled.
    pub fn with_positivity(self, positivity: PositivityHandling) -> (r: LinearTemporalProblem)
        ensures
            r.well_formed(),
            r.variables_view() == self.variables_view(),
            r.constraints_view() == self.constraints_view(),
            r.positivity_view() == positivity,
            r.budget_view() == self.budget_view(),
    {
        proof {
            use_type_invariant(&self);
        }
        LinearTemporalProblem { positivity, ..self }
    }

    /// Sets the elimination budget.
    pub fn with_budget(self, budget: usize) -> (r: LinearTemporalProblem)
        ensures
            r.well_formed(),
            r.variables_view() == self.variables_view(),
            r.constraints_view() == self.constraints_view(),
            r.positivity_view() == self.positivity_view(),
            r.budget_view() == budget,
    {
        proof {
            use_type_invariant(&self);
        }
        LinearTemporalProblem { budget, ..self }
    }

    /// How the positive-denominator condition is handled.
    pub fn positivity(&self) -> (r: &PositivityHandling)
        ensures
            *r == self.positivity_view(),
    {
        &self.positivity
    }

    /// Declares a variable; declaring it again changes nothing.
    pub fn variable(&mut self, id: &str) -> (r: TimeVarId)
        ensures
            r@ == id@,
            final(self).constraints_view() == old(self).constraints_view(),
            final(self).positivity_view() == old(self).positivity_view(),
            final(self).budget_view() == old(self).budget_view(),
            declared(old(self).variables_view(), id@) ==> final(self).variables_view() == old(
                self,
            ).variables_view(),
            !declared(old(self).variables_view(), id@) ==> names(final(self).variables_view())
                == names(old(self).variables_view()).push(id@),
    {
        proof {
            use_type_invariant(&*self);
        }
        let variable = TimeVarId::new(id);
        let found = index_of(&self.variables, &variable);
        if found.is_none() {
            let ghost before = self.variables@;
            let mut taken = LinearTemporalProblem::new();
            std::mem::swap(&mut taken, self);
            let LinearTemporalProblem { mut variables, constraints, positivity, budget } = taken;
            variables.push(variable.clone());
            proof {
                assert(names(variables@) =~= names(before).push(id@));
                assert forall|c: int| 0 <= c < constraints@.len() implies coefficients_declared(
                    variables@,
                    #[trigger] constraints@[c],
                ) by {
                    assert(coefficients_declared(before, constraints@[c]));
                    assert forall|k: int| 0 <= k < constraints@[c].coefficients@.len() implies declared(
                        variables@,
                        (#[trigger] constraints@[c].coefficients@[k]).0@,
                    ) by {
                        let a = choose|i: int|
                            0 <= i < before.len() && #[trigger] before[i]@
                                == constraints@[c].coefficients@[k].0@;
                        assert(variables@[a] == before[a]);
                    }
                }
            }
            *self = LinearTemporalProblem { variables, constraints, positivity, budget };
        }
        variable
    }

    /// The declared variables.
    pub fn variables(&self) -> (r: &[TimeVarId])
        ensures
            r@ == self.variables_view(),
    {
        self.variables.as_slice()
    }

    /// The accumulated linear constraints.
    pub fn constraints(&self) -> (r: &[LinearConstraint])
        ensures
            r@ == self.constraints_view(),
    {
        self.constraints.as_slice()
    }

    /// Adds a linear constraint whose variables are all declared; otherwise
    /// reports the first undeclared one.
    pub fn constrain(&mut self, constraint: LinearConstraint) -> (r: Result<(), TimeError>)
        ensures
            final(self).variables_view() == old(self).variables_view(),
            final(self).positivity_view() == old(self).positivity_view(),
            final(self).budget_view() == old(self).budget_view(),
            r is Ok <==> coefficients_declared(old(self).variables_view(), constraint),
            r is Ok ==> final(self).constraints_view() == old(self).constraints_view().push(
                constraint,
            ),
            r is Err ==> final(self).constraints_view() == old(self).constraints_view(),
            r matches Err(e) ==> exists|k: int|
                0 <= k < constraint.coefficients@.len() && !declared(
                    old(self).variables_view(),
                    (#[trigger] constraint.coefficients@[k]).0@,
                ) && (forall|k2: int|
                    0 <= k2 < k ==> declared(
                        old(self).variables_view(),
                        (#[trigger] constraint.coefficients@[k2]).0@,
                    )) && (e matches TimeError::UnknownTimeVariable { variable } && variable@
                    == constraint.coefficients@[k].0@),
    {
        proof {
            use_type_invariant(&*self);
        }
        let mut k: usize = 0;
        while k < constraint.coefficients.len()
            invariant
                self.well_formed(),
                self.variables@ == old(self).variables@,
                self.constraints@ == old(self).constraints@,
                self.positivity == old(self).positivity,
                self.budget == old(self).budget,
                k <= constraint.coefficients@.len(),
                forall|k2: int|
                    0 <= k2 < k ==> declared(
                        self.variables@,
                        (#[trigger] constraint.coefficients@[k2]).0@,
                    ),
            decreases constraint.coefficients@.len() - k,
        {
            if index_of(&self.variables, &constraint.coefficients[k].0).is_none() {
                let name = constraint.coefficients[k].0.to_text();
                return Err(TimeError::UnknownTimeVariable { variable: name });
            }
            k = k + 1;
        }
        let ghost before = self.constraints@;
        let mut taken = LinearTemporalProblem::new();
        std::mem::swap(&mut taken, self);
        let LinearTemporalProblem { variables, mut constraints, positivity, budget } = taken;
        constraints.push(constraint);
        proof {
            assert forall|c: int| 0 <= c < constraints@.len() implies coefficients_declared(
                variables@,
                #[trigger] constraints@[c],
            ) by {
                if c < before.len() {
                    assert(constraints@[c] == before[c]);
                }
            }
        }
        *self = LinearTemporalProblem { variables, constraints, positivity, budget };
        Ok(())
    }

    /// Adds a difference bound, as one linear constraint per present bound:
    /// `t_to - t_from <= upper` and `t_from - t_to <= -lower`.
    pub fn constrain_difference(&mut self, constraint: &DifferenceConstraint) -> (r: Result<
        (),
        TimeError,
    >)
        ensures
            final(self).variables_view() == old(self).variables_view(),
            final(self).positivity_view() == old(self).positivity_view(),
            final(self).budget_view() == old(self).budget_view(),
            r matches Err(e) ==> e is UnknownTimeVariable,
            r is Err ==> final(self).constraints_view() == old(self).constraints_view(),
            r is Ok <==> (constraint.upper is None && constraint.lower is None) || (declared(
                old(self).variables_view(),
                constraint.from@,
            ) && declared(old(self).variables_view(), constraint.to@)),
            r is Ok ==> {
                let added = final(self).constraints_view().skip(
                    old(self).constraints_view().len() as int,
                );
                &&& final(self).constraints_view().take(old(self).constraints_view().len() as int)
                    == old(self).constraints_view()
                &&& added.len() == (if constraint.upper is Some {
                    1int
                } else {
                    0
                }) + (if constraint.lower is Some {
                    1int
                } else {
                    0
                })
                &&& (constraint.upper matches Some(u) ==> collects(
                    added[0],
                    difference_terms(constraint.from@, constraint.to@),
                    u@,
                    false,
                ))
                &&& (constraint.lower matches Some(l) ==> collects(
                    added.last(),
                    difference_terms(constraint.to@, constraint.from@),
                    rat_neg(l@),
                    false,
                ))
            },
    {
        proof {
            use_type_invariant(&*self);
        }
        let ghost start = self.constraints@;
        let one = Q::one();
        let minus_one = one.neg();
        match constraint.upper {
            Some(upper) => {
                let terms = vec![(constraint.to.clone(), one), (constraint.from.clone(), minus_one)];
                proof {
                    assert(terms_view(terms@) =~= difference_terms(constraint.from@, constraint.to@));
                }
                let c = LinearConstraint::at_most(terms, upper);
                proof {
                    lemma_difference_terms_declared(self.variables@, c, constraint.from@, constraint.to@);
                }
                match self.constrain(c) {
                    Ok(()) => {},
                    Err(e) => {
                        return Err(e);
                    },
                }
            },
            None => {},
        }
        let ghost middle = self.constraints@;
        match constraint.lower {
            Some(lower) => {
                let terms = vec![(constraint.from.clone(), one), (constraint.to.clone(), minus_one)];
                proof {
                    assert(terms_view(terms@) =~= difference_terms(constraint.to@, constraint.from@));
                }
                let c = LinearConstraint::at_most(terms, lower.neg());
                proof {
                    lemma_difference_terms_declared(self.variables@, c, constraint.to@, constraint.from@);
                }
                match self.constrain(c) {
                    Ok(()) => {},
                    Err(e) => {
                        return Err(e);
                    },
                }
            },
            None => {},
        }
        proof {
            let added = self.constraints@.skip(start.len() as int);
            assert(self.constraints@.take(start.len() as int) =~= start);
            if constraint.upper is Some {
                assert(added[0] == middle[start.len() as int]);
            }
        }
        Ok(())
    }
}

/// The coefficients of a constraint collected from `(to, 1), (from, -1)` are
/// all declared exactly when both endpoints are.
proof fn lemma_difference_terms_declared(
    vars: Seq<TimeVarId>,
    c: LinearConstraint,
    from: Seq<char>,
    to: Seq<char>,
)
    requires
        sparse_terms(terms_view(c.coefficients@)),
        forall|name: Seq<char>|
            #[trigger] term_value(terms_view(c.coefficients@), name) == term_value(
                difference_terms(from, to),
                name,
            ),
    ensures
        coefficients_declared(vars, c) <==> declared(vars, from) && declared(vars, to),
{
    reveal_with_fuel(term_value, 3);
    let tv = terms_view(c.coefficients@);
    let dt = difference_terms(from, to);
    assert(dt.drop_last() =~= seq![(to, (1int, 1int))]);
    assert(dt.drop_last().drop_last() =~= Seq::<(Seq<char>, (int, int))>::empty());
    lemma_term_value_sparse(tv, from);
    lemma_term_value_sparse(tv, to);
    assert(term_value(dt, from) != (0int, 1int));
    assert(term_value(dt, to) != (0int, 1int));
    // every term of `c` names `from` or `to`
    assert forall|k: int| 0 <= k < tv.len() implies (#[trigger] tv[k]).0 == from || tv[k].0 == to by {
        lemma_term_value_sparse(tv, tv[k].0);
        assert(term_value(tv, tv[k].0) == tv[k].1);
        if tv[k].0 != from && tv[k].0 != to {
            assert(term_value(dt, tv[k].0) == (0int, 1int));
        }
    }
    let pf = choose|p: int| 0 <= p < tv.len() && #[trigger] tv[p].0 == from;
    let pt = choose|p: int| 0 <= p < tv.len() && #[trigger] tv[p].0 == to;
    assert(exists|p: int| 0 <= p < tv.len() && #[trigger] tv[p].0 == from);
    assert(exists|p: int| 0 <= p < tv.len() && #[trigger] tv[p].0 == to);
    if coefficients_declared(vars, c) {
        assert(c.coefficients@[pf].0@ == from);
        assert(c.coefficients@[pt].0@ == to);
    }
    if declared(vars, from) && declared(vars, to) {
        assert forall|k: int| 0 <= k < c.coefficients@.len() implies declared(
            vars,
            (#[trigger] c.coefficients@[k]).0@,
        ) by {
            assert(tv[k].0 == c.coefficients@[k].0@);
        }
    }
}

/// Every name given a non-zero coefficient is declared.
pub open spec fn terms_declared(variables: Seq<TimeVarId>, terms: Seq<(Seq<char>, (int, int))>) -> bool {
    forall|name: Seq<char>| (#[trigger] term_value(terms, name)).0 != 0 ==> declared(variables, name)
}

/// A constraint's coefficients are declared exactly when the terms it
/// collects are.
proof fn lemma_collects_declared(
    vars: Seq<TimeVarId>,
    c: LinearConstraint,
    terms: Seq<(Seq<char>, (int, int))>,
)
    requires
        sparse_terms(terms_view(c.coefficients@)),
        forall|name: Seq<char>|
            #[trigger] term_value(terms_view(c.coefficients@), name) == term_value(terms, name),
    ensures
        coefficients_declared(vars, c) <==> terms_declared(vars, terms),
{
    let tv = terms_view(c.coefficients@);
    if coefficients_declared(vars, c) {
        assert forall|name: Seq<char>| (#[trigger] term_value(terms, name)).0 != 0 implies declared(
            vars,
            name,
        ) by {
            lemma_term_value_sparse(tv, name);
            assert(term_value(tv, name) == term_value(terms, name));
            let p = choose|p: int| 0 <= p < tv.len() && #[trigger] tv[p].0 == name;
            assert(c.coefficients@[p].0@ == name);
        }
    }
    if terms_declared(vars, terms) {
        assert forall|k: int| 0 <= k < c.coefficients@.len() implies declared(
            vars,
            (#[trigger] c.coefficients@[k]).0@,
        ) by {
            lemma_term_value_sparse(tv, tv[k].0);
            assert(term_value(tv, tv[k].0) == tv[k].1);
            assert(term_value(terms, tv[k].0).0 != 0);
        }
    }
}

/// The terms of the three constraints a ratio bound becomes: the lower
/// bound, the upper bound, and the positive denominator.
pub open spec fn ratio_terms(
    ratio: RatioConstraint,
    positivity: PositivityHandling,
    which: int,
) -> (Seq<(Seq<char>, (int, int))>, (int, int), bool) {
    if which == 0 {
        (
            seq![
                (ratio.earlier@, rat_neg(ratio.lower@)),
                (ratio.middle@, reduce(rat_add(ratio.lower@, (1int, 1int)))),
                (ratio.later@, (-1int, 1int)),
            ],
            (0int, 1int),
            false,
        )
    } else if which == 1 {
        (
            seq![
                (ratio.earlier@, ratio.upper@),
                (ratio.middle@, rat_neg(reduce(rat_add(ratio.upper@, (1int, 1int))))),
                (ratio.later@, (1int, 1int)),
            ],
            (0int, 1int),
            false,
        )
    } else {
        (
            seq![(ratio.earlier@, (1int, 1int)), (ratio.middle@, (-1int, 1int))],
            match positivity {
                PositivityHandling::StrictInequality => (0int, 1int),
                PositivityHandling::JustifiedDelta { delta, .. } => rat_neg(delta@),
            },
            positivity is StrictInequality,
        )
    }
}

/// `c` is the constraint number `which` of a ratio bound.
pub open spec fn ratio_part(
    c: LinearConstraint,
    ratio: RatioConstraint,
    positivity: PositivityHandling,
    which: int,
) -> bool {
    let (terms, bound, strict) = ratio_terms(ratio, positivity, which);
    collects(c, terms, bound, strict)
}

impl LinearTemporalProblem {
    /// Adds one collected constraint, reporting what it needs declared.
    fn push_collected(
        &mut self,
        c: LinearConstraint,
        Ghost(terms): Ghost<Seq<(Seq<char>, (int, int))>>,
        Ghost(bound): Ghost<(int, int)>,
        Ghost(strict): Ghost<bool>,
    ) -> (r: Result<(), TimeError>)
        requires
            old(self).well_formed(),
            collects(c, terms, bound, strict),
        ensures
            final(self).well_formed(),
            final(self).variables_view() == old(self).variables_view(),
            final(self).positivity_view() == old(self).positivity_view(),
            final(self).budget_view() == old(self).budget_view(),
            r is Ok <==> terms_declared(old(self).variables_view(), terms),
            r is Ok ==> final(self).constraints_view() == old(self).constraints_view().push(c),
            r is Err ==> final(self).constraints_view() == old(self).constraints_view(),
            r matches Err(e) ==> e is UnknownTimeVariable,
    {
        proof {
            lemma_collects_declared(self.variables@, c, terms);
        }
        self.constrain(c)
    }

    /// Cross-multiplies a ratio bound into three linear constraints: the two
    /// bounds, and the positive-denominator condition in the declared form.
    pub fn constrain_ratio(&mut self, ratio: &RatioConstraint) -> (r: Result<(), TimeError>)
        ensures
            final(self).variables_view() == old(self).variables_view(),
            final(self).positivity_view() == old(self).positivity_view(),
            final(self).budget_view() == old(self).budget_view(),
            (r == Err::<(), TimeError>(TimeError::Overflow)) <==> !fits(
                reduce(rat_add(ratio.lower@, (1int, 1int))),
            ) || !fits(reduce(rat_add(ratio.upper@, (1int, 1int)))),
            r == Err::<(), TimeError>(TimeError::Overflow) ==> final(self).constraints_view() == old(
                self,
            ).constraints_view(),
            r matches Err(e) ==> e is Overflow || e is UnknownTimeVariable,
            r is Ok <==> fits(reduce(rat_add(ratio.lower@, (1int, 1int)))) && fits(
                reduce(rat_add(ratio.upper@, (1int, 1int))),
            ) && forall|which: int|
                0 <= which < 3 ==> terms_declared(
                    old(self).variables_view(),
                    #[trigger] ratio_terms(*ratio, old(self).positivity_view(), which).0,
                ),
            ({
                let added = final(self).constraints_view().skip(
                    old(self).constraints_view().len() as int,
                );
                &&& final(self).constraints_view().take(old(self).constraints_view().len() as int)
                    == old(self).constraints_view()
                &&& added.len() <= 3
                &&& r is Ok ==> added.len() == 3
                &&& forall|which: int|
                    0 <= which < added.len() ==> ratio_part(
                        #[trigger] added[which],
                        *ratio,
                        old(self).positivity_view(),
                        which,
                    )
            }),
    {
        proof {
            use_type_invariant(&*self);
        }
        let ghost start = self.constraints@;
        let ghost positivity = self.positivity;
        let one = Q::one();
        let minus_one = one.neg();
        let lower_plus = match ratio.lower.checked_add(&one) {
            Some(v) => v,
            None => {
                proof {
                    assert(self.constraints@.skip(start.len() as int) =~= Seq::<LinearConstraint>::empty());
                    assert(self.constraints@.take(start.len() as int) =~= start);
                }
                return Err(TimeError::Overflow);
            },
        };
        let upper_plus = match ratio.upper.checked_add(&one) {
            Some(v) => v,
            None => {
                proof {
                    assert(self.constraints@.skip(start.len() as int) =~= Seq::<LinearConstraint>::empty());
                    assert(self.constraints@.take(start.len() as int) =~= start);
                }
                return Err(TimeError::Overflow);
            },
        };
        let zero = Q::zero();
        let first_terms = vec![
            (ratio.earlier.clone(), ratio.lower.neg()),
            (ratio.middle.clone(), lower_plus),
            (ratio.later.clone(), minus_one),
        ];
        proof {
            assert(terms_view(first_terms@) =~= ratio_terms(*ratio, positivity, 0).0);
        }
        let first = LinearConstraint::at_most(first_terms, zero);
        let second_terms = vec![
            (ratio.earlier.clone(), ratio.upper),
            (ratio.middle.clone(), upper_plus.neg()),
            (ratio.later.clone(), one),
        ];
        proof {
            assert(terms_view(second_terms@) =~= ratio_terms(*ratio, positivity, 1).0);
        }
        let second = LinearConstraint::at_most(second_terms, zero);
        let third_terms = vec![(ratio.earlier.clone(), one), (ratio.middle.clone(), minus_one)];
        proof {
            assert(terms_view(third_terms@) =~= ratio_terms(*ratio, positivity, 2).0);
        }
        let third = match &self.positivity {
            PositivityHandling::StrictInequality => LinearConstraint::less_than(third_terms, zero),
            PositivityHandling::JustifiedDelta { delta, .. } => LinearConstraint::at_most(
                third_terms,
                delta.neg(),
            ),
        };
        let ghost t0 = ratio_terms(*ratio, positivity, 0);
        let ghost t1 = ratio_terms(*ratio, positivity, 1);
        let ghost t2 = ratio_terms(*ratio, positivity, 2);
        let step = self.push_collected(first, Ghost(t0.0), Ghost(t0.1), Ghost(t0.2));
        if step.is_err() {
            proof {
                assert(self.constraints@.skip(start.len() as int) =~= Seq::<LinearConstraint>::empty());
                assert(self.constraints@.take(start.len() as int) =~= start);
            }
            return step;
        }
        let ghost after_first = self.constraints@;
        let step = self.push_collected(second, Ghost(t1.0), Ghost(t1.1), Ghost(t1.2));
        if step.is_err() {
            proof {
                assert(self.constraints@.skip(start.len() as int) =~= seq![first]);
                assert(self.constraints@.take(start.len() as int) =~= start);
            }
            return step;
        }
        let step = self.push_collected(third, Ghost(t2.0), Ghost(t2.1), Ghost(t2.2));
        if step.is_err() {
            proof {
                assert(self.constraints@.skip(start.len() as int) =~= seq![first, second]);
                assert(self.constraints@.take(start.len() as int) =~= start);
            }
            return step;
        }
        proof {
            assert(self.constraints@.skip(start.len() as int) =~= seq![first, second, third]);
            assert(self.constraints@.take(start.len() as int) =~= start);
            assert forall|which: int| 0 <= which < 3 implies terms_declared(
                self.variables@,
                #[trigger] ratio_terms(*ratio, positivity, which).0,
            ) by {
                if which == 0 {
                    assert(ratio_terms(*ratio, positivity, which) == t0);
                } else if which == 1 {
                    assert(ratio_terms(*ratio, positivity, which) == t1);
                } else {
                    assert(ratio_terms(*ratio, positivity, which) == t2);
                }
            }
        }
        Ok(())
    }
}

impl Row {
    /// The row of a constraint, with one coefficient per declared variable
    /// and zero for the variables it does not mention.
    fn from_constraint(constraint: &LinearConstraint, variables: &Vec<TimeVarId>) -> (r: Row)
        ensures
            r.coefficients@.len() == variables@.len(),
            forall|i: int|
                0 <= i < variables@.len() ==> (#[trigger] r.coefficients@[i])@ == term_value(
                    terms_view(constraint.coefficients@),
                    variables@[i]@,
                ),
            r.bound == constraint.bound,
            r.strict == constraint.strict,
    {
        let mut coefficients: Vec<Q> = Vec::new();
        let mut i: usize = 0;
        while i < variables.len()
            invariant
                i <= variables@.len(),
                coefficients@.len() == i,
                forall|i2: int|
                    0 <= i2 < i ==> (#[trigger] coefficients@[i2])@ == term_value(
                        terms_view(constraint.coefficients@),
                        variables@[i2]@,
                    ),
            decreases variables@.len() - i,
        {
            coefficients.push(term_lookup(&constraint.coefficients, &variables[i]));
            i = i + 1;
        }
        Row { coefficients, bound: constraint.bound, strict: constraint.strict }
    }
}

/// The coefficient the terms give a variable: the last non-zero entry for
/// it, or zero.
fn term_lookup(terms: &Vec<(TimeVarId, Q)>, name: &TimeVarId) -> (r: Q)
    ensures
        r@ == term_value(terms_view(terms@), name@),
{
    let mut k: usize = terms.len();
    proof {
        assert(terms_view(terms@).take(k as int) =~= terms_view(terms@));
    }
    while k > 0
        invariant
            k <= terms@.len(),
            term_value(terms_view(terms@), name@) == term_value(terms_view(terms@).take(k as int), name@),
        decreases k,
    {
        let ghost tv = terms_view(terms@);
        proof {
            assert(tv.take(k as int).drop_last() =~= tv.take(k - 1));
            assert(tv.take(k as int).last() == tv[k - 1]);
        }
        if terms[k - 1].0.same(name) && !terms[k - 1].1.is_zero() {
            return terms[k - 1].1;
        }
        k = k - 1;
    }
    Q::zero()
}

/// The coefficients a constraint gives the declared variables, in order.
pub open spec fn constraint_row(variables: Seq<TimeVarId>, c: LinearConstraint) -> Seq<(int, int)> {
    Seq::new(variables.len(), |i: int| term_value(terms_view(c.coefficients@), variables[i]@))
}

/// An assignment, one value per declared variable, meets a linear
/// constraint.
pub open spec fn meets_linear(variables: Seq<TimeVarId>, c: LinearConstraint, x: Seq<(int, int)>) -> bool {
    holds(constraint_row(variables, c), c.bound@, c.strict, x)
}

/// An assignment meets every constraint of a linear problem.
pub open spec fn satisfies_linear(
    variables: Seq<TimeVarId>,
    constraints: Seq<LinearConstraint>,
    x: Seq<(int, int)>,
) -> bool {
    &&& valid_values(x, variables.len() as int)
    &&& forall|k: int| 0 <= k < constraints.len() ==> meets_linear(variables, #[trigger] constraints[k], x)
}

/// `rows` are the rows of the constraints of a linear problem, in order.
pub open spec fn constraint_rows(
    variables: Seq<TimeVarId>,
    constraints: Seq<LinearConstraint>,
    rows: Seq<Row>,
) -> bool {
    &&& rows.len() == constraints.len()
    &&& forall|k: int|
        0 <= k < rows.len() ==> row_coefficients(#[trigger] rows[k]) == constraint_row(
            variables,
            constraints[k],
        ) && rows[k].bound@ == constraints[k].bound@ && rows[k].strict == constraints[k].strict
}

/// Eliminating the variables of a linear problem from the last down, the
/// systems of `chain` are reached from the constraint rows, and the next
/// elimination would hold more rows than `budget`.
pub open spec fn budget_exhausted(
    variables: Seq<TimeVarId>,
    constraints: Seq<LinearConstraint>,
    chain: Seq<Seq<Row>>,
    budget: int,
) -> bool {
    &&& 1 <= chain.len() <= variables.len()
    &&& constraint_rows(variables, constraints, chain[0])
    &&& elimination_chain(chain, variables.len() as int)
    &&& elimination_size(chain.last(), variables.len() - chain.len()) > budget
}

/// Eliminating the variables of a linear problem from the last down, the
/// systems of `chain` are reached from the constraint rows, and in the last
/// of them some row bounding the next variable above and some row bounding
/// it below combine into a row that leaves the storage of `Q`.
pub open spec fn elimination_overflows(
    variables: Seq<TimeVarId>,
    constraints: Seq<LinearConstraint>,
    chain: Seq<Seq<Row>>,
) -> bool {
    let i = variables.len() - chain.len();
    &&& 1 <= chain.len() <= variables.len()
    &&& constraint_rows(variables, constraints, chain[0])
    &&& elimination_chain(chain, variables.len() as int)
    &&& exists|ur: int, lr: int|
        0 <= ur < chain.last().len() && 0 <= lr < chain.last().len()
            && chain.last()[ur].coefficients@[i]@.0 > 0 && chain.last()[lr].coefficients@[i]@.0 < 0
            && !#[trigger] combination_fits(chain.last()[ur], chain.last()[lr], i)
}

/// Every variable of a linear problem eliminated along `chain` from the
/// constraint rows, back substitution through the systems before each
/// elimination leaves the storage of `Q` at some variable.
pub open spec fn substitution_overflows(
    variables: Seq<TimeVarId>,
    constraints: Seq<LinearConstraint>,
    chain: Seq<Seq<Row>>,
) -> bool {
    let n = variables.len() as int;
    &&& chain.len() == n + 1
    &&& constraint_rows(variables, constraints, chain[0])
    &&& elimination_chain(chain, n)
    &&& exists|k: int, x: Seq<(int, int)>| #[trigger] substitution_fails(chain.take(n), n, k, x)
}

/// How many constraints have a coefficient of sign `s` (-1, 0 or 1) on
/// variable `i`.
pub open spec fn constraint_sign_count(
    variables: Seq<TimeVarId>,
    constraints: Seq<LinearConstraint>,
    i: int,
    s: int,
) -> nat
    decreases constraints.len(),
{
    if constraints.len() == 0 {
        0
    } else {
        let v = constraint_row(variables, constraints.last())[i].0;
        let sign = if v > 0 {
            1int
        } else if v < 0 {
            -1int
        } else {
            0int
        };
        constraint_sign_count(variables, constraints.drop_last(), i, s) + if sign == s {
            1nat
        } else {
            0nat
        }
    }
}

/// How many rows eliminating the last variable from the constraint rows
/// leaves: the rows without it, and one per pair of a row bounding it above
/// with one bounding it below.
pub open spec fn first_elimination_size(
    variables: Seq<TimeVarId>,
    constraints: Seq<LinearConstraint>,
) -> nat {
    let i = variables.len() - 1;
    constraint_sign_count(variables, constraints, i, 0) + constraint_sign_count(variables, constraints, i, 1)
        * constraint_sign_count(variables, constraints, i, -1)
}

/// The rows of the constraints count as many coefficients of each sign on a
/// variable as the constraints do.
proof fn lemma_constraint_sign_count(
    variables: Seq<TimeVarId>,
    constraints: Seq<LinearConstraint>,
    rows: Seq<Row>,
    i: int,
    s: int,
)
    requires
        constraint_rows(variables, constraints, rows),
        forall|k: int| 0 <= k < rows.len() ==> i < (#[trigger] rows[k]).coefficients@.len(),
        0 <= i,
    ensures
        count_sign(rows, i, s) == constraint_sign_count(variables, constraints, i, s),
    decreases rows.len(),
{
    if rows.len() > 0 {
        let k = rows.len() - 1;
        assert(constraint_rows(variables, constraints.drop_last(), rows.drop_last())) by {
            assert forall|j: int| 0 <= j < rows.drop_last().len() implies row_coefficients(
                #[trigger] rows.drop_last()[j],
            ) == constraint_row(variables, constraints.drop_last()[j]) && rows.drop_last()[j].bound@
                == constraints.drop_last()[j].bound@ && rows.drop_last()[j].strict
                == constraints.drop_last()[j].strict by {
                assert(row_coefficients(rows[j]) == constraint_row(variables, constraints[j]));
            }
        }
        lemma_constraint_sign_count(variables, constraints.drop_last(), rows.drop_last(), i, s);
        assert(row_coefficients(rows[k]) == constraint_row(variables, constraints[k]));
        assert(row_coefficients(rows[k])[i] == rows[k].coefficients@[i]@);
        assert(sign_at(rows.last(), i) == sign_at(rows[k], i));
    }
}

/// A chain along which elimination or back substitution overflows witnesses
/// that solving may overflow.
proof fn lemma_overflow_witness(
    variables: Seq<TimeVarId>,
    constraints: Seq<LinearConstraint>,
    chain: Seq<Seq<Row>>,
)
    requires
        elimination_overflows(variables, constraints, chain) || substitution_overflows(
            variables,
            constraints,
            chain,
        ),
    ensures
        exists|c: Seq<Seq<Row>>|
            #[trigger] elimination_overflows(variables, constraints, c) || substitution_overflows(
                variables,
                constraints,
                c,
            ),
{
}

/// Eliminating the last variable from the constraint rows leaves
/// `first_elimination_size` rows.
proof fn lemma_first_size(
    variables: Seq<TimeVarId>,
    constraints: Seq<LinearConstraint>,
    rows: Seq<Row>,
    n: int,
)
    requires
        constraint_rows(variables, constraints, rows),
        rows_sized(rows, n),
        n == variables.len(),
        n > 0,
    ensures
        elimination_size(rows, n - 1) == first_elimination_size(variables, constraints),
{
    lemma_constraint_sign_count(variables, constraints, rows, n - 1, 0);
    lemma_constraint_sign_count(variables, constraints, rows, n - 1, 1);
    lemma_constraint_sign_count(variables, constraints, rows, n - 1, -1);
}

/// What solving a linear problem may return: an overflow, or the budget
/// error after a chain of eliminations that exceeds the budget; otherwise a
/// solved outcome whose assignment meets every constraint, or an
/// inconsistent one for a system that nothing satisfies.
pub open spec fn linear_outcome(p: LinearTemporalProblem, r: Result<TemporalOutcome, TimeError>) -> bool {
    &&& r matches Err(e) ==> e is Overflow || e == (TimeError::EliminationBudgetExceeded {
        budget: p.budget_view(),
    })
    &&& r matches Err(TimeError::EliminationBudgetExceeded { .. }) ==> exists|chain: Seq<Seq<Row>>|
        #[trigger] budget_exhausted(p.variables_view(), p.constraints_view(), chain, p.budget_view() as int)
    &&& r matches Err(TimeError::Overflow) ==> exists|chain: Seq<Seq<Row>>|
        #[trigger] elimination_overflows(p.variables_view(), p.constraints_view(), chain)
            || substitution_overflows(p.variables_view(), p.constraints_view(), chain)
    &&& p.variables_view().len() > 0 && first_elimination_size(p.variables_view(), p.constraints_view())
        > p.budget_view() ==> r == Err::<TemporalOutcome, TimeError>(
        TimeError::EliminationBudgetExceeded { budget: p.budget_view() },
    )
    &&& r matches Ok(o) ==> o.profile_view() == SolverProfile::LinearRatio && (o is Solved || o is Inconsistent)
    &&& r matches Ok(TemporalOutcome::Solved { exactness, assignment, tight_bounds, .. }) ==> {
        &&& exactness == Exactness::Exact
        &&& names_variables(assignment@, p.variables_view())
        &&& satisfies_linear(p.variables_view(), p.constraints_view(), assigned_values(assignment@))
        &&& tight_bounds@.len() == 0
    }
    &&& r matches Ok(TemporalOutcome::Inconsistent { .. }) ==> forall|x: Seq<(int, int)>|
        !satisfies_linear(p.variables_view(), p.constraints_view(), x)
}

impl LinearTemporalProblem {
    /// Decides feasibility by exact Fourier-Motzkin elimination, eliminating
    /// the variables from the last to the first.
    pub fn solve(&self) -> (r: Result<TemporalOutcome, TimeError>)
        ensures
            r matches Err(e) ==> e is Overflow || e == (TimeError::EliminationBudgetExceeded {
                budget: self.budget_view(),
            }),
            r matches Err(TimeError::EliminationBudgetExceeded { .. }) ==> exists|chain: Seq<Seq<Row>>|
                #[trigger] budget_exhausted(
                    self.variables_view(),
                    self.constraints_view(),
                    chain,
                    self.budget_view() as int,
                ),
            r matches Err(TimeError::Overflow) ==> exists|chain: Seq<Seq<Row>>|
                #[trigger] elimination_overflows(self.variables_view(), self.constraints_view(), chain)
                    || substitution_overflows(self.variables_view(), self.constraints_view(), chain),
            self.variables_view().len() > 0 && first_elimination_size(
                self.variables_view(),
                self.constraints_view(),
            ) > self.budget_view() ==> r == Err::<TemporalOutcome, TimeError>(
                TimeError::EliminationBudgetExceeded { budget: self.budget_view() },
            ),
            r matches Ok(o) ==> o.profile_view() == SolverProfile::LinearRatio && (o is Solved
                || o is Inconsistent),
            r matches Ok(TemporalOutcome::Solved { exactness, assignment, tight_bounds, .. }) ==> {
                &&& exactness == Exactness::Exact
                &&& names_variables(assignment@, self.variables_view())
                &&& satisfies_linear(
                    self.variables_view(),
                    self.constraints_view(),
                    assigned_values(assignment@),
                )
                &&& tight_bounds@.len() == 0
            },
            r matches Ok(TemporalOutcome::Inconsistent { .. }) ==> forall|x: Seq<(int, int)>|
                !satisfies_linear(self.variables_view(), self.constraints_view(), x),
            linear_outcome(*self, r),
    {
        proof {
            use_type_invariant(self);
        }
        let ghost vars = self.variables@;
        let ghost cs = self.constraints@;
        let n = self.variables.len();
        let mut current: Vec<Row> = Vec::new();
        let mut c: usize = 0;
        while c < self.constraints.len()
            invariant
                self.well_formed(),
                n == self.variables@.len(),
                c <= self.constraints@.len(),
                current@.len() == c,
                rows_sized(current@, n as int),
                vars == self.variables@,
                cs == self.constraints@,
                forall|x: Seq<(int, int)>|
                    satisfies_linear(vars, cs, x) ==> #[trigger] rows_hold(current@, x),
                forall|k: int|
                    0 <= k < c ==> row_coefficients(#[trigger] current@[k]) == constraint_row(vars, cs[k])
                        && current@[k].bound@ == cs[k].bound@ && current@[k].strict == cs[k].strict,
            decreases self.constraints@.len() - c,
        {
            proof {
                let k = c as int;
                assert(coefficients_declared(self.variables@, self.constraints@[k]));
            }
            let row = Row::from_constraint(&self.constraints[c], &self.variables);
            let ghost before = current@;
            current.push(row);
            proof {
                assert(row_coefficients(row) =~= constraint_row(vars, cs[c as int]));
                assert forall|k: int|
                    0 <= k < c + 1 implies row_coefficients(#[trigger] current@[k]) == constraint_row(
                    vars,
                    cs[k],
                ) && current@[k].bound@ == cs[k].bound@ && current@[k].strict == cs[k].strict by {
                    if k < c {
                        assert(current@[k] == before[k]);
                    }
                }
                assert forall|x: Seq<(int, int)>| satisfies_linear(vars, cs, x) implies #[trigger] rows_hold(
                    current@,
                    x,
                ) by {
                    assert(rows_hold(before, x));
                    assert(meets_linear(vars, cs[c as int], x));
                    assert forall|r: int| 0 <= r < current@.len() implies row_holds(#[trigger] current@[r], x) by {
                        if r < before.len() {
                            assert(current@[r] == before[r]);
                        }
                    }
                }
            }
            c = c + 1;
        }
        let ghost initial = current@;
        proof {
            assert(constraint_rows(vars, cs, initial));
        }
        let mut history: Vec<Vec<Row>> = Vec::new();
        let mut done: usize = 0;
        while done < n
            invariant
                n == self.variables@.len(),
                done <= n,
                history@.len() == done,
                rows_sized(current@, n as int),
                forall|k: int| 0 <= k < done ==> rows_sized((#[trigger] history@[k])@, n as int),
                vars == self.variables@,
                cs == self.constraints@,
                forall|j: int| n - done <= j < n ==> #[trigger] column_zero(current@, j),
                forall|x: Seq<(int, int)>|
                    satisfies_linear(vars, cs, x) ==> #[trigger] rows_hold(current@, x),
                done == 0 ==> current@ == initial,
                done > 0 ==> history@[0]@ == initial,
                forall|k: int, j: int|
                    0 <= k < done && n - k <= j < n ==> #[trigger] column_zero(history@[k]@, j),
                forall|k: int|
                    #![trigger history@[k]]
                    0 <= k < done - 1 ==> elim_link(history@[k]@, history@[k + 1]@, n - 1 - k, n as int),
                done > 0 ==> elim_link(history@[done - 1]@, current@, n - done, n as int),
                constraint_rows(vars, cs, initial),
                elimination_chain(
                    history@.map_values(|v: Vec<Row>| v@).push(current@),
                    n as int,
                ),
                self.budget == self.budget_view(),
                done > 0 ==> first_elimination_size(vars, cs) <= self.budget_view(),
            decreases n - done,
        {
            let index = n - 1 - done;
            let ghost chain = history@.map_values(|v: Vec<Row>| v@).push(current@);
            let next = match eliminate(&current, index, self.budget, Ghost(n as int)) {
                Ok(rows) => rows,
                Err(e) => {
                    proof {
                        if done == 0 {
                            lemma_first_size(vars, cs, initial, n as int);
                        }
                        if e is Overflow {
                            let i = index as int;
                            let (ur, lr) = choose|ur: int, lr: int|
                                0 <= ur < current@.len() && 0 <= lr < current@.len()
                                    && current@[ur].coefficients@[i]@.0 > 0
                                    && current@[lr].coefficients@[i]@.0 < 0
                                    && !#[trigger] combination_fits(current@[ur], current@[lr], i);
                            assert(chain.last() == current@);
                            assert(chain[0] == initial);
                            assert(!combination_fits(chain.last()[ur], chain.last()[lr], i));
                            assert(vars.len() - chain.len() == i);
                            assert(1 <= chain.len() <= vars.len());
                            assert(constraint_rows(vars, cs, chain[0]));
                            assert(elimination_chain(chain, vars.len() as int));
                            assert(elimination_overflows(vars, cs, chain));
                            assert(elimination_overflows(
                                self.variables_view(),
                                self.constraints_view(),
                                chain,
                            ));
                        }
                        if e is EliminationBudgetExceeded {
                            assert(chain[0] == initial);
                            assert(chain.last() == current@);
                            assert(budget_exhausted(vars, cs, chain, self.budget_view() as int));
                            assert(budget_exhausted(
                                self.variables_view(),
                                self.constraints_view(),
                                chain,
                                self.budget_view() as int,
                            ));
                        }
                    }
                    return Err(e);
                },
            };
            proof {
                if done == 0 {
                    lemma_first_size(vars, cs, initial, n as int);
                }
                assert forall|x: Seq<(int, int)>| satisfies_linear(vars, cs, x) implies #[trigger] rows_hold(
                    next@,
                    x,
                ) by {
                    assert(rows_hold(current@, x));
                    assert(positive_dens(x)) by {
                        assert forall|k: int| 0 <= k < x.len() implies (#[trigger] x[k]).1 > 0 by {
                            assert(valid_values(x, n as int));
                        }
                    }
                }
                assert forall|j: int| n - (done + 1) <= j < n implies #[trigger] column_zero(next@, j) by {
                    if j != index {
                        assert(column_zero(current@, j));
                    }
                }
            }
            let ghost old_history = history@;
            let ghost old_current = current@;
            history.push(current);
            current = next;
            proof {
                assert(history@[done as int]@ == old_current);
                assert forall|k: int, j: int|
                    0 <= k < done + 1 && n - k <= j < n implies #[trigger] column_zero(history@[k]@, j) by {
                    if k < done {
                        assert(history@[k] == old_history[k]);
                    }
                }
                assert forall|k: int|
                    #![trigger history@[k]]
                    0 <= k < done + 1 - 1 implies elim_link(history@[k]@, history@[k + 1]@, n - 1 - k, n as int) by {
                    assert(history@[k] == old_history[k]);
                    if k + 1 < done {
                        assert(history@[k + 1] == old_history[k + 1]);
                    }
                }
                assert forall|k: int| 0 <= k < done + 1 implies rows_sized((#[trigger] history@[k])@, n as int) by {
                    if k < done {
                        assert(history@[k] == old_history[k]);
                    }
                }
                if done > 0 {
                    assert(history@[0] == old_history[0]);
                }
                let new_chain = history@.map_values(|v: Vec<Row>| v@).push(current@);
                assert(eliminates(old_current, index as int, current@));
                assert forall|k: int| 0 <= k < new_chain.len() - 1 implies #[trigger] chain_link(
                    new_chain,
                    n as int,
                    k,
                ) by {
                    if k < done {
                        assert(chain_link(chain, n as int, k));
                        assert(new_chain[k] == chain[k]);
                        assert(new_chain[k + 1] == chain[k + 1]);
                    } else {
                        assert(new_chain[k] == old_current);
                        assert(new_chain[k + 1] == current@);
                    }
                }
            }
            done = done + 1;
        }
        let ghost final_chain = history@.map_values(|v: Vec<Row>| v@).push(current@);
        proof {
            assert(final_chain.take(n as int) =~= system_views(history@));
            if n > 0 {
                assert(final_chain[0] == history@[0]@);
            }
            assert(final_chain[0] == initial);
        }
        let mut k: usize = 0;
        while k < current.len()
            invariant
                n > 0 ==> first_elimination_size(vars, cs) <= self.budget_view(),
                final_chain.len() == n + 1,
                final_chain.take(n as int) == system_views(history@),
                constraint_rows(vars, cs, final_chain[0]),
                elimination_chain(final_chain, n as int),
                k <= current@.len(),
                rows_sized(current@, n as int),
                vars == self.variables@,
                cs == self.constraints@,
                n == vars.len(),
                forall|j: int| 0 <= j < n ==> #[trigger] column_zero(current@, j),
                forall|x: Seq<(int, int)>|
                    satisfies_linear(vars, cs, x) ==> #[trigger] rows_hold(current@, x),
                forall|r: int|
                    0 <= r < k ==> (if (#[trigger] current@[r]).strict {
                        current@[r].bound@.0 > 0
                    } else {
                        current@[r].bound@.0 >= 0
                    }),
            decreases current@.len() - k,
        {
            let row = &current[k];
            let feasible = if row.strict {
                row.bound.is_positive()
            } else {
                !row.bound.is_negative()
            };
            if !feasible {
                proof {
                    assert forall|x: Seq<(int, int)>| !satisfies_linear(vars, cs, x) by {
                        if satisfies_linear(vars, cs, x) {
                            assert(rows_hold(current@, x));
                            assert(row_holds(current@[k as int], x));
                            let cf = row_coefficients(current@[k as int]);
                            assert forall|j: int| 0 <= j < cf.len() implies (#[trigger] cf[j]).0 == 0 by {
                                assert(column_zero(current@, j));
                            }
                            lemma_dot_zero(cf, x);
                            lemma_row_dens(current@[k as int]);
                            assert(positive_dens(x)) by {
                                assert forall|j: int| 0 <= j < x.len() implies (#[trigger] x[j]).1 > 0 by {
                                    assert(valid_values(x, n as int));
                                }
                            }
                            crate::time::elimination::lemma_dot_pos(cf, x);
                            let d = dot(cf, x);
                            let b = current@[k as int].bound@;
                            assert(0 * b.1 == 0);
                            if current@[k as int].strict {
                                assert(rat_lt(d, b));
                                assert(b.0 * d.1 > 0);
                                assert(b.0 > 0) by (nonlinear_arith)
                                    requires
                                        b.0 * d.1 > 0,
                                        d.1 > 0,
                                ;
                            } else {
                                assert(rat_le(d, b));
                                assert(b.0 * d.1 >= 0);
                                assert(b.0 >= 0) by (nonlinear_arith)
                                    requires
                                        b.0 * d.1 >= 0,
                                        d.1 > 0,
                                ;
                            }
                        }
                    }
                }
                let witness = if row.strict {
                    String::from_str("elimination reduced the system to a false statement 0 < b")
                } else {
                    String::from_str("elimination reduced the system to a false statement 0 <= b")
                };
                return Ok(TemporalOutcome::Inconsistent { profile: SolverProfile::LinearRatio, witness });
            }
            k = k + 1;
        }
        proof {
            assert forall|x: Seq<(int, int)>| positive_dens(x) && x.len() >= n implies #[trigger] rows_hold(
                current@,
                x,
            ) by {
                assert forall|r: int| 0 <= r < current@.len() implies row_holds(#[trigger] current@[r], x) by {
                    let cf = row_coefficients(current@[r]);
                    assert forall|j: int| 0 <= j < cf.len() implies (#[trigger] cf[j]).0 == 0 by {
                        assert(column_zero(current@, j));
                    }
                    lemma_dot_zero(cf, x);
                    lemma_row_dens(current@[r]);
                    crate::time::elimination::lemma_dot_pos(cf, x);
                    let d = dot(cf, x);
                    let b = current@[r].bound@;
                    assert(d.0 * b.1 == 0);
                    if current@[r].strict {
                        assert(b.0 * d.1 > 0) by (nonlinear_arith)
                            requires
                                b.0 > 0,
                                d.1 > 0,
                        ;
                    } else {
                        assert(b.0 * d.1 >= 0) by (nonlinear_arith)
                            requires
                                b.0 >= 0,
                                d.1 > 0,
                        ;
                    }
                }
            }
            if n > 0 {
                assert forall|x: Seq<(int, int)>| positive_dens(x) && x.len() >= n implies #[trigger] eliminated_at(
                    history@[n - 1]@,
                    0,
                    x,
                ) by {
                    assert(rows_hold(current@, x));
                }
            }
        }
        let values = match back_substitute(&history, n) {
            Ok(v) => v,
            Err(e) => {
                proof {
                    let (k2, x) = choose|k2: int, x: Seq<(int, int)>|
                        #[trigger] substitution_fails(system_views(history@), n as int, k2, x);
                    assert(substitution_fails(final_chain.take(n as int), n as int, k2, x));
                    assert(final_chain.len() == vars.len() + 1);
                    assert(constraint_rows(vars, cs, final_chain[0]));
                    assert(elimination_chain(final_chain, vars.len() as int));
                    assert(substitution_overflows(vars, cs, final_chain));
                    lemma_overflow_witness(self.variables_view(), self.constraints_view(), final_chain);
                    assert(n > 0 ==> first_elimination_size(vars, cs) <= self.budget_view());
                    assert(e is Overflow);
                    assert(linear_outcome(*self, Err::<TemporalOutcome, TimeError>(e)));
                }
                return Err(e);
            },
        };
        proof {
            let x = q_values(values@);
            lemma_q_values_dens(values@);
            if n == 0 {
                assert(rows_hold(current@, x));
            }
            assert(rows_hold(initial, x));
            assert forall|k2: int| 0 <= k2 < cs.len() implies meets_linear(vars, #[trigger] cs[k2], x) by {
                assert(row_holds(initial[k2], x));
            }
            assert(satisfies_linear(vars, cs, x));
        }
        let mut assignment: Vec<(TimeVarId, Q)> = Vec::new();
        let mut v: usize = 0;
        while v < n
            invariant
                n == self.variables@.len(),
                values@.len() == n,
                v <= n,
                assignment@.len() == v,
                forall|k2: int| 0 <= k2 < v ==> (#[trigger] assignment@[k2]).0@ == self.variables@[k2]@,
                forall|k2: int| 0 <= k2 < v ==> (#[trigger] assignment@[k2]).1 == values@[k2],
            decreases n - v,
        {
            assignment.push((self.variables[v].clone(), values[v]));
            v = v + 1;
        }
        proof {
            assert(assigned_values(assignment@) =~= q_values(values@));
        }
        Ok(
            TemporalOutcome::Solved {
                profile: SolverProfile::LinearRatio,
                exactness: Exactness::Exact,
                assignment,
                tight_bounds: Vec::new(),
            },
        )
    }
}

/// The identities of the predicates left undecided, in order.
pub open spec fn pending_ids(predicates: Seq<ExternalPredicate>, decisions: Seq<Option<bool>>) -> Seq<
    Seq<char>,
>
    decreases predicates.len(),
{
    if predicates.len() == 0 {
        Seq::empty()
    } else {
        let rest = pending_ids(predicates.drop_last(), decisions);
        if decisions[predicates.len() - 1] is None {
            rest.push(predicates.last().id@)
        } else {
            rest
        }
    }
}

/// Some predicate was decided false.
pub open spec fn some_refuted(decisions: Seq<Option<bool>>) -> bool {
    exists|i: int| 0 <= i < decisions.len() && #[trigger] decisions[i] == Some(false)
}

/// A linear problem plus external predicates.
pub struct HybridTemporalProblem {
    linear: LinearTemporalProblem,
    predicates: Vec<ExternalPredicate>,
}

/// The hybrid outcome built from the linear part's outcome `lin`: its error
/// as is; a solved outcome relabelled as hybrid when nothing is pending, or
/// partially solved with the linear assignment and the pending predicates in
/// declaration order; any other outcome unchanged.
pub open spec fn hybrid_from_linear(
    h: HybridTemporalProblem,
    decisions: Seq<Option<bool>>,
    lin: Result<TemporalOutcome, TimeError>,
    r: Result<TemporalOutcome, TimeError>,
) -> bool {
    match lin {
        Err(e) => r == Err::<TemporalOutcome, TimeError>(e),
        Ok(TemporalOutcome::Solved { exactness, assignment, tight_bounds, .. }) => if pending_ids(
            h.predicates_view(),
            decisions,
        ).len() == 0 {
            r == Ok::<TemporalOutcome, TimeError>(
                TemporalOutcome::Solved { profile: SolverProfile::Hybrid, exactness, assignment, tight_bounds },
            )
        } else {
            r matches Ok(TemporalOutcome::PartiallySolved { profile, assignment: a, unresolved })
                && profile == SolverProfile::Hybrid && a == assignment && unresolved@.map_values(
                |u: String| u@,
            ) == pending_ids(h.predicates_view(), decisions)
        },
        Ok(other) => r == lin,
    }
}

/// What solving a hybrid problem under the given predicate decisions
/// returns: a refuted predicate makes it inconsistent; otherwise the linear
/// part is solved, and undecided predicates stay pending.
pub open spec fn decided_outcome(
    h: HybridTemporalProblem,
    decisions: Seq<Option<bool>>,
    r: Result<TemporalOutcome, TimeError>,
) -> bool {
    &&& some_refuted(decisions) ==> (r matches Ok(TemporalOutcome::Inconsistent { profile, .. })
        && profile == SolverProfile::Hybrid)
    &&& r matches Err(e) ==> !some_refuted(decisions) && (e is Overflow || e == (
    TimeError::EliminationBudgetExceeded { budget: h.linear_view().budget_view() }))
    &&& r matches Err(TimeError::EliminationBudgetExceeded { .. }) ==> exists|chain: Seq<Seq<Row>>|
        #[trigger] budget_exhausted(
            h.linear_view().variables_view(),
            h.linear_view().constraints_view(),
            chain,
            h.linear_view().budget_view() as int,
        )
    &&& r matches Ok(TemporalOutcome::Solved { profile, exactness, assignment, .. }) ==> {
        &&& !some_refuted(decisions)
        &&& pending_ids(h.predicates_view(), decisions).len() == 0
        &&& profile == SolverProfile::Hybrid
        &&& exactness == Exactness::Exact
        &&& names_variables(assignment@, h.linear_view().variables_view())
        &&& satisfies_linear(
            h.linear_view().variables_view(),
            h.linear_view().constraints_view(),
            assigned_values(assignment@),
        )
    }
    &&& r matches Ok(TemporalOutcome::PartiallySolved { profile, assignment, unresolved }) ==> {
        &&& !some_refuted(decisions)
        &&& profile == SolverProfile::Hybrid
        &&& satisfies_linear(
            h.linear_view().variables_view(),
            h.linear_view().constraints_view(),
            assigned_values(assignment@),
        )
        &&& unresolved@.map_values(|u: String| u@) == pending_ids(h.predicates_view(), decisions)
        &&& unresolved@.len() > 0
        &&& names_variables(assignment@, h.linear_view().variables_view())
    }
    &&& r matches Ok(TemporalOutcome::Inconsistent { profile, .. }) ==> (some_refuted(decisions)
        && profile == SolverProfile::Hybrid) || (!some_refuted(decisions) && profile
        == SolverProfile::LinearRatio && forall|x: Seq<(int, int)>|
        !satisfies_linear(h.linear_view().variables_view(), h.linear_view().constraints_view(), x))
    &&& !(r matches Ok(TemporalOutcome::UnsupportedByProfile { .. }))
    &&& !some_refuted(decisions) ==> exists|lin: Result<TemporalOutcome, TimeError>|
        linear_outcome(h.linear_view(), lin) && #[trigger] hybrid_from_linear(h, decisions, lin, r)
}

impl HybridTemporalProblem {
    /// The linear part is well formed.
    pub closed spec fn well_formed(&self) -> bool {
        self.linear.well_formed()
    }

    /// The underlying linear problem.
    pub closed spec fn linear_view(&self) -> LinearTemporalProblem {
        self.linear
    }

    /// The declared predicates.
    pub closed spec fn predicates_view(&self) -> Seq<ExternalPredicate> {
        self.predicates@
    }

    /// Wraps a linear problem.
    pub fn new(linear: LinearTemporalProblem) -> (r: HybridTemporalProblem)
        ensures
            r.well_formed(),
            r.linear_view() == linear,
            r.predicates_view().len() == 0,
    {
        proof {
            use_type_invariant(&linear);
        }
        HybridTemporalProblem { linear, predicates: Vec::new() }
    }

    /// The underlying linear problem.
    pub fn linear(&self) -> (r: &LinearTemporalProblem)
        ensures
            *r == self.linear_view(),
    {
        &self.linear
    }

    /// The underlying linear problem, mutably.
    pub fn linear_mut(&mut self) -> (r: &mut LinearTemporalProblem)
        ensures
            *r == old(self).linear_view(),
            final(self).linear_view() == *final(r),
            final(self).predicates_view() == old(self).predicates_view(),
    {
        &mut self.linear
    }

    /// The declared external predicates.
    pub fn predicates(&self) -> (r: &[ExternalPredicate])
        ensures
            r@ == self.predicates_view(),
    {
        self.predicates.as_slice()
    }

    /// Declares an external predicate.
    pub fn add_predicate(&mut self, predicate: ExternalPredicate)
        ensures
            final(self).linear_view() == old(self).linear_view(),
            final(self).predicates_view() == old(self).predicates_view().push(predicate),
    {
        self.predicates.push(predicate);
    }

    /// Whether a static decidability claim is made: only while no external
    /// predicate is declared.
    pub fn claims_static_decidability(&self) -> (r: bool)
        ensures
            r == (self.predicates_view().len() == 0),
    {
        self.predicates.len() == 0
    }

    /// Solves the linear part and reports the predicate status, given each
    /// predicate's decision: `Some(true)` holds, `Some(false)` refuted, `None`
    /// undecided.
    pub fn solve_with_decisions(&self, decisions: &Vec<Option<bool>>) -> (r: Result<
        TemporalOutcome,
        TimeError,
    >)
        requires
            decisions@.len() == self.predicates_view().len(),
        ensures
            decided_outcome(*self, decisions@, r),
    {
        proof {
            use_type_invariant(&self.linear);
        }
        let mut unresolved: Vec<String> = Vec::new();
        let mut refuted: Vec<String> = Vec::new();
        let mut i: usize = 0;
        while i < self.predicates.len()
            invariant
                decisions@.len() == self.predicates@.len(),
                i <= self.predicates@.len(),
                unresolved@.map_values(|u: String| u@) == pending_ids(self.predicates@.take(i as int), decisions@),
                (refuted@.len() > 0) == (exists|k: int| 0 <= k < i && #[trigger] decisions@[k] == Some(false)),
            decreases self.predicates@.len() - i,
        {
            let ghost before = unresolved@;
            proof {
                let tk = self.predicates@.take(i + 1);
                assert(tk.drop_last() =~= self.predicates@.take(i as int));
                assert(tk.last() == self.predicates@[i as int]);
            }
            match decisions[i] {
                Some(true) => {},
                Some(false) => {
                    refuted.push(self.predicates[i].id.clone());
                },
                None => {
                    unresolved.push(self.predicates[i].id.clone());
                    proof {
                        assert(unresolved@.map_values(|u: String| u@) =~= before.map_values(|u: String| u@).push(self.predicates@[i as int].id@));
                    }
                },
            }
            i = i + 1;
        }
        proof {
            assert(self.predicates@.take(self.predicates@.len() as int) =~= self.predicates@);
        }
        if refuted.len() > 0 {
            let mut witness = String::from_str("external predicates refuted: ");
            let mut k: usize = 0;
            while k < refuted.len()
                invariant
                    k <= refuted@.len(),
                decreases refuted@.len() - k,
            {
                if k > 0 {
                    witness.append(", ");
                }
                witness.append(refuted[k].as_str());
                k = k + 1;
            }
            return Ok(TemporalOutcome::Inconsistent { profile: SolverProfile::Hybrid, witness });
        }
        let lin = self.linear.solve();
        let ghost lin_v = lin;
        let inner = match lin {
            Ok(o) => o,
            Err(e) => {
                proof {
                    assert(hybrid_from_linear(*self, decisions@, lin_v, Err::<TemporalOutcome, TimeError>(e)));
                }
                return Err(e);
            },
        };
        let result = if unresolved.len() == 0 {
            Ok(
                match inner {
                    TemporalOutcome::Solved { exactness, assignment, tight_bounds, .. } => {
                        TemporalOutcome::Solved {
                            profile: SolverProfile::Hybrid,
                            exactness,
                            assignment,
                            tight_bounds,
                        }
                    },
                    other => other,
                },
            )
        } else {
            match inner {
                TemporalOutcome::Solved { assignment, .. } => Ok(
                    TemporalOutcome::PartiallySolved {
                        profile: SolverProfile::Hybrid,
                        assignment,
                        unresolved,
                    },
                ),
                other => Ok(other),
            }
        };
        proof {
            assert(hybrid_from_linear(*self, decisions@, lin_v, result));
        }
        result
    }

    /// Solves the linear part and reports the predicate status. With no
    /// evaluator every predicate is undecided.
    pub fn solve<E: PredicateEvaluator>(&self, evaluator: Option<&E>) -> (r: Result<
        TemporalOutcome,
        TimeError,
    >)
        ensures
            r matches Err(e) ==> e is Overflow || e == (TimeError::EliminationBudgetExceeded {
                budget: self.linear_view().budget_view(),
            }),
            r matches Err(TimeError::EliminationBudgetExceeded { .. }) ==> exists|chain: Seq<Seq<Row>>|
                #[trigger] budget_exhausted(
                    self.linear_view().variables_view(),
                    self.linear_view().constraints_view(),
                    chain,
                    self.linear_view().budget_view() as int,
                ),
            exists|d: Seq<Option<bool>>|
                d.len() == self.predicates_view().len() && (evaluator is None ==> forall|k: int|
                    0 <= k < d.len() ==> d[k] is None) && #[trigger] decided_outcome(*self, d, r),
            evaluator is None ==> !(r matches Ok(TemporalOutcome::Inconsistent { profile, .. })
                && profile == SolverProfile::Hybrid),
            evaluator is None && self.predicates_view().len() > 0 ==> !(r matches Ok(
                TemporalOutcome::Solved { .. },
            )),
            evaluator is None ==> (r matches Ok(TemporalOutcome::PartiallySolved { unresolved, .. })
                ==> unresolved@.map_values(|u: String| u@) == self.predicates_view().map_values(
                |p: ExternalPredicate| p.id@,
            )),
            !(r matches Ok(TemporalOutcome::UnsupportedByProfile { .. })),
            r matches Ok(TemporalOutcome::Solved { assignment, .. }) ==> satisfies_linear(
                self.linear_view().variables_view(),
                self.linear_view().constraints_view(),
                assigned_values(assignment@),
            ),
            r matches Ok(TemporalOutcome::PartiallySolved { assignment, .. }) ==> satisfies_linear(
                self.linear_view().variables_view(),
                self.linear_view().constraints_view(),
                assigned_values(assignment@),
            ),
            r matches Ok(TemporalOutcome::Inconsistent { profile, .. }) && profile
                == SolverProfile::LinearRatio ==> forall|x: Seq<(int, int)>|
                !satisfies_linear(
                    self.linear_view().variables_view(),
                    self.linear_view().constraints_view(),
                    x,
                ),
    {
        proof {
            use_type_invariant(&self.linear);
        }
        let mut decisions: Vec<Option<bool>> = Vec::new();
        let mut i: usize = 0;
        while i < self.predicates.len()
            invariant
                i <= self.predicates@.len(),
                decisions@.len() == i,
                evaluator is None ==> forall|k: int| 0 <= k < i ==> #[trigger] decisions@[k] is None,
            decreases self.predicates@.len() - i,
        {
            let decision = match evaluator {
                Some(e) => e.evaluate(&self.predicates[i]),
                None => None,
            };
            decisions.push(decision);
            i = i + 1;
        }
        proof {
            if evaluator is None {
                lemma_pending_all(self.predicates@, decisions@);
                if self.predicates@.len() > 0 {
                    assert(pending_ids(self.predicates@, decisions@).len() > 0);
                }
            }
        }
        self.solve_with_decisions(&decisions)
    }
}

/// With every decision undecided, every predicate is pending.
proof fn lemma_pending_all(predicates: Seq<ExternalPredicate>, decisions: Seq<Option<bool>>)
    requires
        decisions.len() >= predicates.len(),
        forall|k: int| 0 <= k < decisions.len() ==> #[trigger] decisions[k] is None,
    ensures
        pending_ids(predicates, decisions) == predicates.map_values(|p: ExternalPredicate| p.id@),
        !some_refuted(decisions),
    decreases predicates.len(),
{
    if predicates.len() > 0 {
        lemma_pending_all(predicates.drop_last(), decisions);
        assert(predicates.map_values(|p: ExternalPredicate| p.id@) =~= predicates.drop_last().map_values(
            |p: ExternalPredicate| p.id@,
        ).push(predicates.last().id@));
        assert(decisions[predicates.len() - 1] is None);
    }
}

} // verus!
