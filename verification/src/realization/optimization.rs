//! Outcomes of a constrained minimization.
//!
//! Optimization can fail in ways that are not errors: the admissible set can
//! be empty, the minimizer can be non-unique, the infimum can be finite and
//! not attained, and the answer can be approximate with a declared guarantee.
//! An optimizer reports which, rather than fabricating a unique exact
//! minimizer.
use vstd::prelude::*;

verus! {

/// What an approximate answer is worth.
#[derive(Debug, Clone, PartialEq, Eq)]
pub enum ApproximationGuarantee<C> {
    /// `J(y) <= J* + epsilon` for the stated `epsilon`.
    AbsoluteGap {
        /// The bound on the excess over the infimum.
        epsilon: C,
    },
    /// The answer is optimal within a searched region, and the region is
    /// stated. Nothing is claimed about admissible points outside it.
    SearchedRegion {
        /// What was searched, in enough detail to reproduce it.
        region: String,
        /// How many candidates were examined.
        examined: usize,
    },
    /// No guarantee is offered. Saying so is better than implying one.
    Unquantified,
}

/// The outcome of a constrained minimization, with solution type `T` and
/// cost type `C`; neither is assumed to be real-valued, so an exact cost
/// stays exact.
#[derive(Debug, Clone, PartialEq, Eq)]
pub enum OptimizationOutcome<T, C> {
    /// A unique minimizer, proved optimal.
    Exact {
        /// The minimizer.
        solution: T,
        /// Its cost, which is the attained minimum.
        cost: C,
    },
    /// Several minimizers share the minimum cost; one was selected by a
    /// declared deterministic rule.
    Multiple {
        /// The selected minimizer.
        selected: T,
        /// The attained minimum.
        cost: C,
        /// How many other minimizers were found.
        others: usize,
    },
    /// A solution with a declared guarantee short of proved optimality.
    Approximate {
        /// The returned solution.
        solution: T,
        /// Its cost.
        cost: C,
        /// What is actually guaranteed about it.
        guarantee: ApproximationGuarantee<C>,
    },
    /// The admissible set is empty.
    Infeasible,
    /// The infimum is finite but no admissible point attains it; no
    /// minimizer may be fabricated.
    InfimumNotAttained {
        /// The greatest lower bound.
        infimum: C,
    },
}

/// The solution an outcome carries, where it has one.
pub open spec fn solution_of<T, C>(o: OptimizationOutcome<T, C>) -> Option<T> {
    match o {
        OptimizationOutcome::Exact { solution, .. } => Some(solution),
        OptimizationOutcome::Approximate { solution, .. } => Some(solution),
        OptimizationOutcome::Multiple { selected, .. } => Some(selected),
        _ => None,
    }
}

/// The cost or infimum an outcome carries, where one is known.
pub open spec fn cost_of<T, C>(o: OptimizationOutcome<T, C>) -> Option<C> {
    match o {
        OptimizationOutcome::Exact { cost, .. } => Some(cost),
        OptimizationOutcome::Multiple { cost, .. } => Some(cost),
        OptimizationOutcome::Approximate { cost, .. } => Some(cost),
        OptimizationOutcome::InfimumNotAttained { infimum } => Some(infimum),
        OptimizationOutcome::Infeasible => None,
    }
}

impl<T, C> OptimizationOutcome<T, C> {
    /// The solution, where one exists: none for an infeasible problem or an
    /// unattained infimum.
    pub fn solution(&self) -> (r: Option<&T>)
        ensures
            match solution_of(*self) {
                Some(s) => r == Some(&s),
                None => r is None,
            },
    {
        match self {
            OptimizationOutcome::Exact { solution, .. } => Some(solution),
            OptimizationOutcome::Approximate { solution, .. } => Some(solution),
            OptimizationOutcome::Multiple { selected, .. } => Some(selected),
            _ => None,
        }
    }

    /// Consumes the outcome, yielding the solution where one exists.
    pub fn into_solution(self) -> (r: Option<T>)
        ensures
            r == solution_of(self),
    {
        match self {
            OptimizationOutcome::Exact { solution, .. } => Some(solution),
            OptimizationOutcome::Approximate { solution, .. } => Some(solution),
            OptimizationOutcome::Multiple { selected, .. } => Some(selected),
            _ => None,
        }
    }

    /// The cost or infimum, where one is known.
    pub fn cost(&self) -> (r: Option<&C>)
        ensures
            match cost_of(*self) {
                Some(c) => r == Some(&c),
                None => r is None,
            },
    {
        match self {
            OptimizationOutcome::Exact { cost, .. } => Some(cost),
            OptimizationOutcome::Multiple { cost, .. } => Some(cost),
            OptimizationOutcome::Approximate { cost, .. } => Some(cost),
            OptimizationOutcome::InfimumNotAttained { infimum } => Some(infimum),
            OptimizationOutcome::Infeasible => None,
        }
    }

    /// Whether the solution is proved optimal: a unique minimizer, or one of
    /// several, which is not a weaker result, only a different one.
    pub fn is_optimal(&self) -> (r: bool)
        ensures
            r == (self is Exact || self is Multiple),
    {
        match self {
            OptimizationOutcome::Exact { .. } => true,
            OptimizationOutcome::Multiple { .. } => true,
            _ => false,
        }
    }

    /// Whether a minimizer exists at all.
    pub fn has_solution(&self) -> (r: bool)
        ensures
            r == (solution_of(*self) is Some),
    {
        self.solution().is_some()
    }
}

/// A proved-optimal outcome always has a solution, and an outcome without
/// a solution is never claimed optimal.
pub proof fn law_optimal_outcomes_have_solutions<T, C>(o: OptimizationOutcome<T, C>)
    ensures
        (o is Exact || o is Multiple) ==> solution_of(o) is Some,
        solution_of(o) is None ==> (o is Infeasible || o is InfimumNotAttained),
        o is InfimumNotAttained ==> solution_of(o) is None && cost_of(o) is Some,
{
}

} // verus!
