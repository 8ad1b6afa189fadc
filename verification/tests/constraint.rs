use lib::algebra::Q;
use lib::error::TimeError;
use lib::time::constraint::{
    DifferenceConstraint, Exactness, ExternalPredicate, HybridTemporalProblem, LinearConstraint,
    LinearTemporalProblem, PositivityHandling, PredicateEvaluator, RatioConstraint,
    SolverProfile, StpProblem, TemporalOutcome, TimeVarId,
};

fn q(value: i64) -> Q {
    Q::integer(value)
}

fn value_of(assignment: &[(TimeVarId, Q)], variable: &TimeVarId) -> Q {
    assignment
        .iter()
        .find(|(name, _)| name == variable)
        .map(|(_, value)| *value)
        .expect("an assigned variable")
}

fn gap(assignment: &[(TimeVarId, Q)], from: &TimeVarId, to: &TimeVarId) -> Q {
    value_of(assignment, to).checked_sub(&value_of(assignment, from)).unwrap()
}

#[test]
fn f16_an_stp_contradiction_is_reported() {
    let mut problem = StpProblem::new();
    let t1 = problem.variable("t1");
    let t2 = problem.variable("t2");

    // t2 - t1 <= 1 and t2 - t1 >= 2.
    problem.constrain(DifferenceConstraint::at_most(&t1, &t2, q(1))).unwrap();
    problem.constrain(DifferenceConstraint::at_least(&t1, &t2, q(2))).unwrap();

    let outcome = problem.solve().unwrap();
    assert!(!outcome.is_consistent());
    assert_eq!(outcome.profile(), SolverProfile::SimpleTemporal);
    assert!(matches!(outcome, TemporalOutcome::Inconsistent { .. }));
    assert!(outcome.assignment().is_none());
}

#[test]
fn a_consistent_stp_is_solved_exactly_with_tight_bounds() {
    let mut problem = StpProblem::new();
    let start = problem.variable("start");
    let middle = problem.variable("middle");
    let end = problem.variable("end");

    problem
        .constrain(DifferenceConstraint::between(&start, &middle, Some(q(1)), Some(q(3))))
        .unwrap();
    problem
        .constrain(DifferenceConstraint::between(&middle, &end, Some(q(2)), Some(q(4))))
        .unwrap();

    let outcome = problem.solve().unwrap();
    assert!(outcome.is_consistent());
    let TemporalOutcome::Solved { exactness, assignment, tight_bounds, .. } = &outcome else {
        panic!("expected a solution, got {outcome:?}");
    };
    assert_eq!(*exactness, Exactness::Exact);

    // The assignment really does satisfy the constraints.
    let first = gap(assignment, &start, &middle);
    let second = gap(assignment, &middle, &end);
    assert!(q(1).le(&first) && first.le(&q(3)));
    assert!(q(2).le(&second) && second.le(&q(4)));

    // And the implied start-to-end bound is tightened to [3, 7].
    let implied = tight_bounds
        .iter()
        .find(|bound| bound.from == start && bound.to == end)
        .expect("an implied bound between the endpoints");
    assert_eq!(implied.lower, Some(q(3)));
    assert_eq!(implied.upper, Some(q(7)));
}

#[test]
fn undeclared_variables_are_rejected() {
    let mut problem = StpProblem::new();
    let known = problem.variable("known");
    let stranger = TimeVarId::new("stranger");
    assert!(matches!(
        problem.constrain(DifferenceConstraint::at_most(&known, &stranger, q(1))),
        Err(TimeError::UnknownTimeVariable { .. })
    ));
}

#[test]
fn f17_a_ratio_constraint_is_not_a_difference_edge() {
    // "The second gap is between one and two times the first."
    let mut problem = LinearTemporalProblem::new();
    let a = problem.variable("a");
    let b = problem.variable("b");
    let c = problem.variable("c");

    let ratio = RatioConstraint {
        earlier: a.clone(),
        middle: b.clone(),
        later: c.clone(),
        lower: q(1),
        upper: q(2),
    };
    problem.constrain_ratio(&ratio).unwrap();

    // Cross-multiplication produces three-variable constraints with non-unit
    // coefficients.
    assert_eq!(problem.constraints().len(), 3);
    let three_variable = problem
        .constraints()
        .iter()
        .filter(|constraint| constraint.coefficients.len() == 3)
        .count();
    assert_eq!(three_variable, 2, "the two ratio bounds touch all three");
    assert!(
        problem.constraints().iter().any(|constraint| constraint.strict),
        "the positive-denominator condition stays strict"
    );

    // Pin the first gap and the answer follows.
    problem.constrain(LinearConstraint::at_most(vec![(a.clone(), q(1))], q(0))).unwrap();
    problem.constrain(LinearConstraint::at_most(vec![(a.clone(), q(-1))], q(0))).unwrap();
    problem.constrain(LinearConstraint::at_most(vec![(b.clone(), q(1))], q(2))).unwrap();
    problem.constrain(LinearConstraint::at_most(vec![(b.clone(), q(-1))], q(-2))).unwrap();

    let outcome = problem.solve().unwrap();
    assert_eq!(outcome.profile(), SolverProfile::LinearRatio);
    assert!(outcome.is_consistent());
    let assignment = outcome.assignment().unwrap();
    let (first, second) = (gap(assignment, &a, &b), gap(assignment, &b, &c));
    assert_eq!(first, q(2));
    let twice = first.checked_mul(&q(2)).unwrap();
    assert!(first.le(&second) && second.le(&twice), "{second:?}");
}

#[test]
fn f25_a_strict_positivity_condition_is_preserved_not_replaced() {
    let ratio = RatioConstraint {
        earlier: TimeVarId::new("a"),
        middle: TimeVarId::new("b"),
        later: TimeVarId::new("c"),
        lower: q(1),
        upper: q(2),
    };

    // The default handling keeps the strict inequality.
    let mut strict = LinearTemporalProblem::new();
    for id in ["a", "b", "c"] {
        strict.variable(id);
    }
    assert_eq!(*strict.positivity(), PositivityHandling::StrictInequality);
    strict.constrain_ratio(&ratio).unwrap();

    let denominator = strict
        .constraints()
        .iter()
        .find(|constraint| constraint.strict)
        .expect("a strict constraint");
    assert_eq!(denominator.bound, q(0), "no delta was introduced anywhere");

    // The strict system is feasible.
    assert!(strict.solve().unwrap().is_consistent());

    // A delta may be declared, with the justification that licenses it, and it
    // changes the feasible set.
    let mut justified = LinearTemporalProblem::new().with_positivity(
        PositivityHandling::JustifiedDelta {
            delta: q(1),
            justification: String::from("the source specifies a minimum notated eighth"),
        },
    );
    for id in ["a", "b", "c"] {
        justified.variable(id);
    }
    justified.constrain_ratio(&ratio).unwrap();
    assert!(
        justified.constraints().iter().all(|constraint| !constraint.strict),
        "the substitution replaced the strict constraint"
    );

    // A half-unit denominator is feasible under the strict reading and
    // infeasible under the delta.
    let pin = |problem: &mut LinearTemporalProblem, gap: Q| {
        let a = TimeVarId::new("a");
        let b = TimeVarId::new("b");
        problem.constrain(LinearConstraint::at_most(vec![(a.clone(), q(1))], q(0))).unwrap();
        problem.constrain(LinearConstraint::at_most(vec![(a, q(-1))], q(0))).unwrap();
        problem.constrain(LinearConstraint::at_most(vec![(b.clone(), q(1))], gap)).unwrap();
        problem.constrain(LinearConstraint::at_most(vec![(b, q(-1))], gap.neg())).unwrap();
    };
    let half = Q::new(1, 2);
    pin(&mut strict, half);
    pin(&mut justified, half);
    assert!(strict.solve().unwrap().is_consistent());
    assert!(
        !justified.solve().unwrap().is_consistent(),
        "inventing a delta would have changed this answer"
    );
}

#[test]
fn the_linear_profile_detects_an_impossible_system() {
    let mut problem = LinearTemporalProblem::new();
    let x = problem.variable("x");
    problem.constrain(LinearConstraint::at_most(vec![(x.clone(), q(1))], q(1))).unwrap();
    problem.constrain(LinearConstraint::at_most(vec![(x, q(-1))], q(-3))).unwrap();

    let outcome = problem.solve().unwrap();
    assert!(!outcome.is_consistent());
    assert_eq!(outcome.profile(), SolverProfile::LinearRatio);
    assert!(matches!(outcome, TemporalOutcome::Inconsistent { .. }));
}

#[test]
fn a_strict_inequality_alone_can_make_a_system_infeasible() {
    // x < 0 and x >= 0 is infeasible only if strictness is respected.
    let mut problem = LinearTemporalProblem::new();
    let x = problem.variable("x");
    problem.constrain(LinearConstraint::less_than(vec![(x.clone(), q(1))], q(0))).unwrap();
    problem.constrain(LinearConstraint::at_most(vec![(x, q(-1))], q(0))).unwrap();
    assert!(!problem.solve().unwrap().is_consistent());
}

struct Detector;

impl PredicateEvaluator for Detector {
    fn evaluate(&self, predicate: &ExternalPredicate) -> Option<bool> {
        (predicate.predicate_type == "umt:predicate:acoustic-decay-threshold").then_some(true)
    }
}

struct Undecided;

impl PredicateEvaluator for Undecided {
    fn evaluate(&self, _: &ExternalPredicate) -> Option<bool> {
        None
    }
}

struct Never;

impl PredicateEvaluator for Never {
    fn evaluate(&self, _: &ExternalPredicate) -> Option<bool> {
        Some(false)
    }
}

#[test]
fn f18_an_external_predicate_stays_external() {
    let mut linear = LinearTemporalProblem::new();
    let entry = linear.variable("entry");
    linear.constrain(LinearConstraint::at_most(vec![(entry, q(1))], q(30))).unwrap();

    let mut problem = HybridTemporalProblem::new(linear);
    problem.add_predicate(ExternalPredicate {
        id: String::from("decay-1"),
        predicate_type: String::from("umt:predicate:acoustic-decay-threshold"),
        contract: String::from(
            "true once the measured level of the previous sound falls below the stated \
             threshold, as reported by a configured detector",
        ),
        parameters: vec![
            ("threshold_db".to_string(), "-40".to_string()),
            ("source".to_string(), "voice:1".to_string()),
        ],
    });

    // No detector configured: the predicate stays unresolved, and no static
    // decidability is claimed.
    let outcome = problem.solve(None::<&Detector>).unwrap();
    assert!(!problem.claims_static_decidability());
    assert_eq!(outcome.unresolved(), ["decay-1"]);
    assert_eq!(outcome.profile(), SolverProfile::Hybrid);
    assert!(matches!(outcome, TemporalOutcome::PartiallySolved { .. }));
    assert!(
        outcome.is_consistent(),
        "the static part is consistent; the predicate is simply outstanding"
    );

    // The predicate carries data, never code.
    let predicate = &problem.predicates()[0];
    assert!(predicate.contract.contains("configured detector"));
    let threshold = predicate
        .parameters
        .iter()
        .find(|(name, _)| name == "threshold_db")
        .map(|(_, value)| value.as_str());
    assert_eq!(threshold, Some("-40"));

    // With a detector configured it resolves.
    let resolved = problem.solve(Some(&Detector)).unwrap();
    assert!(resolved.unresolved().is_empty());
    assert!(matches!(resolved, TemporalOutcome::Solved { .. }));

    // A detector that refuses to decide leaves it outstanding.
    assert_eq!(problem.solve(Some(&Undecided)).unwrap().unresolved(), ["decay-1"]);
}

#[test]
fn a_refuted_predicate_makes_the_network_inconsistent() {
    let mut problem = HybridTemporalProblem::new(LinearTemporalProblem::new());
    problem.add_predicate(ExternalPredicate {
        id: String::from("cue"),
        predicate_type: String::from("umt:predicate:conductor-cue"),
        contract: String::from("true once the conductor cues the entry"),
        parameters: Vec::new(),
    });

    let outcome = problem.solve(Some(&Never)).unwrap();
    assert!(!outcome.is_consistent());
    assert!(matches!(outcome, TemporalOutcome::Inconsistent { .. }));
}

#[test]
fn the_elimination_budget_is_reported_rather_than_exceeded_silently() {
    let mut problem = LinearTemporalProblem::new().with_budget(2);
    let x = problem.variable("x");
    let y = problem.variable("y");
    for bound in 0..4 {
        problem
            .constrain(LinearConstraint::at_most(vec![(x.clone(), q(1)), (y.clone(), q(1))], q(bound)))
            .unwrap();
        // Opposite signs on `y`, so elimination pairs every upper bound with
        // every lower bound and the system grows.
        problem
            .constrain(LinearConstraint::at_most(
                vec![(x.clone(), q(-1)), (y.clone(), q(-2))],
                q(bound),
            ))
            .unwrap();
    }
    assert!(matches!(
        problem.solve(),
        Err(TimeError::EliminationBudgetExceeded { budget: 2 })
    ));
}

#[test]
fn a_difference_bound_can_also_be_stated_in_the_linear_profile() {
    let mut problem = LinearTemporalProblem::new();
    let a = problem.variable("a");
    let b = problem.variable("b");
    problem
        .constrain_difference(&DifferenceConstraint::between(&a, &b, Some(q(2)), Some(q(5))))
        .unwrap();
    let outcome = problem.solve().unwrap();
    assert!(outcome.is_consistent());
    let assignment = outcome.assignment().unwrap();
    let difference = gap(assignment, &a, &b);
    assert!(q(2).le(&difference) && difference.le(&q(5)), "{difference:?}");
}

#[test]
fn a_solved_stp_assignment_meets_every_bound_it_reports() {
    let mut problem = StpProblem::new();
    let a = problem.variable("a");
    let b = problem.variable("b");
    let c = problem.variable("c");
    problem.constrain(DifferenceConstraint::at_least(&a, &b, q(1))).unwrap();
    problem.constrain(DifferenceConstraint::at_most(&a, &c, q(5))).unwrap();
    problem.constrain(DifferenceConstraint::between(&b, &c, Some(q(2)), None)).unwrap();
    let outcome = problem.solve().unwrap();
    let TemporalOutcome::Solved { assignment, tight_bounds, .. } = &outcome else {
        panic!("expected a solution");
    };
    for bound in tight_bounds {
        let difference = gap(assignment, &bound.from, &bound.to);
        if let Some(lower) = bound.lower {
            assert!(lower.le(&difference));
        }
        if let Some(upper) = bound.upper {
            assert!(difference.le(&upper));
        }
    }
    // The network forces c - a into [3, 5].
    let implied = tight_bounds.iter().find(|bound| bound.from == a && bound.to == c).unwrap();
    assert_eq!(implied.lower, Some(q(3)));
    assert_eq!(implied.upper, Some(q(5)));
}

#[test]
fn an_empty_network_is_solved_with_nothing_to_assign() {
    let outcome = StpProblem::new().solve().unwrap();
    assert!(matches!(
        outcome,
        TemporalOutcome::Solved { ref assignment, ref tight_bounds, .. }
            if assignment.is_empty() && tight_bounds.is_empty()
    ));
}

/// A small xorshift generator, so failures reproduce exactly.
struct Rng(u64);

impl Rng {
    fn new(seed: u64) -> Self {
        Self(seed | 1)
    }

    fn next(&mut self) -> u64 {
        self.0 ^= self.0 << 13;
        self.0 ^= self.0 >> 7;
        self.0 ^= self.0 << 17;
        self.0
    }

    fn below(&mut self, bound: u64) -> u64 {
        if bound == 0 { 0 } else { self.next() % bound }
    }
}

#[test]
fn temporal_constraint_graphs_terminate_on_adversarial_input() {
    // A dense graph with every pair constrained in both directions.
    let mut problem = StpProblem::new();
    let vars: Vec<_> = (0..12).map(|index| problem.variable(&format!("t{index}"))).collect();
    let mut rng = Rng::new(0x00c0_f05e);
    for from in &vars {
        for to in &vars {
            if from == to {
                continue;
            }
            let lower = rng.below(21) as i64 - 10;
            problem
                .constrain(DifferenceConstraint::between(
                    from,
                    to,
                    Some(q(lower)),
                    Some(q(lower + rng.below(11) as i64)),
                ))
                .unwrap();
        }
    }
    // Whatever the answer, it terminates and is self-consistent.
    let outcome = problem.solve().unwrap();
    if let Some(assignment) = outcome.assignment() {
        assert_eq!(assignment.len(), vars.len());
    }

    // A long negative cycle, which must be reported rather than looped over.
    let mut cyclic = StpProblem::new();
    let ring: Vec<_> = (0..40).map(|index| cyclic.variable(&format!("r{index}"))).collect();
    for index in 0..ring.len() {
        cyclic
            .constrain(DifferenceConstraint::at_most(
                &ring[index],
                &ring[(index + 1) % ring.len()],
                q(-1),
            ))
            .unwrap();
    }
    assert!(!cyclic.solve().unwrap().is_consistent(), "a negative cycle");
}

#[test]
fn the_implied_bounds_are_attained_and_a_missing_one_is_unbounded() {
    // t1 - t0 in [1, 3] and t2 - t1 in [2, 2]; t3 is free.
    let mut problem = StpProblem::new();
    let t0 = problem.variable("t0");
    let t1 = problem.variable("t1");
    let t2 = problem.variable("t2");
    let t3 = problem.variable("t3");
    problem.constrain(DifferenceConstraint::between(&t0, &t1, Some(q(1)), Some(q(3)))).unwrap();
    problem.constrain(DifferenceConstraint::between(&t1, &t2, Some(q(2)), Some(q(2)))).unwrap();
    let outcome = problem.solve().unwrap();
    let TemporalOutcome::Solved { tight_bounds, .. } = outcome else {
        panic!("the network is consistent");
    };
    let bound = |from: &TimeVarId, to: &TimeVarId| {
        tight_bounds
            .iter()
            .find(|b| b.from == *from && b.to == *to)
            .map(|b| (b.lower, b.upper))
    };
    // The implied bound from t0 to t2 is exactly [3, 5].
    assert_eq!(bound(&t0, &t2), Some((Some(q(3)), Some(q(5)))));
    assert_eq!(bound(&t2, &t0), Some((Some(q(-5)), Some(q(-3)))));
    // Every ordered pair of the chain is listed, and nothing involves t3.
    assert_eq!(tight_bounds.len(), 6);
    assert_eq!(bound(&t0, &t3), None);
    assert_eq!(bound(&t3, &t1), None);
}

#[test]
fn each_ordered_pair_has_at_most_one_tight_bound() {
    let mut problem = StpProblem::new();
    let a = problem.variable("a");
    let b = problem.variable("b");
    let c = problem.variable("c");
    problem.constrain(DifferenceConstraint::between(&a, &b, Some(q(1)), Some(q(2)))).unwrap();
    problem.constrain(DifferenceConstraint::between(&b, &c, Some(q(0)), Some(q(5)))).unwrap();
    problem.constrain(DifferenceConstraint::at_most(&a, &c, q(4))).unwrap();

    let outcome = problem.solve().unwrap();
    let TemporalOutcome::Solved { tight_bounds, .. } = &outcome else {
        panic!("expected a solution, got {outcome:?}");
    };
    for (i, first) in tight_bounds.iter().enumerate() {
        for second in &tight_bounds[i + 1..] {
            assert!(!(first.from == second.from && first.to == second.to));
        }
    }
    let a_to_c = tight_bounds
        .iter()
        .find(|bound| bound.from == a && bound.to == c)
        .expect("an implied bound from a to c");
    assert_eq!(a_to_c.upper, Some(q(4)));
    assert_eq!(a_to_c.lower, Some(q(1)));
}

#[test]
fn small_whole_bounds_are_always_solved() {
    let mut problem = StpProblem::new();
    let names = ["v0", "v1", "v2", "v3", "v4"];
    let vars: Vec<TimeVarId> = names.iter().map(|name| problem.variable(name)).collect();
    for pair in vars.windows(2) {
        problem
            .constrain(DifferenceConstraint::between(&pair[0], &pair[1], Some(q(-3)), Some(q(7))))
            .unwrap();
    }
    assert!(problem.solve().is_ok());
}

#[test]
fn fractional_bounds_on_a_common_grid_are_solved_exactly() {
    let mut problem = StpProblem::new();
    let a = problem.variable("a");
    let b = problem.variable("b");
    let c = problem.variable("c");
    problem
        .constrain(DifferenceConstraint::between(&a, &b, Some(Q::new(1, 3)), Some(Q::new(1, 2))))
        .unwrap();
    problem
        .constrain(DifferenceConstraint::between(&b, &c, Some(Q::new(1, 6)), Some(Q::new(2, 3))))
        .unwrap();
    let outcome = problem.solve().unwrap();
    let TemporalOutcome::Solved { assignment, tight_bounds, .. } = &outcome else {
        panic!("expected a solution, got {outcome:?}");
    };
    let first = gap(assignment, &a, &b);
    assert!(Q::new(1, 3).le(&first) && first.le(&Q::new(1, 2)));
    let second = gap(assignment, &b, &c);
    assert!(Q::new(1, 6).le(&second) && second.le(&Q::new(2, 3)));
    let a_to_c = tight_bounds
        .iter()
        .find(|bound| bound.from == a && bound.to == c)
        .expect("an implied bound from a to c");
    assert_eq!(a_to_c.lower, Some(Q::new(1, 2)));
    assert_eq!(a_to_c.upper, Some(Q::new(7, 6)));
}

#[test]
fn a_first_elimination_over_budget_is_refused_before_any_work() {
    let mut problem = LinearTemporalProblem::new().with_budget(3);
    let x = problem.variable("x");
    let y = problem.variable("y");
    for bound in 0..2 {
        problem
            .constrain(LinearConstraint::at_most(vec![(x.clone(), q(1)), (y.clone(), q(1))], q(bound)))
            .unwrap();
        problem
            .constrain(LinearConstraint::at_most(vec![(x.clone(), q(1)), (y.clone(), q(-1))], q(bound)))
            .unwrap();
    }
    assert!(matches!(
        problem.solve(),
        Err(TimeError::EliminationBudgetExceeded { budget: 3 })
    ));
}

#[test]
fn a_small_linear_system_within_budget_is_solved() {
    let mut problem = LinearTemporalProblem::new().with_budget(4);
    let x = problem.variable("x");
    let y = problem.variable("y");
    problem
        .constrain(LinearConstraint::at_most(vec![(x.clone(), q(1)), (y.clone(), q(1))], q(3)))
        .unwrap();
    problem
        .constrain(LinearConstraint::at_most(vec![(x.clone(), q(-1)), (y.clone(), q(-1))], q(-1)))
        .unwrap();
    let outcome = problem.solve().unwrap();
    let TemporalOutcome::Solved { assignment, .. } = &outcome else {
        panic!("expected a solution, got {outcome:?}");
    };
    let sum = value_of(assignment, &x).checked_add(&value_of(assignment, &y)).unwrap();
    assert!(q(1).le(&sum) && sum.le(&q(3)));
}
