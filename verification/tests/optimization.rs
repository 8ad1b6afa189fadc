use lib::realization::optimization::{ApproximationGuarantee, OptimizationOutcome};

type Outcome = OptimizationOutcome<f64, f64>;

#[test]
fn accessors_agree_with_the_variants() {
    let exact: Outcome = OptimizationOutcome::Exact { solution: 2.0, cost: 1.0 };
    assert_eq!(exact.solution(), Some(&2.0));
    assert_eq!(exact.cost(), Some(&1.0));
    assert!(exact.is_optimal());

    let multiple: Outcome = OptimizationOutcome::Multiple { selected: 2.0, cost: 1.0, others: 3 };
    assert!(multiple.is_optimal(), "a tie is still a minimum");
    assert_eq!(multiple.solution(), Some(&2.0));

    let approximate: Outcome = OptimizationOutcome::Approximate {
        solution: 2.0,
        cost: 1.5,
        guarantee: ApproximationGuarantee::AbsoluteGap { epsilon: 0.5 },
    };
    assert!(!approximate.is_optimal());
    assert!(approximate.has_solution());

    let infeasible: Outcome = OptimizationOutcome::Infeasible;
    assert_eq!(infeasible.solution(), None);
    assert_eq!(infeasible.cost(), None);
    assert!(!infeasible.is_optimal());

    let unattained: Outcome = OptimizationOutcome::InfimumNotAttained { infimum: 0.0 };
    assert_eq!(unattained.solution(), None, "no minimizer may be fabricated");
    assert_eq!(unattained.cost(), Some(&0.0), "but the infimum is known");
    assert!(!unattained.is_optimal());
}

#[test]
fn a_searched_region_guarantee_records_what_was_searched() {
    let outcome: Outcome = OptimizationOutcome::Approximate {
        solution: 1.0,
        cost: 1.0,
        guarantee: ApproximationGuarantee::SearchedRegion {
            region: String::from("|c| <= 4"),
            examined: 9,
        },
    };
    match outcome {
        OptimizationOutcome::Approximate {
            guarantee: ApproximationGuarantee::SearchedRegion { region, examined },
            ..
        } => {
            assert_eq!(region, "|c| <= 4");
            assert_eq!(examined, 9);
        }
        other => panic!("unexpected outcome {other:?}"),
    }
}

#[test]
fn outcomes_without_a_solution_yield_none_when_consumed() {
    let unattained: Outcome = OptimizationOutcome::InfimumNotAttained { infimum: 0.0 };
    assert_eq!(unattained.into_solution(), None);
    let exact: OptimizationOutcome<i64, i64> = OptimizationOutcome::Exact { solution: 7, cost: 0 };
    assert_eq!(exact.into_solution(), Some(7));
    let unquantified: OptimizationOutcome<i64, i64> = OptimizationOutcome::Approximate {
        solution: 3,
        cost: 9,
        guarantee: ApproximationGuarantee::Unquantified,
    };
    assert!(!unquantified.is_optimal());
    assert_eq!(unquantified.cost(), Some(&9));
}
