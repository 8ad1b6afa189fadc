use lib::algebra::{RoundingConvention, Q};
use lib::error::TimeError;
use lib::time::beat::{BeatSpan, BeatTime, Beats};
use lib::time::quantize::{
    AllocationInfeasibility, AllocationOutcome, AllocationPolicy, TickGrid,
};
use lib::time::rhythm::RhythmTree;
use RoundingConvention::{Ceiling, Floor, NearestHalfAwayFromZero, NearestHalfToEven};

fn ones(count: usize) -> Vec<Q> {
    vec![Q::integer(1); count]
}

fn grid() -> TickGrid {
    TickGrid::new(96).unwrap()
}

fn largest_magnitude(values: Vec<Beats>) -> Beats {
    let mut best = Beats::zero();
    for value in values {
        let value = value.abs();
        if best.get().lt(&value.get()) {
            best = value;
        }
    }
    best
}

#[test]
fn a_quantizer_returns_the_residual_with_the_value() {
    // Three sevenths of a beat on a 96-tick grid: 288/7 = 41.142857...
    let at = BeatTime::ratio(3, 7).unwrap();
    let floored = grid().quantize(&at, Floor).unwrap();
    assert_eq!(floored.value, 41);
    assert_eq!(floored.convention, Floor);
    // Residual is positive under floor: the source lies above the tick.
    assert!(floored.residual.is_positive());
    assert_eq!(
        floored.residual,
        Beats::new(Q::new(3, 7).checked_sub(&Q::new(41, 96)).unwrap())
    );

    let ceiled = grid().quantize(&at, Ceiling).unwrap();
    assert_eq!(ceiled.value, 42);
    assert!(!ceiled.residual.is_positive(), "ceiling residual is <= 0");
}

#[test]
fn quantizers_are_the_identity_on_represented_values() {
    for ticks in [-97i64, -1, 0, 1, 48, 96, 193] {
        let at = grid().tick_time(ticks).unwrap();
        assert!(grid().represents(&at));
        for convention in [Floor, Ceiling, NearestHalfAwayFromZero, NearestHalfToEven] {
            let quantized = grid().quantize(&at, convention).unwrap();
            assert_eq!(quantized.value, ticks, "{ticks} under {convention:?}");
            assert!(quantized.residual.is_zero());
        }
    }
}

#[test]
fn floor_and_ceiling_bracket_nearest_and_the_tie_policy_matters() {
    // Exactly half a tick past tick 3, on a 2-tick-per-beat grid.
    let coarse = TickGrid::new(2).unwrap();
    let at = BeatTime::ratio(7, 4).unwrap(); // 3.5 ticks
    assert_eq!(coarse.quantize(&at, Floor).unwrap().value, 3);
    assert_eq!(coarse.quantize(&at, Ceiling).unwrap().value, 4);
    assert_eq!(coarse.quantize(&at, NearestHalfAwayFromZero).unwrap().value, 4);
    assert_eq!(coarse.quantize(&at, NearestHalfToEven).unwrap().value, 4);

    // At 2.5 ticks the two nearest policies disagree.
    let at = BeatTime::ratio(5, 4).unwrap();
    assert_eq!(coarse.quantize(&at, NearestHalfAwayFromZero).unwrap().value, 3);
    assert_eq!(coarse.quantize(&at, NearestHalfToEven).unwrap().value, 2);

    // Negative halves go away from zero, not down.
    let at = BeatTime::ratio(-5, 4).unwrap();
    assert_eq!(coarse.quantize(&at, NearestHalfAwayFromZero).unwrap().value, -3);
    assert_eq!(coarse.quantize(&at, Floor).unwrap().value, -3);
    assert_eq!(coarse.quantize(&at, Ceiling).unwrap().value, -2);
}

#[test]
fn f12_independent_local_flooring_drifts() {
    let allocation = grid().allocate_locally(&ones(5), 96, Floor).unwrap();
    assert_eq!(allocation.child_ticks(), [19, 19, 19, 19, 19], "96/5 = 19.2 ticks, floored");
    assert_eq!(allocation.total_ticks(), 95);
    assert!(!allocation.endpoint_preserved());
    assert_eq!(allocation.endpoint_drift(), 1);
    assert!(!allocation.is_endpoint_preserving_method());

    // Every child residual is reported, exactly.
    for child in allocation.children() {
        assert_eq!(child.exact_ticks(), Q::new(96, 5));
        assert_eq!(
            child.residual(),
            Beats::new(Q::new(1, 5).checked_div(&Q::integer(96)).unwrap())
        );
    }
}

#[test]
fn f13_boundary_rounding_preserves_the_endpoint() {
    let allocation = grid()
        .allocate_preserving_endpoint(&ones(5), 96, &AllocationPolicy::default_policy())
        .unwrap()
        .into_allocation()
        .unwrap();

    assert_eq!(
        allocation.child_ticks(),
        [19, 19, 20, 19, 19],
        "the boundaries 0, 19, 38, 58, 77, 96"
    );
    assert_eq!(allocation.total_ticks(), 96);
    assert!(allocation.endpoint_preserved());
    assert!(allocation.is_endpoint_preserving_method());
    assert_eq!(allocation.endpoint_drift(), 0);

    // Residuals are relative to the exact structural child duration, and they
    // are not all equal: the middle child is a tick long.
    let residuals: Vec<Beats> = allocation.children().iter().map(|child| child.residual()).collect();
    assert!(residuals[0].is_positive(), "19 ticks is short of 19.2");
    assert!(!residuals[2].is_positive(), "20 ticks overshoots 19.2");
    assert_eq!(
        Beats::sum(&residuals).unwrap(),
        Beats::zero(),
        "the residuals cancel exactly, which is what preserving the endpoint means"
    );
}

#[test]
fn f27_an_infeasible_positive_span_allocation_is_reported() {
    // Three children, each requiring at least one tick, into two ticks.
    let policy = AllocationPolicy::default_policy().with_minimum_ticks(1);
    let outcome = grid().allocate_preserving_endpoint(&ones(3), 2, &policy).unwrap();

    assert!(!outcome.is_feasible());
    assert!(outcome.allocation().is_none());
    assert_eq!(
        outcome,
        AllocationOutcome::Infeasible {
            reason: AllocationInfeasibility::MinimumSpan {
                children: 3,
                required_ticks: 3,
                available_ticks: 2,
            }
        }
    );

    // A collapse is available, but only by naming it, and it says which
    // children collapsed.
    let permitted = policy.allowing_collapse();
    let allocation = grid()
        .allocate_preserving_endpoint(&ones(3), 2, &permitted)
        .unwrap()
        .into_allocation()
        .unwrap();
    assert_eq!(allocation.total_ticks(), 2);
    assert!(!allocation.collapsed().is_empty());

    // With one more tick it fits.
    let fits = grid().allocate_preserving_endpoint(&ones(3), 3, &policy).unwrap();
    assert!(fits.is_feasible());
    assert_eq!(fits.into_allocation().unwrap().child_ticks(), [1, 1, 1]);
}

#[test]
fn f14_a_nested_tree_re_realizes_from_the_source_at_any_resolution() {
    // Five inside three: a quintuplet filling the first third of a beat.
    let tree = RhythmTree::division(vec![
        RhythmTree::equal_division(5).unwrap(),
        RhythmTree::leaf(1).unwrap(),
        RhythmTree::leaf(1).unwrap(),
    ])
    .unwrap();
    let beat = BeatSpan::new(BeatTime::zero(), BeatTime::ratio(1, 1).unwrap()).unwrap();
    let policy = AllocationPolicy::default_policy();

    let coarse = TickGrid::new(96).unwrap().quantize_tree(&tree, &beat, &policy).unwrap();
    let fine = TickGrid::new(960).unwrap().quantize_tree(&tree, &beat, &policy).unwrap();

    assert!(coarse.is_feasible() && fine.is_feasible());
    assert_eq!(coarse.tick_count(), 96);
    assert_eq!(fine.tick_count(), 960);

    // Both keep the exact source span at every node.
    assert_eq!(coarse.source(), fine.source());
    assert_eq!(coarse.children()[0].source(), fine.children()[0].source());
    assert_eq!(
        coarse.children()[0].source().duration().unwrap(),
        Beats::ratio(1, 3).unwrap()
    );

    // Children tile the parent exactly at both resolutions.
    for node in [&coarse, &fine] {
        let leaves = node.leaf_ticks();
        assert_eq!(leaves.len(), 7);
        assert_eq!(leaves[0].0, node.start_tick());
        assert_eq!(leaves[6].1, node.end_tick());
        for pair in leaves.windows(2) {
            assert_eq!(pair[0].1, pair[1].0);
        }
    }

    // The finer grid is strictly better: 32/5 = 6.4 ticks per quintuplet
    // note at P=96, against 64 at P=960.
    assert_eq!(coarse.leaf_ticks()[0], (0, 6));
    assert_eq!(fine.leaf_ticks()[0], (0, 64));
    let coarse_worst = largest_magnitude(coarse.residuals());
    let fine_worst = largest_magnitude(fine.residuals());
    assert!(fine_worst.get().lt(&coarse_worst.get()), "a finer grid loses less");
}

#[test]
fn a_hierarchical_quantization_reports_an_infeasible_subtree() {
    // A three-way division inside a span too short to hold it.
    let tree = RhythmTree::division(vec![
        RhythmTree::equal_division(3).unwrap(),
        RhythmTree::leaf(23).unwrap(),
    ])
    .unwrap();
    let beat = BeatSpan::new(BeatTime::zero(), BeatTime::ratio(1, 1).unwrap()).unwrap();
    let coarse = TickGrid::new(24).unwrap();
    let policy = AllocationPolicy::default_policy().with_minimum_ticks(1);

    let node = coarse.quantize_tree(&tree, &beat, &policy).unwrap();
    assert!(!node.is_feasible());
    let first = &node.children()[0];
    assert_eq!(first.tick_count(), 1, "one tick for three children");
    assert!(first.issue().is_some());
    assert!(first.is_leaf(), "no descent into an infeasible node");
}

#[test]
fn grids_and_weights_are_validated() {
    assert_eq!(TickGrid::new(0), Err(TimeError::EmptyCycle));
    assert_eq!(grid().allocate_locally(&[], 96, Floor), Err(TimeError::EmptyDivision));
    assert_eq!(
        grid().allocate_locally(&[Q::integer(0)], 96, Floor),
        Err(TimeError::NonPositiveWeight)
    );
    assert_eq!(grid().to_string(), "96 ticks/beat");
}

#[test]
fn unequal_weights_allocate_proportionally() {
    // 2 + 2 + 3 of a 96-tick parent: 27.43, 27.43, 41.14 ticks.
    let weights = [2, 2, 3].map(Q::integer);
    let allocation = grid()
        .allocate_preserving_endpoint(&weights, 96, &AllocationPolicy::default_policy())
        .unwrap()
        .into_allocation()
        .unwrap();
    assert_eq!(allocation.total_ticks(), 96);
    assert_eq!(allocation.child_ticks(), [27, 28, 41]);
    assert!(allocation.endpoint_preserved());
}

#[test]
fn floor_and_ceiling_bracket_a_position_one_step_apart() {
    let grid = TickGrid::new(4).unwrap();
    for (numerator, denominator) in [(7i64, 3i64), (-7, 3), (5, 2), (-1, 97), (400, 1)] {
        let at = BeatTime::ratio(numerator, denominator).unwrap();
        let floor = grid.quantize(&at, Floor).unwrap().value;
        let ceiling = grid.quantize(&at, Ceiling).unwrap().value;
        // floor / 4 <= numerator / denominator <= ceiling / 4
        assert!(floor * denominator <= numerator * 4);
        assert!(numerator * 4 <= ceiling * denominator);
        assert!(ceiling - floor <= 1 && ceiling >= floor);
        // A later position never rounds earlier.
        let later = at.translate(&Beats::ratio(1, 4).unwrap()).unwrap();
        assert!(grid.quantize(&later, Floor).unwrap().value >= floor);
        assert!(grid.quantize(&later, Ceiling).unwrap().value >= ceiling);
    }
    let at = BeatTime::ratio(7, 3).unwrap();
    assert_eq!(grid.quantize(&at, Floor).unwrap().value, 9);
    assert_eq!(grid.quantize(&at, Ceiling).unwrap().value, 10);
}

#[test]
fn grid_positions_are_their_own_quantization_under_every_convention() {
    let grid = TickGrid::new(6).unwrap();
    for ticks in [-13i64, 0, 5, 12] {
        let at = grid.tick_time(ticks).unwrap();
        for convention in [Floor, Ceiling, NearestHalfAwayFromZero, NearestHalfToEven] {
            let q = grid.quantize(&at, convention).unwrap();
            assert_eq!(q.value, ticks);
            assert!(q.residual.is_zero());
        }
    }
}

#[test]
fn nearest_rounding_stays_within_half_a_step_and_breaks_ties_as_declared() {
    let grid = TickGrid::new(2).unwrap();
    // 5/4 beats is 2.5 ticks: a tie.
    let tie = BeatTime::ratio(5, 4).unwrap();
    assert_eq!(grid.quantize(&tie, NearestHalfAwayFromZero).unwrap().value, 3);
    assert_eq!(grid.quantize(&tie, NearestHalfToEven).unwrap().value, 2);
    let negative_tie = BeatTime::ratio(-5, 4).unwrap();
    assert_eq!(grid.quantize(&negative_tie, NearestHalfAwayFromZero).unwrap().value, -3);
    assert_eq!(grid.quantize(&negative_tie, NearestHalfToEven).unwrap().value, -2);
    let half_step = Beats::ratio(1, 4).unwrap();
    for (numerator, denominator) in [(5i64, 4i64), (7, 5), (-7, 5), (1, 3)] {
        let at = BeatTime::ratio(numerator, denominator).unwrap();
        for convention in [NearestHalfAwayFromZero, NearestHalfToEven] {
            let residual = grid.quantize(&at, convention).unwrap().residual.abs();
            assert!(!half_step.get().lt(&residual.get()));
        }
    }
}

#[test]
fn allocations_whose_scaled_weights_leave_storage_are_reported() {
    let weights = vec![Q::integer(3), Q::integer(5)];
    assert_eq!(
        grid().allocate_locally(&weights, i64::MAX, Floor).err(),
        Some(TimeError::Overflow)
    );
    assert_eq!(
        grid()
            .allocate_preserving_endpoint(&weights, i64::MAX, &AllocationPolicy::default_policy())
            .err(),
        Some(TimeError::Overflow)
    );
    // Small inputs allocate, and the local shares are exact.
    let local = grid().allocate_locally(&weights, 16, Floor).unwrap();
    let ticks: Vec<i64> = local.children().iter().map(|child| child.ticks()).collect();
    assert_eq!(ticks, vec![6, 10]);
}

#[test]
fn a_tree_over_a_span_too_long_for_the_grid_is_reported() {
    let tree = RhythmTree::additive(&[1, 1]).unwrap();
    let span = BeatSpan::new(BeatTime::zero(), BeatTime::ratio(i64::MAX / 2, 1).unwrap()).unwrap();
    assert_eq!(
        grid().quantize_tree(&tree, &span, &AllocationPolicy::default_policy()).err(),
        Some(TimeError::Overflow)
    );
}
