use lib::algebra::Q;
use lib::error::TimeError;
use lib::time::beat::{BeatSpan, BeatTime, Beats};
use lib::time::rhythm::{flattened_total, CyclicRhythm, RhythmTree};

fn span(beats: i64) -> BeatSpan {
    BeatSpan::new(BeatTime::zero(), BeatTime::ratio(beats, 1).unwrap()).unwrap()
}

fn onsets(tree: &RhythmTree, over: &BeatSpan) -> Vec<Q> {
    tree.flatten(over)
        .unwrap()
        .iter()
        .map(|leaf| leaf.span().start().get())
        .collect()
}

#[test]
fn f11_additive_two_two_three_flattens_to_exact_boundaries() {
    let bar = RhythmTree::additive(&[2, 2, 3]).unwrap();
    let seven = span(7);
    assert_eq!(onsets(&bar, &seven), [Q::integer(0), Q::integer(2), Q::integer(4)]);

    let leaves = bar.flatten(&seven).unwrap();
    assert_eq!(leaves.len(), 3);
    assert_eq!(leaves[2].span().end().get(), Q::integer(7));
    assert_eq!(flattened_total(&leaves).unwrap(), Beats::ratio(7, 1).unwrap());

    // Child order is preserved and the weights are still there.
    assert_eq!(
        bar.children().iter().map(|child| child.weight()).collect::<Vec<_>>(),
        [Q::integer(2), Q::integer(2), Q::integer(3)]
    );
}

#[test]
fn children_exactly_partition_the_parent() {
    // A quintuplet inside a triplet: boundaries no float represents.
    let tree = RhythmTree::division(vec![
        RhythmTree::equal_division(5).unwrap(),
        RhythmTree::leaf(1).unwrap(),
        RhythmTree::leaf(1).unwrap(),
    ])
    .unwrap();
    let bar = span(1);

    let leaves = tree.flatten(&bar).unwrap();
    assert_eq!(leaves.len(), 7);
    assert_eq!(leaves[0].span().start(), BeatTime::zero());
    assert_eq!(leaves[6].span().end().get(), Q::integer(1));

    // Each leaf begins where the previous ended.
    for pair in leaves.windows(2) {
        assert_eq!(pair[0].span().end(), pair[1].span().start());
    }
    assert_eq!(flattened_total(&leaves).unwrap(), Beats::ratio(1, 1).unwrap());

    // The first five leaves are fifteenths of a beat.
    assert_eq!(
        leaves[0].span().duration().unwrap(),
        Beats::ratio(1, 15).unwrap(),
        "a fifth of a third"
    );
    assert_eq!(leaves[0].depth(), 2);
    assert_eq!(leaves[5].depth(), 1);
    assert_eq!(leaves[0].path(), &[0, 0]);
}

#[test]
fn recursive_flattening_preserves_the_root_total() {
    let tree = RhythmTree::division(vec![
        RhythmTree::weighted_division(
            Q::new(3, 2),
            vec![RhythmTree::leaf(1).unwrap(), RhythmTree::leaf(2).unwrap()],
        )
        .unwrap(),
        RhythmTree::equal_division(7).unwrap(),
        RhythmTree::leaf(5).unwrap(),
    ])
    .unwrap();
    for beats in [1i64, 3, 7, 12] {
        let bar = span(beats);
        assert_eq!(
            flattened_total(&tree.flatten(&bar).unwrap()).unwrap(),
            Beats::ratio(beats, 1).unwrap(),
            "{beats} beats"
        );
    }
    assert_eq!(tree.leaf_count(), 10);
    assert_eq!(tree.depth(), 2);
}

#[test]
fn weights_must_be_positive_and_divisions_non_empty() {
    assert_eq!(RhythmTree::leaf(0), Err(TimeError::NonPositiveWeight));
    assert_eq!(RhythmTree::leaf(-3), Err(TimeError::NonPositiveWeight));
    assert_eq!(RhythmTree::division(Vec::new()), Err(TimeError::EmptyDivision));
    assert_eq!(RhythmTree::equal_division(0), Err(TimeError::EmptyDivision));
}

#[test]
fn flattening_is_lossy_and_the_tree_is_the_source() {
    // Two structurally different trees with identical leaf boundaries.
    let flat = RhythmTree::additive(&[1, 1, 1, 1]).unwrap();
    let nested = RhythmTree::division(vec![
        RhythmTree::equal_division(2).unwrap(),
        RhythmTree::equal_division(2).unwrap(),
    ])
    .unwrap();
    let bar = span(4);

    assert_eq!(onsets(&flat, &bar), onsets(&nested, &bar));
    assert_ne!(flat, nested, "the trees are different, and stay different");
    assert_ne!(flat.depth(), nested.depth());

    // The path is the only structural trace that survives, and it differs.
    let flat_leaves = flat.flatten(&bar).unwrap();
    let nested_leaves = nested.flatten(&bar).unwrap();
    assert_eq!(flat_leaves[3].path(), &[3]);
    assert_eq!(nested_leaves[3].path(), &[1, 1]);
}

#[test]
fn a_cyclic_pattern_keeps_its_rotation_convention() {
    // The tresillo: onsets at 0, 3, 6 of an eight-pulse cycle.
    let tresillo = CyclicRhythm::new(8, &[0, 3, 6], 0).unwrap();
    assert_eq!(tresillo.onsets(), &[0, 3, 6]);
    assert!(tresillo.is_onset(3));
    assert!(!tresillo.is_onset(4));
    assert_eq!(tresillo.inter_onset_pulses(), [3, 3, 2]);
    assert_eq!(tresillo.inter_onset_pulses().iter().sum::<u32>(), tresillo.pulses());

    let rotated = tresillo.rotated(3).unwrap();
    assert_eq!(rotated.onsets(), &[0, 3, 5]);
    assert_eq!(rotated.rotation(), 5, "the reference travels with it");

    // Exact onset times over a two-beat cycle.
    let times = tresillo.onset_times(&span(2)).unwrap();
    assert_eq!(times[1].get(), Q::new(3, 4));
}

#[test]
fn a_cycle_validates_its_own_bounds() {
    assert_eq!(CyclicRhythm::new(0, &[], 0), Err(TimeError::EmptyCycle));
    assert_eq!(
        CyclicRhythm::new(4, &[4], 0),
        Err(TimeError::OnsetOutsideCycle { index: 4, pulses: 4 })
    );
    assert!(CyclicRhythm::new(4, &[0, 0, 2], 0).is_ok());
    assert_eq!(
        CyclicRhythm::new(4, &[0, 0, 2], 0).unwrap().onsets(),
        &[0, 2],
        "a pulse either carries an onset or does not"
    );
}

#[test]
fn child_spans_meet_at_their_boundaries() {
    let tree = RhythmTree::additive(&[1, 2]).unwrap();
    let spans = tree.child_spans(&span(3)).unwrap();
    assert_eq!(spans.len(), 2);
    assert_eq!(spans[0].end(), spans[1].start());
    assert_eq!(spans[1].end().get(), Q::integer(3));
    assert_eq!(spans[0].end().get(), Q::integer(1));
}

#[test]
fn the_first_onset_outside_the_cycle_is_the_one_reported() {
    assert_eq!(
        CyclicRhythm::new(4, &[1, 9, 7], 0),
        Err(TimeError::OnsetOutsideCycle { index: 9, pulses: 4 })
    );
    assert_eq!(
        CyclicRhythm::new(4, &[1, 2], 6),
        Err(TimeError::OnsetOutsideCycle { index: 6, pulses: 4 })
    );
}

#[test]
fn weights_whose_running_sum_leaves_storage_are_reported() {
    let big = i64::MAX / 2 + 1;
    let tree = RhythmTree::additive(&[big, big]).unwrap();
    assert_eq!(tree.child_spans(&span(1)), Err(TimeError::Overflow));
    assert_eq!(tree.flatten(&span(1)).err(), Some(TimeError::Overflow));
}

#[test]
fn onset_times_over_a_cycle_are_exact_and_report_overflow() {
    let tresillo = CyclicRhythm::new(8, &[0, 3, 6], 0).unwrap();
    let times = tresillo.onset_times(&span(2)).unwrap();
    let values: Vec<Q> = times.iter().map(|t| t.get()).collect();
    assert_eq!(values, vec![Q::integer(0), Q::new(3, 4), Q::new(3, 2)]);
    let wide = BeatSpan::new(
        BeatTime::ratio(-(i64::MAX / 2 + 2), 1).unwrap(),
        BeatTime::ratio(i64::MAX / 2 + 2, 1).unwrap(),
    )
    .unwrap();
    assert_eq!(tresillo.onset_times(&wide), Err(TimeError::Overflow));
}
