use lib::algebra::Q;
use lib::error::TimeError;
use lib::time::beat::{BeatDuration, BeatSpan, BeatTime, Beats};

#[test]
fn the_structural_timeline_is_a_torsor() {
    let p = BeatTime::ratio(3, 2).unwrap();
    let g = Beats::ratio(1, 3).unwrap();
    let h = Beats::ratio(-5, 4).unwrap();

    // (p + g) + h = p + (g + h)
    assert_eq!(
        p.translate(&g).unwrap().translate(&h).unwrap(),
        p.translate(&g.checked_add(&h).unwrap()).unwrap()
    );
    // p + 0 = p
    assert_eq!(p.translate(&Beats::zero()).unwrap(), p);
    // p + int(p, q) = q
    let q = p.translate(&g).unwrap();
    assert_eq!(p.translate(&p.interval_to(&q).unwrap()).unwrap(), q);
    // int(p, q) + int(q, r) = int(p, r)
    let r = q.translate(&h).unwrap();
    assert_eq!(
        p.interval_to(&q).unwrap().checked_add(&q.interval_to(&r).unwrap()).unwrap(),
        p.interval_to(&r).unwrap()
    );
}

#[test]
fn nested_tuplets_are_represented_exactly() {
    // A quintuplet sixteenth inside a triplet eighth is 1/15 of a beat.
    let triplet_eighth = Beats::ratio(1, 3).unwrap();
    let fifth = triplet_eighth.scale(&Q::new(1, 5)).unwrap();
    assert_eq!(fifth.get(), Q::new(1, 15));

    let five = Beats::sum(&[fifth, fifth, fifth, fifth, fifth]).unwrap();
    assert_eq!(five, triplet_eighth, "five fifths are exactly the whole");
}

#[test]
fn a_duration_is_strictly_positive() {
    assert_eq!(BeatDuration::new(Q::integer(0)), Err(TimeError::NonPositiveDuration));
    assert!(BeatDuration::ratio(-1, 2).is_err());
    assert!(BeatDuration::ratio(1, 0).is_err());
    assert_eq!(BeatDuration::ratio(3, 2).unwrap().to_beats(), Beats::ratio(3, 2).unwrap());
    assert!(Beats::zero().to_duration().is_err());
}

#[test]
fn note_values_are_what_they_should_be() {
    assert_eq!(Beats::whole(), Beats::ratio(4, 1).unwrap());
    assert_eq!(Beats::half(), Beats::ratio(2, 1).unwrap());
    assert_eq!(Beats::quarter(), Beats::ratio(1, 1).unwrap());
    assert_eq!(Beats::eighth(), Beats::ratio(1, 2).unwrap());
    assert_eq!(Beats::sixteenth(), Beats::ratio(1, 4).unwrap());
    // A dotted quarter is one and a half beats.
    assert_eq!(
        Beats::quarter().checked_add(&Beats::eighth()).unwrap(),
        Beats::ratio(3, 2).unwrap()
    );
}

#[test]
fn spans_are_ordered_and_measurable() {
    let span =
        BeatSpan::from_duration(BeatTime::zero(), &BeatDuration::ratio(7, 2).unwrap()).unwrap();
    assert_eq!(span.duration().unwrap(), Beats::ratio(7, 2).unwrap());
    assert!(span.contains(&BeatTime::ratio(7, 2).unwrap()));
    assert!(!span.contains(&BeatTime::ratio(4, 1).unwrap()));
    assert!(!span.is_instant());

    assert!(matches!(
        BeatSpan::new(BeatTime::ratio(2, 1).unwrap(), BeatTime::zero()),
        Err(TimeError::ReversedBeatSpan)
    ));
    assert!(
        BeatSpan::new(BeatTime::zero(), BeatTime::zero()).is_ok(),
        "an instant is legal"
    );
}

#[test]
fn durations_form_a_group() {
    let a = Beats::ratio(2, 3).unwrap();
    let b = Beats::ratio(-1, 6).unwrap();
    assert_eq!(a.checked_add(&b).unwrap().checked_sub(&b).unwrap(), a);
    assert_eq!(a.checked_add(&a.neg()).unwrap(), Beats::zero());
    assert_eq!(a.abs(), a);
    assert_eq!(a.neg().abs(), a);
    assert!(a.is_positive());
    assert!(!b.is_positive());
    assert!(Beats::zero().is_zero());
}

#[test]
fn an_overflowing_translation_is_reported_rather_than_wrapped() {
    let far = BeatTime::new(Q::integer(i64::MAX));
    assert!(far.translate(&Beats::ratio(1, 1).unwrap()).is_none());
    assert!(Beats::ratio(i64::MIN, 1).is_err());
}

#[test]
fn a_sum_that_leaves_the_storage_is_refused() {
    let big = Beats::ratio(i64::MAX, 1).unwrap();
    assert!(Beats::sum(&[big, big]).is_none());
    let back = Beats::ratio(-i64::MAX, 1).unwrap();
    assert_eq!(Beats::sum(&[big, back]).unwrap(), Beats::zero());
    assert_eq!(Beats::sum(&[]).unwrap(), Beats::zero());
}
