use lib::temperament::search::advance;

#[test]
fn the_odometer_visits_every_point_of_the_box_once() {
    let bounds = [1i64, 2];
    let mut digits = [-1i64, -2];
    let mut seen = vec![digits];
    while advance(&mut digits, &bounds) {
        seen.push(digits);
    }
    assert_eq!(seen.len(), 15);
    assert_eq!(seen[1], [0, -2]);
    assert_eq!(seen[3], [-1, -1]);
    assert_eq!(seen[14], [1, 2]);
    let mut sorted = seen.clone();
    sorted.sort();
    sorted.dedup();
    assert_eq!(sorted.len(), 15);
    assert_eq!(digits, [-1, -2], "wrapping around returns to the start");
}

#[test]
fn digits_without_a_bound_are_left_alone() {
    let mut digits = [0i64, 0, 7];
    assert!(advance(&mut digits, &[0, 3]));
    assert_eq!(digits, [0, 1, 7]);
    let mut at_end = [0i64, 3, 7];
    assert!(!advance(&mut at_end, &[0, 3]));
    assert_eq!(at_end, [0, -3, 7]);
    let mut empty: [i64; 0] = [];
    assert!(!advance(&mut empty, &[5]));
}
