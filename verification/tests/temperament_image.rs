use lib::error::TemperamentError;
use lib::temperament::image::AmbientLattice;

#[test]
fn ambient_elements_form_a_group() {
    let gamma = AmbientLattice::new("umt:edo:12", 1);
    let a = gamma.element(&[5]).unwrap();
    let b = gamma.element(&[-2]).unwrap();
    assert_eq!(a.checked_add(&b).unwrap(), gamma.element(&[3]).unwrap());
    assert_eq!(a.checked_sub(&a).unwrap(), gamma.zero());
    assert_eq!(a.checked_add(&a.neg().unwrap()).unwrap(), gamma.zero());
}

#[test]
fn ambient_lattices_of_equal_rank_are_not_interchangeable() {
    let steps = AmbientLattice::new("umt:edo:12", 1);
    let other = AmbientLattice::new("umt:tempo-grid", 1);
    let a = steps.element(&[1]).unwrap();
    let b = other.element(&[1]).unwrap();
    assert_ne!(a, b);
    assert!(matches!(
        a.checked_add(&b),
        Err(TemperamentError::AmbientMismatch { .. })
    ));
}

#[test]
fn a_coordinate_count_must_match_the_rank() {
    let gamma = AmbientLattice::new("umt:rank2", 2);
    assert_eq!(
        gamma.element(&[1]),
        Err(TemperamentError::CoordinateRank { expected: 2, found: 1 })
    );
    let x = gamma.element(&[1, -4]).unwrap();
    assert_eq!(x.coordinates(), &[1, -4]);
    assert_eq!(x.lattice().rank(), 2);
    assert_eq!(x.lattice().id().as_str(), "umt:rank2");
    assert!(!x.is_zero());
    assert!(gamma.zero().is_zero());
}

#[test]
fn coordinates_that_leave_the_stored_range_are_reported() {
    let gamma = AmbientLattice::new("umt:edo:12", 1);
    let big = gamma.element(&[i64::MAX]).unwrap();
    let one = gamma.element(&[1]).unwrap();
    assert_eq!(big.checked_add(&one), Err(TemperamentError::Overflow));
    let low = gamma.element(&[i64::MIN]).unwrap();
    assert_eq!(low.neg(), Err(TemperamentError::Overflow));
    assert!(gamma.same_identity(&AmbientLattice::new("umt:edo:12", 1)));
    assert!(!gamma.same_identity(&AmbientLattice::new("umt:edo:12", 2)));
}
