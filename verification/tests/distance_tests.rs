use stac::distance::boolean_space;
use stac::distance::DistanceError;

#[test]
fn hamming_counts_differing_positions() {
    let a = vec![false, false, false, false];
    let b = vec![false, false, false, true];
    assert_eq!(boolean_space(&a, &b), Ok(1));
}

#[test]
fn hamming_zero_for_identical_vectors() {
    let a = vec![true, false, true];
    let b = vec![true, false, true];
    assert_eq!(boolean_space(&a, &b), Ok(0));
}

#[test]
fn hamming_full_distance_for_opposite_vectors() {
    let a = vec![false, false, false, false];
    let b = vec![true, true, true, true];
    assert_eq!(boolean_space(&a, &b), Ok(4));
}

#[test]
fn hamming_is_symmetric() {
    let a = vec![true, false, true, true, false];
    let b = vec![false, false, true, false, true];
    assert_eq!(boolean_space(&a, &b), boolean_space(&b, &a));
}

#[test]
fn hamming_triangle_inequality_on_sample() {
    let a = vec![false, false, false, false];
    let b = vec![true, true, false, false];
    let c = vec![true, true, true, true];
    let dab = boolean_space(&a, &b).unwrap();
    let dbc = boolean_space(&b, &c).unwrap();
    let dac = boolean_space(&a, &c).unwrap();
    assert!(dac <= dab + dbc);
}

#[test]
fn length_mismatch_is_an_error() {
    let a = vec![true, false];
    let b = vec![true, false, false];
    assert_eq!(boolean_space(&a, &b), Err(DistanceError::LengthMismatch));
}

#[test]
fn empty_vectors_are_identical() {
    let a: Vec<bool> = vec![];
    let b: Vec<bool> = vec![];
    assert_eq!(boolean_space(&a, &b), Ok(0));
}
