use breakpoints::decoder::rank;
use breakpoints::error::BreakpointError;
use breakpoints::util::{is_comparable, np_argmax};

#[test]
fn argmax_of_tied_maxima_is_the_last() {
    assert_eq!(np_argmax(&[3, 1, 3]), 2);
}

#[test]
fn argmax_of_one_element_is_zero() {
    assert_eq!(np_argmax(&[5]), 0);
}

#[test]
fn argmax_finds_a_maximum_at_any_position() {
    assert_eq!(np_argmax(&[9, 1, 3]), 0);
    assert_eq!(np_argmax(&[2, 9, 3]), 1);
    assert_eq!(np_argmax(&[2, 1, 9]), 2);
    assert_eq!(np_argmax(&[-4, -1, -9, -2]), 1);
}

#[test]
fn argmax_of_equal_elements_is_the_last_index() {
    assert_eq!(np_argmax(&[7u8, 7, 7, 7]), 3);
    assert_eq!(np_argmax(&[1, 4, 4, 2, 4, 0]), 4);
}

#[test]
fn argmax_orders_floats_and_strings() {
    assert_eq!(np_argmax(&[0.25f64, 0.75, 0.5]), 1);
    assert_eq!(np_argmax(&[1.5f64, -0.0, 1.5, 0.0]), 2);
    assert_eq!(np_argmax(&["pear", "apple", "plum"]), 2);
}

#[test]
fn argmax_of_a_lone_nan_is_zero() {
    assert_eq!(np_argmax(&[f64::NAN]), 0);
}

#[test]
fn nan_is_not_comparable() {
    assert!(!is_comparable(&f64::NAN));
    assert!(is_comparable(&1.0f64));
    assert!(is_comparable(&f64::INFINITY));
    assert!(is_comparable(&17u32));
}

#[test]
fn rank_selects_the_last_maximum() {
    assert_eq!(rank(&[1.0f64, 2.0, 2.0, 0.5]), Ok(2));
    assert_eq!(rank(&[3.0f64, 2.0]), Ok(0));
    assert_eq!(rank(&[0.0f64, f64::INFINITY, 1.0e300]), Ok(1));
}

#[test]
fn rank_of_one_score_does_not_compare_it() {
    assert_eq!(rank(&[f64::NAN]), Ok(0));
    assert_eq!(rank(&[4.0f64]), Ok(0));
}

#[test]
fn rank_refuses_scores_that_cannot_be_compared() {
    assert_eq!(rank(&[1.0f64, f64::NAN]), Err(BreakpointError::NumericDegeneracy));
    assert_eq!(rank(&[f64::NAN, 1.0, 2.0]), Err(BreakpointError::NumericDegeneracy));
    assert_eq!(rank(&[f64::NAN, f64::NAN]), Err(BreakpointError::NumericDegeneracy));
}
