use barracuda::fixed::{Fixed, SCALE};

fn raw(whole: i64, hundred_millionths: i64) -> Fixed {
    Fixed::from_raw(whole * SCALE + hundred_millionths)
}

#[test]
fn scale_has_eight_digits() {
    assert_eq!(SCALE, 100_000_000);
    assert_eq!(Fixed::one().raw(), 100_000_000);
    assert_eq!(Fixed::half().raw(), 50_000_000);
    assert_eq!(Fixed::zero().raw(), 0);
    assert_eq!(Fixed::epsilon().raw(), 1);
}

#[test]
fn from_int_scales_and_saturates() {
    assert_eq!(Fixed::from_int(7).raw(), 700_000_000);
    assert_eq!(Fixed::from_int(-3).raw(), -300_000_000);
    assert_eq!(Fixed::from_int(i64::MAX).raw(), i64::MAX);
    assert_eq!(Fixed::from_int(i64::MIN).raw(), i64::MIN);
}

#[test]
fn plus_and_minus_are_exact() {
    assert_eq!(raw(2, 0).plus(raw(3, 50_000_000)), raw(5, 50_000_000));
    assert_eq!(raw(7, 0).minus(raw(2, 0)), raw(5, 0));
    assert_eq!(raw(0, 1).minus(raw(0, 2)).raw(), -1);
}

#[test]
fn plus_and_minus_saturate() {
    assert_eq!(Fixed::max_value().plus(Fixed::one()), Fixed::max_value());
    assert_eq!(Fixed::min_value().minus(Fixed::one()), Fixed::min_value());
    assert_eq!(Fixed::min_value().plus(Fixed::max_value()).raw(), -1);
    assert_eq!(Fixed::zero().minus(Fixed::min_value()), Fixed::max_value());
}

#[test]
fn times_rounds_toward_zero() {
    assert_eq!(raw(2, 0).times(raw(3, 0)), raw(6, 0));
    assert_eq!(raw(1, 50_000_000).times(raw(1, 50_000_000)), raw(2, 25_000_000));
    assert_eq!(Fixed::from_raw(1).times(Fixed::half()).raw(), 0);
    assert_eq!(Fixed::from_raw(-1).times(Fixed::half()).raw(), 0);
    assert_eq!(Fixed::from_raw(3).times(Fixed::half()).raw(), 1);
    assert_eq!(Fixed::from_raw(-3).times(Fixed::half()).raw(), -1);
    assert_eq!(raw(-2, 0).times(raw(3, 0)), raw(-6, 0));
    assert_eq!(raw(-2, 0).times(raw(-3, 0)), raw(6, 0));
}

#[test]
fn times_saturates() {
    assert_eq!(Fixed::max_value().times(raw(2, 0)), Fixed::max_value());
    assert_eq!(Fixed::max_value().times(raw(-2, 0)), Fixed::min_value());
    assert_eq!(Fixed::min_value().times(Fixed::min_value()), Fixed::max_value());
    assert_eq!(Fixed::min_value().times(Fixed::one()), Fixed::min_value());
}

#[test]
fn divided_by_rounds_toward_zero() {
    assert_eq!(raw(7, 0).divided_by(raw(2, 0)), raw(3, 50_000_000));
    assert_eq!(raw(1, 0).divided_by(raw(3, 0)).raw(), 33_333_333);
    assert_eq!(raw(-1, 0).divided_by(raw(3, 0)).raw(), -33_333_333);
    assert_eq!(raw(1, 0).divided_by(raw(-3, 0)).raw(), -33_333_333);
    assert_eq!(raw(-1, 0).divided_by(raw(-3, 0)).raw(), 33_333_333);
    assert_eq!(raw(0, 0).divided_by(raw(5, 0)).raw(), 0);
}

#[test]
fn divided_by_zero_is_the_end_of_the_range() {
    assert_eq!(raw(7, 0).divided_by(Fixed::zero()), Fixed::max_value());
    assert_eq!(raw(-7, 0).divided_by(Fixed::zero()), Fixed::min_value());
    assert_eq!(Fixed::zero().divided_by(Fixed::zero()), Fixed::zero());
}

#[test]
fn divided_by_a_small_number_saturates() {
    assert_eq!(Fixed::max_value().divided_by(Fixed::epsilon()), Fixed::max_value());
    assert_eq!(raw(1, 0).divided_by(Fixed::epsilon()).raw(), 10_000_000_000_000_000);
    assert_eq!(Fixed::min_value().divided_by(Fixed::from_raw(-1)), Fixed::max_value());
}

#[test]
fn comparisons_follow_the_raw_values() {
    assert!(raw(1, 0).lt(raw(1, 1)));
    assert!(!raw(1, 0).lt(raw(1, 0)));
    assert!(raw(1, 0).le(raw(1, 0)));
    assert!(raw(-1, 0).lt(Fixed::zero()));
    assert!(!raw(2, 0).le(raw(1, 0)));
}

#[test]
fn trunc_drops_the_fraction() {
    assert_eq!(raw(3, 99_999_999).trunc(), 3);
    assert_eq!(Fixed::from_raw(-399_999_999).trunc(), -3);
    assert_eq!(Fixed::from_raw(99_999_999).trunc(), 0);
    assert_eq!(Fixed::min_value().trunc(), -92_233_720_368);
    assert_eq!(Fixed::max_value().trunc(), 92_233_720_368);
}
