use cfmm::fixed::{mul_div_down, mul_div_up};
use cfmm::types::{AmmError, Percentage};

#[test]
fn floor_and_ceiling_divisions_differ_by_the_remainder() {
    assert_eq!(mul_div_down(7, 3, 2), Ok(10));
    assert_eq!(mul_div_up(7, 3, 2), Ok(11));
    assert_eq!(mul_div_down(7, 2, 2), Ok(7));
    assert_eq!(mul_div_up(7, 2, 2), Ok(7));
    assert_eq!(mul_div_down(0, 5, 3), Ok(0));
    assert_eq!(mul_div_up(0, 5, 3), Ok(0));
}

#[test]
fn division_by_zero_is_rejected() {
    assert_eq!(mul_div_down(7, 3, 0), Err(AmmError::DivideByZero));
    assert_eq!(mul_div_up(7, 3, 0), Err(AmmError::DivideByZero));
}

#[test]
fn quotients_beyond_the_backing_width_are_rejected() {
    assert_eq!(mul_div_down(u128::MAX, u128::MAX, 1), Err(AmmError::Overflow));
    assert_eq!(mul_div_up(u128::MAX, 2, 1), Err(AmmError::Overflow));
    assert_eq!(mul_div_down(1 << 127, 4, 2), Err(AmmError::Overflow));
    // The ceiling of an exact maximal quotient still fits; one more unit of
    // dividend does not.
    assert_eq!(mul_div_up(u128::MAX, 3, 3), Ok(u128::MAX));
    assert_eq!(mul_div_down(u128::MAX, 3, 3), Ok(u128::MAX));
}

#[test]
fn wide_intermediates_divide_exactly() {
    // The raw product is near 2^133 and only fits the wide intermediate.
    let a: u128 = 10_u128.pow(30);
    let b: u128 = 10_u128.pow(10);
    let d: u128 = 10_u128.pow(20);
    assert_eq!(mul_div_down(a, b, d), Ok(10_u128.pow(20)));
    assert_eq!(mul_div_up(a, b, d), Ok(10_u128.pow(20)));
    assert_eq!(mul_div_down(a, b, d - 1), Ok(100000000000000000001));
    assert_eq!(mul_div_up(a, b, d - 1), Ok(100000000000000000002));
}

#[test]
fn percentage_from_scale_rescales_to_six_digits() {
    assert_eq!(Percentage::from_scale(1, 2).v, 10_000);
    assert_eq!(Percentage::from_scale(5, 1).v, 500_000);
    assert_eq!(Percentage::from_scale(3, 6).v, 3);
    assert_eq!(Percentage::from_scale(2, 0).v, 2_000_000);
}
