use umbra::fixed::{Fixed, FixedVec2, FRAC_BITS};

#[test]
fn from_int_uses_frac_bits_as_the_scale() {
    // 1 << FRAC_BITS raw units per integer tile.
    assert_eq!(Fixed::from_int(1).0, 1 << FRAC_BITS);
    assert_eq!(Fixed::from_int(5).0, 5 * (1 << FRAC_BITS));
}

#[test]
fn mul_is_exact_for_whole_numbers() {
    let six = Fixed::from_int(2).mul(Fixed::from_int(3));
    assert_eq!(six, Fixed::from_int(6));
}

#[test]
fn div_is_exact_for_whole_numbers() {
    let three = Fixed::from_int(6).div(Fixed::from_int(2));
    assert_eq!(three, Fixed::from_int(3));
}

#[test]
fn mul_div_round_trip_within_one_raw_unit() {
    let a = Fixed::from_int(7);
    let b = Fixed::from_int(3);
    let back = a.div(b).mul(b);
    assert!((back.0 - a.0).abs() <= 1, "round trip drifted: {:?} vs {:?}", back, a);
}

#[test]
fn abs_negates_negative_values_only() {
    assert_eq!(Fixed::from_int(-5).abs(), Fixed::from_int(5));
    assert_eq!(Fixed::from_int(5).abs(), Fixed::from_int(5));
    assert_eq!(Fixed::zero().abs(), Fixed::zero());
}

#[test]
fn add_sub_neg_operators() {
    let a = Fixed::from_int(5);
    let b = Fixed::from_int(2);
    assert_eq!(a + b, Fixed::from_int(7));
    assert_eq!(a - b, Fixed::from_int(3));
    assert_eq!(-a, Fixed::from_int(-5));
}

#[test]
fn inv_sqrt2_applied_twice_halves_within_one_raw_unit() {
    // Rotating a unit vector 45 degrees twice should land near 0.5,
    // i.e. ONE * INV_SQRT2 * INV_SQRT2 ~= 0.5 (raw value 128).
    let result = Fixed::one().mul(Fixed::inv_sqrt2()).mul(Fixed::inv_sqrt2());
    assert!(
        (result.0 - 128).abs() <= 1,
        "expected ~128 (0.5), got {:?}",
        result
    );
}

#[test]
fn fixed_vec2_add_sub() {
    let a = FixedVec2::new(Fixed::from_int(3), Fixed::from_int(4));
    let b = FixedVec2::new(Fixed::from_int(1), Fixed::from_int(2));
    assert_eq!(a + b, FixedVec2::new(Fixed::from_int(4), Fixed::from_int(6)));
    assert_eq!(a - b, FixedVec2::new(Fixed::from_int(2), Fixed::from_int(2)));
}

#[test]
fn dist_sq_matches_pythagorean_triple() {
    // A 3-4-5 triangle, scaled into fixed-point: squared distance
    // should equal (5 tiles)^2 in raw units.
    let a = FixedVec2::new(Fixed::zero(), Fixed::zero());
    let b = FixedVec2::new(Fixed::from_int(3), Fixed::from_int(4));
    let five_raw = Fixed::from_int(5).0 as i64;
    assert_eq!(a.dist_sq(b), five_raw * five_raw);
}

#[test]
fn dist_sq_does_not_overflow_i32_at_long_range() {
    // Two points 200 tiles apart on each axis: squaring either axis alone
    // already exceeds i32::MAX, so i32 arithmetic would have wrapped.
    let a = FixedVec2::new(Fixed::zero(), Fixed::zero());
    let b = FixedVec2::new(Fixed::from_int(200), Fixed::from_int(200));
    let per_axis = Fixed::from_int(200).0 as i64;
    let expected = per_axis * per_axis * 2;
    assert_eq!(a.dist_sq(b), expected);
    assert!(expected > i32::MAX as i64, "test setup should exceed i32::MAX");
}
