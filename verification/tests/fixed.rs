use triangle_mesh_filler::fixed::{clamp, floor_div, fmul, fpow, isqrt, wide_mul, ONE};

#[test]
fn one_counts_millionths() {
    assert_eq!(ONE, 1_000_000);
}

#[test]
fn floor_div_rounds_towards_minus_infinity() {
    assert_eq!(floor_div(7, 2), 3);
    assert_eq!(floor_div(-7, 2), -4);
    assert_eq!(floor_div(-8, 2), -4);
    assert_eq!(floor_div(0, 5), 0);
    assert_eq!(floor_div(-1, 1_000_000), -1);
}

#[test]
fn fmul_multiplies_fixed_point_numbers() {
    assert_eq!(fmul(2 * ONE, 3 * ONE), 6 * ONE);
    assert_eq!(fmul(ONE / 2, ONE / 2), ONE / 4);
    assert_eq!(fmul(-ONE / 2, ONE / 2), -ONE / 4);
    assert_eq!(fmul(1, 1), 0);
    assert_eq!(fmul(-1, 1), -1);
    assert_eq!(fmul(123_456_789, ONE), 123_456_789);
    assert_eq!(fmul(123_456_789, 0), 0);
}

#[test]
fn wide_mul_keeps_every_digit() {
    assert_eq!(wide_mul(i64::MAX, i64::MAX), (i64::MAX as i128) * (i64::MAX as i128));
    assert_eq!(wide_mul(-3, 4), -12);
}

#[test]
fn isqrt_rounds_down() {
    assert_eq!(isqrt(0), 0);
    assert_eq!(isqrt(1), 1);
    assert_eq!(isqrt(3), 1);
    assert_eq!(isqrt(4), 2);
    assert_eq!(isqrt(99), 9);
    assert_eq!(isqrt(1_000_000_000_000), 1_000_000);
    assert_eq!(isqrt(1_000_000_000_000 - 1), 999_999);
    assert_eq!(isqrt(2_000_000_000_000), 1_414_213);
    let big: i128 = (1i128 << 126) - 1;
    assert_eq!(isqrt(big), (1i128 << 63) - 1);
}

#[test]
fn clamp_limits_to_the_interval() {
    assert_eq!(clamp(5, 0, 10), 5);
    assert_eq!(clamp(-5, 0, 10), 0);
    assert_eq!(clamp(15, 0, 10), 10);
    assert_eq!(clamp(0, 0, 0), 0);
}

#[test]
fn fpow_rounds_down_after_every_step() {
    assert_eq!(fpow(ONE / 2, 0), ONE);
    assert_eq!(fpow(ONE / 2, 1), ONE / 2);
    assert_eq!(fpow(ONE / 2, 2), ONE / 4);
    assert_eq!(fpow(ONE / 2, 3), ONE / 8);
    assert_eq!(fpow(ONE, 255), ONE);
    assert_eq!(fpow(0, 7), 0);
    assert_eq!(fpow(0, 0), ONE);
    // 0.9^2 = 0.81, 0.9^3 = 0.729
    assert_eq!(fpow(900_000, 2), 810_000);
    assert_eq!(fpow(900_000, 3), 729_000);
    // 0.999999^2 = 0.999998000001, rounded down
    assert_eq!(fpow(999_999, 2), 999_998);
}
