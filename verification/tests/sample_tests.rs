use synth_host::constants::SIGNAL_UNIT;
use synth_host::sample::{mul_unit, sat_add, sat_sub};

#[test]
fn saturating_addition_clamps_at_the_rails() {
    assert_eq!(sat_add(1, 2), 3);
    assert_eq!(sat_add(-5, 2), -3);
    assert_eq!(sat_add(i64::MAX, 1), i64::MAX);
    assert_eq!(sat_add(i64::MIN, -1), i64::MIN);
    assert_eq!(sat_sub(3, 5), -2);
    assert_eq!(sat_sub(i64::MIN, 1), i64::MIN);
    assert_eq!(sat_sub(i64::MAX, -1), i64::MAX);
}

#[test]
fn fixed_point_multiplication_scales_by_the_unit() {
    let half = SIGNAL_UNIT / 2;
    assert_eq!(mul_unit(half, half), SIGNAL_UNIT / 4);
    assert_eq!(mul_unit(SIGNAL_UNIT, 123_456), 123_456);
    assert_eq!(mul_unit(-half, half), -(SIGNAL_UNIT / 4));
    assert_eq!(mul_unit(-half, -half), SIGNAL_UNIT / 4);
    assert_eq!(mul_unit(0, i64::MAX), 0);
    // saturation on overflow
    assert_eq!(mul_unit(i64::MAX, i64::MAX), i64::MAX);
    assert_eq!(mul_unit(i64::MAX, i64::MIN), i64::MIN);
    // truncation toward zero
    assert_eq!(mul_unit(1, 1), 0);
    assert_eq!(mul_unit(-1, 1), 0);
}
