use wynd_stake::power::{calc_power, DECIMAL_FRACTIONAL};

#[test]
fn power_scales_by_multiplier_and_ratio() {
    assert_eq!(calc_power(1000, 1000, 999, DECIMAL_FRACTIONAL), Some(0));
    assert_eq!(calc_power(1000, 1000, 1000, DECIMAL_FRACTIONAL), Some(1));
    assert_eq!(calc_power(1, 1000, 5500, DECIMAL_FRACTIONAL * 3 / 2), Some(8));
    assert_eq!(calc_power(1, 1, 7, DECIMAL_FRACTIONAL / 2), Some(3));
    assert_eq!(calc_power(1, 1, u128::MAX, 2 * DECIMAL_FRACTIONAL), None);
}
