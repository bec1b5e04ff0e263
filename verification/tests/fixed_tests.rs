use load_calc::fixed::floor_div;
use load_calc::fixed::floor_div_rem;
use load_calc::fixed::round_quotient;
use load_calc::fixed::round_to_units;
use load_calc::fixed::Wide;
use load_calc::fixed::SCALE;

#[test]
fn floor_division_rounds_towards_negative_infinity() {
    assert_eq!(floor_div(7, 2), 3);
    assert_eq!(floor_div(-7, 2), -4);
    assert_eq!(floor_div(-8, 2), -4);
    assert_eq!(floor_div(-1, 1000), -1);
    assert_eq!(floor_div(0, 5), 0);
    assert_eq!(floor_div(999, 1000), 0);
    assert_eq!(floor_div_rem(7, 2), (3, 1));
    assert_eq!(floor_div_rem(-7, 2), (-4, 1));
    assert_eq!(floor_div_rem(-8, 2), (-4, 0));
    assert_eq!(floor_div_rem(-1, 1000), (-1, 999));
}

#[test]
fn floor_division_at_the_limits() {
    assert_eq!(floor_div_rem(i128::MIN, 1), (i128::MIN, 0));
    assert_eq!(floor_div_rem(i128::MAX, 1), (i128::MAX, 0));
    assert_eq!(floor_div_rem(i128::MIN, i128::MAX), (-2, i128::MAX - 1));
    assert_eq!(floor_div_rem(i128::MIN, 3), (i128::MIN / 3 - 1, 1));
    assert_eq!(floor_div_rem(-1, i128::MAX), (-1, i128::MAX - 1));
}

#[test]
fn one_unit_is_a_thousand_thousandths() {
    assert_eq!(SCALE, 1000);
    assert_eq!(round_to_units(17 * SCALE as i128), 17);
}

#[test]
fn rounding_goes_to_the_nearest_unit_and_halves_to_even() {
    assert_eq!(round_to_units(0), 0);
    assert_eq!(round_to_units(499), 0);
    assert_eq!(round_to_units(500), 0);
    assert_eq!(round_to_units(501), 1);
    assert_eq!(round_to_units(1_500), 2);
    assert_eq!(round_to_units(2_500), 2);
    assert_eq!(round_to_units(3_500), 4);
    assert_eq!(round_to_units(-499), 0);
    assert_eq!(round_to_units(-500), 0);
    assert_eq!(round_to_units(-501), -1);
    assert_eq!(round_to_units(-1_500), -2);
    assert_eq!(round_to_units(-2_500), -2);
    assert_eq!(round_to_units(15_809_523), 15_810);
    assert_eq!(round_to_units(i128::MAX), i128::MAX / 1000 + 1);
    assert_eq!(round_to_units(i128::MIN), i128::MIN / 1000 - 1);
}

#[test]
fn rounding_agrees_with_decimal_formatting() {
    for value in [0i64, 499, 500, 501, 1_500, 2_500, 3_500, -500, -1_500, -2_500, 12_345_500, 36_000_000] {
        let printed = format!("{:.0}", value as f64 / 1000.0);
        let printed = if printed == "-0" { "0".to_string() } else { printed };
        assert_eq!(round_to_units(value as i128).to_string(), printed);
    }
}

#[test]
fn quotients_are_rounded_to_the_nearest_whole_number() {
    assert_eq!(round_quotient(7, 2), 4);
    assert_eq!(round_quotient(5, 2), 2);
    assert_eq!(round_quotient(-5, 2), -2);
    assert_eq!(round_quotient(-7, 2), -4);
    assert_eq!(round_quotient(10, 3), 3);
    assert_eq!(round_quotient(11, 3), 4);
    assert_eq!(round_quotient(-10, 3), -3);
    assert_eq!(round_quotient(-11, 3), -4);
    assert_eq!(round_quotient(600_601, 1200), 501);
    assert_eq!(round_quotient(0, 7), 0);
    assert_eq!(round_quotient(i128::MAX, 1), i128::MAX);
    assert_eq!(round_quotient(i128::MIN, 1), i128::MIN);
    assert_eq!(round_quotient(i128::MAX, i128::MAX), 1);
    assert_eq!(round_quotient(i128::MIN, i128::MAX), -1);
    assert_eq!(round_quotient(i128::MAX, 2), (i128::MAX - 1) / 2 + 1);
    assert_eq!(round_quotient(i128::MIN, 2), i128::MIN / 2);
}

#[test]
fn wide_numbers_hold_sign_and_magnitude() {
    assert_eq!(Wide::from_i64(0), Wide { negative: false, magnitude: 0 });
    assert_eq!(Wide::from_i64(5), Wide { negative: false, magnitude: 5 });
    assert_eq!(Wide::from_i64(-5), Wide { negative: true, magnitude: 5 });
    assert_eq!(Wide::from_i64(i64::MIN), Wide { negative: true, magnitude: 1u128 << 63 });
    assert_eq!(Wide::from_i64(-5).to_i128(), Some(-5));
    assert_eq!(Wide { negative: false, magnitude: i128::MAX as u128 }.to_i128(), Some(i128::MAX));
    assert_eq!(Wide { negative: false, magnitude: 1u128 << 127 }.to_i128(), None);
    assert_eq!(Wide { negative: true, magnitude: 1u128 << 127 }.to_i128(), Some(i128::MIN));
    assert_eq!(Wide { negative: true, magnitude: (1u128 << 127) + 1 }.to_i128(), None);
}

#[test]
fn wide_numbers_add_multiply_and_divide() {
    assert_eq!(Wide::from_i64(7).plus(-9), Wide::from_i64(-2));
    assert_eq!(Wide::from_i64(-7).plus(9), Wide::from_i64(2));
    assert_eq!(Wide::from_i64(-7).plus(7), Wide::from_i64(0));
    assert_eq!(Wide::from_i64(-7).plus(-9), Wide::from_i64(-16));
    assert_eq!(Wide::from_i64(7).plus(9), Wide::from_i64(16));
    assert_eq!(Wide::from_i64(-3).times(4), Some(-12));
    assert_eq!(Wide::from_i64(3).times(0), Some(0));
    assert_eq!(Wide::from_i64(0).times(u128::MAX), Some(0));
    assert_eq!(Wide::from_i64(1).times(u128::MAX), None);
    assert_eq!(Wide::from_i64(2).times(1u128 << 126), None);
    assert_eq!(Wide::from_i64(-2).times(1u128 << 126), Some(i128::MIN));
    assert_eq!(Wide::from_i64(i64::MAX).times(u128::MAX), None);
    assert_eq!(Wide::quotient(false, 7, 2), Wide::from_i64(3));
    assert_eq!(Wide::quotient(true, 7, 2), Wide::from_i64(-4));
    assert_eq!(Wide::quotient(true, 8, 2), Wide::from_i64(-4));
    assert_eq!(Wide::quotient(true, 0, 2), Wide::from_i64(0));
    assert_eq!(Wide::quotient(true, 1, 1000), Wide::from_i64(-1));
    assert_eq!(
        Wide::quotient(true, u128::MAX, 1),
        Wide { negative: true, magnitude: u128::MAX }
    );
}

#[test]
fn fractions_are_multiplied_before_they_are_rounded() {
    let two = Wide::from_i64(2);
    // 2 + 1/3 and 2 - 1/3, times 1, 2, 3 and 4.
    assert_eq!(Wide::times_fraction(&two, false, 1, 3, 1), Some(2));
    assert_eq!(Wide::times_fraction(&two, false, 1, 3, 2), Some(4));
    assert_eq!(Wide::times_fraction(&two, false, 1, 3, 3), Some(7));
    assert_eq!(Wide::times_fraction(&two, false, 1, 3, 4), Some(9));
    assert_eq!(Wide::times_fraction(&two, true, 1, 3, 1), Some(1));
    assert_eq!(Wide::times_fraction(&two, true, 1, 3, 2), Some(3));
    assert_eq!(Wide::times_fraction(&two, true, 1, 3, 3), Some(5));
    assert_eq!(Wide::times_fraction(&two, true, 1, 3, 4), Some(6));
    let minus = Wide::from_i64(-2);
    assert_eq!(Wide::times_fraction(&minus, false, 1, 3, 4), Some(-7));
    assert_eq!(Wide::times_fraction(&minus, true, 1, 3, 4), Some(-10));
    assert_eq!(Wide::times_fraction(&minus, true, 0, 3, 4), Some(-8));
    let zero = Wide::from_i64(0);
    assert_eq!(Wide::times_fraction(&zero, true, 1, 2, u128::MAX), Some(i128::MIN));
    assert_eq!(Wide::times_fraction(&zero, false, 1, 2, u128::MAX), Some(i128::MAX));
    assert_eq!(
        Wide::times_fraction(&zero, false, u64::MAX as u128 - 1, u64::MAX as u128, u128::MAX),
        None
    );
    assert_eq!(Wide::times_fraction(&two, false, 0, 1, u128::MAX), None);
    assert_eq!(Wide::times_fraction(&two, false, 0, 1, 1u128 << 126), None);
    assert_eq!(Wide::times_fraction(&minus, false, 0, 1, 1u128 << 126), Some(i128::MIN));
    assert_eq!(Wide::times_fraction(&minus, true, 1, 2, 1u128 << 126), None);
    assert_eq!(
        Wide::times_fraction(&two, true, 1, 2, 1u128 << 126),
        Some(3i128 << 125)
    );
}
