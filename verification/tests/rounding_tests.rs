use windowfilter::rounding::{
    ceil_of_nearest_double_u128,
    log2_floor_u128,
    nearest_double_u128,
    pow2_u128,
    round_half_even_u128,
};

#[test]
fn log2_floor_and_powers_of_two() {
    assert_eq!(log2_floor_u128(0), 0);
    assert_eq!(log2_floor_u128(1), 0);
    assert_eq!(log2_floor_u128(2), 1);
    assert_eq!(log2_floor_u128(1_023), 9);
    assert_eq!(log2_floor_u128(1_024), 10);
    assert_eq!(log2_floor_u128(u128::MAX), 127);
    assert_eq!(pow2_u128(0), 1);
    assert_eq!(pow2_u128(10), 1_024);
    assert_eq!(pow2_u128(126), 1 << 126);
}

#[test]
fn rounding_to_nearest_breaks_ties_to_even() {
    assert_eq!(round_half_even_u128(7, 2), 4);
    assert_eq!(round_half_even_u128(5, 2), 2);
    assert_eq!(round_half_even_u128(10, 4), 2);
    assert_eq!(round_half_even_u128(11, 4), 3);
    assert_eq!(round_half_even_u128(9, 4), 2);
    assert_eq!(round_half_even_u128(0, 3), 0);
}

#[test]
fn integers_round_to_53_significant_bits() {
    let big: u128 = 1 << 53;
    assert_eq!(nearest_double_u128(big - 1), big - 1);
    assert_eq!(nearest_double_u128(big), big);
    assert_eq!(nearest_double_u128(big + 1), big);
    assert_eq!(nearest_double_u128(big + 3), big + 4);
    assert_eq!(nearest_double_u128(u64::MAX as u128), 1 << 64);
    assert_eq!(nearest_double_u128(u64::MAX as u128), u64::MAX as f64 as u128);
}

#[test]
fn quotients_round_to_nearest_then_up() {
    // 7 / 3 = 2.33..., so 3.
    assert_eq!(ceil_of_nearest_double_u128(7, 3), 3);
    assert_eq!(ceil_of_nearest_double_u128(6, 3), 2);
    assert_eq!(ceil_of_nearest_double_u128(0, 3), 0);
    // A quotient a hair above an integer, closer to it than binary64 can tell,
    // rounds to that integer.
    let one = 1u128 << 60;
    assert_eq!(ceil_of_nearest_double_u128(one * 5 + 1, one), 5);
    assert_eq!(ceil_of_nearest_double_u128(one * 5 + (1 << 10), one), 6);
    assert_eq!(
        ceil_of_nearest_double_u128(1_000 << 51, 2_116_691_824_864_133),
        (1_000f64 / 0.94).ceil() as u128
    );
}
