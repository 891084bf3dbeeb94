use path_planning::fixed::{
    ceil_sqrt_u128, div_away_i128, div_up_u128, magnitude, scaled_ratio_up, ONE, STEP,
};

#[test]
fn one_is_the_square_of_the_step() {
    assert_eq!(ONE, STEP * STEP);
}

#[test]
fn ceil_sqrt_of_squares_is_exact() {
    assert_eq!(ceil_sqrt_u128(0), 0);
    assert_eq!(ceil_sqrt_u128(1), 1);
    assert_eq!(ceil_sqrt_u128(4), 2);
    assert_eq!(ceil_sqrt_u128(1_000_000_000_000_000_000_000_000), 1_000_000_000_000);
}

#[test]
fn ceil_sqrt_rounds_up() {
    assert_eq!(ceil_sqrt_u128(2), 2);
    assert_eq!(ceil_sqrt_u128(5), 3);
    assert_eq!(ceil_sqrt_u128(1_000_000_000_000_000_000_000_001), 1_000_000_000_001);
    assert_eq!(ceil_sqrt_u128(u128::MAX), 18_446_744_073_709_551_616);
}

#[test]
fn div_up_rounds_up_only_what_is_left_over() {
    assert_eq!(div_up_u128(0, 7), 0);
    assert_eq!(div_up_u128(14, 7), 2);
    assert_eq!(div_up_u128(15, 7), 3);
    assert_eq!(div_up_u128(u128::MAX, 1), u128::MAX);
    assert_eq!(div_up_u128(u128::MAX, 2), 1 << 127);
}

#[test]
fn div_away_rounds_away_from_zero() {
    assert_eq!(div_away_i128(7, 2), 4);
    assert_eq!(div_away_i128(-7, 2), -4);
    assert_eq!(div_away_i128(-1, 1_000_000_000_000), -1);
    assert_eq!(div_away_i128(-1_000_000_000_001, 1_000_000_000_000), -2);
    assert_eq!(div_away_i128(1_000_000_000_001, 1_000_000_000_000), 2);
    assert_eq!(div_away_i128(0, 5), 0);
    assert_eq!(div_away_i128(i128::MIN, 1), i128::MIN);
    assert_eq!(div_away_i128(i128::MAX, 1), i128::MAX);
}

#[test]
fn magnitude_drops_the_sign() {
    assert_eq!(magnitude(0), 0);
    assert_eq!(magnitude(-5), 5);
    assert_eq!(magnitude(5), 5);
    assert_eq!(magnitude(i128::MIN), 1 << 127);
}

#[test]
fn scaled_ratio_of_thirds() {
    assert_eq!(scaled_ratio_up(1, 3), 333_333_333_334);
    assert_eq!(scaled_ratio_up(2, 3), 666_666_666_667);
}

#[test]
fn scaled_ratio_of_the_whole_is_one() {
    assert_eq!(scaled_ratio_up(3, 3), 1_000_000_000_000);
    assert_eq!(scaled_ratio_up(1 << 126, 1 << 126), 1_000_000_000_000);
}

#[test]
fn scaled_ratio_of_nothing_is_zero() {
    assert_eq!(scaled_ratio_up(0, 3), 0);
}

#[test]
fn scaled_ratio_never_rounds_a_part_to_zero() {
    assert_eq!(scaled_ratio_up(1, 1 << 126), 1);
    assert_eq!(scaled_ratio_up((1 << 126) - 1, 1 << 126), 1_000_000_000_000);
}
