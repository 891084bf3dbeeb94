use path_planning::fixed::{PlanError, ONE};
use path_planning::geometry::{
    face_term_of, h_circle, h_elip, h_nlr_1, h_nlr_2, h_poly, product_up_of, squared_distance,
    squared_gap, HalfPlane,
    Obstacle, Position,
};

fn at(x: i64, y: i64) -> Position {
    Position { x, y }
}

#[test]
fn squared_gap_of_the_extremes_fits() {
    assert_eq!(squared_gap(i64::MAX, i64::MIN), 340_282_366_920_938_463_426_481_119_284_349_108_225);
    assert_eq!(squared_gap(3, 7), 16);
}

#[test]
fn squared_distance_of_a_three_four_five_triangle() {
    assert_eq!(squared_distance(at(0, 0), at(3, 4)), Some(25));
    assert_eq!(squared_distance(at(3, 4), at(0, 0)), Some(25));
}

#[test]
fn squared_distance_that_does_not_fit_is_none() {
    assert_eq!(squared_distance(at(i64::MAX, i64::MAX), at(i64::MIN, i64::MIN)), None);
}

#[test]
fn circle_weight_at_the_centre_is_one() {
    assert_eq!(h_circle(at(5 * ONE, 5 * ONE), at(5 * ONE, 5 * ONE), ONE), ONE);
}

#[test]
fn circle_weight_half_way_out_is_three_quarters() {
    assert_eq!(h_circle(at(5 * ONE + ONE / 2, 5 * ONE), at(5 * ONE, 5 * ONE), ONE), 750_000_000_000);
    assert_eq!(
        h_circle(at(5 * ONE + 9 * (ONE / 10), 5 * ONE), at(5 * ONE, 5 * ONE), ONE),
        190_000_000_000
    );
}

#[test]
fn circle_weight_divides_by_the_squared_radius() {
    assert_eq!(h_circle(at(ONE, ONE), at(0, 0), 3 * ONE), 777_777_777_778);
}

#[test]
fn circle_weight_on_the_boundary_and_outside_is_zero() {
    assert_eq!(h_circle(at(6 * ONE, 5 * ONE), at(5 * ONE, 5 * ONE), ONE), 0);
    assert_eq!(h_circle(at(1 * ONE, 0), at(5 * ONE, 5 * ONE), ONE), 0);
    assert_eq!(h_circle(at(i64::MAX, i64::MIN), at(i64::MIN, i64::MAX), i64::MAX), 0);
}

#[test]
fn circle_weight_just_inside_is_positive() {
    assert_eq!(h_circle(at(ONE - 1, 0), at(0, 0), ONE), 2);
    assert_eq!(h_circle(at(i64::MAX - 1, 0), at(0, 0), i64::MAX), 1);
}

#[test]
fn circle_of_radius_zero_holds_nothing() {
    assert_eq!(h_circle(at(0, 0), at(0, 0), 0), 0);
}

#[test]
fn circle_of_negative_radius_is_the_circle_of_its_size() {
    assert_eq!(h_circle(at(ONE / 2, 0), at(0, 0), -ONE), 750_000_000_000);
    assert_eq!(h_circle(at(0, 0), at(0, 0), i64::MIN), ONE);
}

#[test]
fn obstacle_weight_of_a_circle() {
    let disc = Obstacle::Circle { centre: at(5 * ONE, 5 * ONE), radius: ONE };
    assert_eq!(disc.weight(at(5 * ONE + ONE / 2, 5 * ONE)), Ok(750_000_000_000));
    assert_eq!(disc.weight(at(0, 0)), Ok(0));
}

fn face(normal_x: i64, normal_y: i64, offset: i64) -> HalfPlane {
    HalfPlane { normal_x, normal_y, offset }
}

/// The square with corners at (-1, -1) and (1, 1).
fn square() -> Vec<HalfPlane> {
    vec![face(ONE, 0, ONE), face(-ONE, 0, ONE), face(0, ONE, ONE), face(0, -ONE, ONE)]
}

/// A polyhedron with five faces.
fn pentagon() -> Vec<HalfPlane> {
    vec![
        face(ONE, 2 * ONE, 2 * ONE),
        face(-2 * ONE, ONE, 2 * ONE),
        face(-ONE, -ONE, 2 * ONE),
        face(ONE, -ONE, 2 * ONE),
        face(0, -ONE, 3 * (ONE / 2)),
    ]
}

#[test]
fn ellipse_weight_at_the_centre_is_one() {
    assert_eq!(h_elip(at(5 * ONE, 0), at(5 * ONE, 0), 2 * ONE, 3 * (ONE / 2)), ONE);
}

#[test]
fn ellipse_weight_takes_each_offset_in_units_of_its_half_axis() {
    // 1 - (1 / 2)^2 - (0.5 / 1.5)^2 = 23 / 36
    assert_eq!(
        h_elip(at(6 * ONE, ONE / 2), at(5 * ONE, 0), 2 * ONE, 3 * (ONE / 2)),
        638_888_888_889
    );
    assert_eq!(h_elip(at(ONE, ONE), at(0, 0), 3 * ONE, 3 * ONE), 777_777_777_778);
}

#[test]
fn ellipse_weight_on_the_boundary_and_outside_is_zero() {
    let centre = at(5 * ONE, 0);
    assert_eq!(h_elip(at(7 * ONE, 0), centre, 2 * ONE, 3 * (ONE / 2)), 0);
    assert_eq!(h_elip(at(5 * ONE, 3 * (ONE / 2)), centre, 2 * ONE, 3 * (ONE / 2)), 0);
    assert_eq!(h_elip(at(7 * ONE, 3 * (ONE / 2)), centre, 2 * ONE, 3 * (ONE / 2)), 0);
    assert_eq!(h_elip(at(i64::MIN, i64::MIN), at(i64::MAX, i64::MAX), i64::MAX, i64::MAX), 0);
}

#[test]
fn ellipse_weight_just_inside_is_positive() {
    assert_eq!(h_elip(at(7 * ONE - 1, 0), at(5 * ONE, 0), 2 * ONE, 3 * (ONE / 2)), 1);
    assert_eq!(h_elip(at(i64::MAX - 1, 0), at(0, 0), i64::MAX, i64::MIN), 1);
}

#[test]
fn ellipse_without_a_half_axis_holds_nothing() {
    assert_eq!(h_elip(at(0, 0), at(0, 0), 0, ONE), 0);
    assert_eq!(h_elip(at(0, 0), at(0, 0), ONE, 0), 0);
}

#[test]
fn polyhedron_weight_is_the_product_of_the_slacks() {
    assert_eq!(h_poly(at(0, 0), &square(), at(0, 0)), Ok(ONE));
    // 0.5 * 1.5 * 0.5 * 1.5
    assert_eq!(h_poly(at(ONE / 2, ONE / 2), &square(), at(0, 0)), Ok(562_500_000_000));
    // 0.5 * 1.5 * 1.25 * 0.75
    assert_eq!(h_poly(at(ONE / 2, -ONE / 4), &square(), at(0, 0)), Ok(703_125_000_000));
    assert_eq!(h_poly(at(0, 5 * ONE), &pentagon(), at(0, 5 * ONE)), Ok(24 * ONE));
    assert_eq!(
        h_poly(at(ONE / 2, 5 * ONE + ONE / 4), &pentagon(), at(0, 5 * ONE)),
        Ok(23_160_156_250_000)
    );
}

#[test]
fn polyhedron_weight_on_a_face_and_outside_is_zero() {
    assert_eq!(h_poly(at(ONE, 0), &square(), at(0, 0)), Ok(0));
    assert_eq!(h_poly(at(3 * ONE, 0), &square(), at(0, 0)), Ok(0));
    assert_eq!(h_poly(at(0, 6 * ONE + ONE / 10), &pentagon(), at(0, 5 * ONE)), Ok(0));
}

#[test]
fn polyhedron_without_faces_weighs_one_everywhere() {
    assert_eq!(h_poly(at(123, -456), &[], at(0, 0)), Ok(ONE));
}

#[test]
fn polyhedron_terms_round_up() {
    let third = [face(ONE / 3, 0, ONE)];
    assert_eq!(h_poly(at(ONE, 0), &third, at(0, 0)), Ok(666_666_666_667));
    assert_eq!(face_term_of(&third[0], at(0, 0), at(ONE, 0)), Some(666_666_666_667));
    let half = face(ONE / 2, 0, ONE);
    assert_eq!(face_term_of(&half, at(0, 0), at(2 * ONE, 0)), Some(0));
    assert_eq!(face_term_of(&half, at(0, 0), at(2 * ONE - 1, 0)), Some(1));
    assert_eq!(face_term_of(&half, at(0, 0), at(2 * ONE - 2, 0)), Some(1));
    assert_eq!(face_term_of(&half, at(0, 0), at(2 * ONE - 3, 0)), Some(2));
}

#[test]
fn polyhedron_term_that_cannot_be_represented_is_a_numerical_failure() {
    let steep = [face(i64::MIN, 0, 0)];
    assert_eq!(face_term_of(&steep[0], at(0, 0), at(i64::MAX, 0)), None);
    assert_eq!(h_poly(at(i64::MAX, 0), &steep, at(0, 0)), Err(PlanError::NumericalFailure));
    // far on the outer side the same face is no trouble
    assert_eq!(face_term_of(&steep[0], at(0, 0), at(i64::MIN, 0)), Some(0));
    assert_eq!(face_term_of(&face(i64::MIN, i64::MIN, 0), at(i64::MAX, i64::MAX), at(i64::MIN, i64::MIN)), Some(0));
    assert_eq!(face_term_of(&face(i64::MAX, i64::MAX, 0), at(i64::MAX, i64::MAX), at(i64::MIN, i64::MIN)), None);
}

#[test]
fn polyhedron_product_that_cannot_be_represented_is_a_numerical_failure() {
    let wide = [face(0, 0, i64::MAX), face(0, 0, i64::MAX)];
    assert_eq!(h_poly(at(0, 0), &wide[..1], at(0, 0)), Ok(i64::MAX));
    assert_eq!(h_poly(at(0, 0), &wide, at(0, 0)), Err(PlanError::NumericalFailure));
}

#[test]
fn parabolic_weight_is_the_product_of_rise_and_drop() {
    // (0.5 - 0) * (1 + 0 - 0.5)
    assert_eq!(h_nlr_1(at(-5 * ONE, ONE / 2), at(-5 * ONE, 0)), Ok(250_000_000_000));
    // (1.25 - 1) * (1 + 0.5 - 1.25)
    assert_eq!(h_nlr_1(at(ONE, ONE + ONE / 4), at(0, 0)), Ok(62_500_000_000));
    // (0.7 - 0.09) * (1 + 0.045 - 0.7)
    assert_eq!(h_nlr_1(at(3 * (ONE / 10), 7 * (ONE / 10)), at(0, 0)), Ok(210_450_000_000));
}

#[test]
fn parabolic_weight_on_the_boundary_and_outside_is_zero() {
    assert_eq!(h_nlr_1(at(0, 0), at(0, 0)), Ok(0));
    assert_eq!(h_nlr_1(at(0, ONE), at(0, 0)), Ok(0));
    assert_eq!(h_nlr_1(at(0, 2 * ONE), at(0, 0)), Ok(0));
    assert_eq!(h_nlr_1(at(0, -ONE), at(0, 0)), Ok(0));
    assert_eq!(h_nlr_1(at(ONE, ONE), at(0, 0)), Ok(0));
}

#[test]
fn parabolic_weight_that_cannot_be_represented_is_a_numerical_failure() {
    assert_eq!(h_nlr_1(at(i64::MAX, 0), at(i64::MIN, 0)), Err(PlanError::NumericalFailure));
    assert_eq!(h_nlr_1(at(0, i64::MIN), at(0, i64::MAX)), Err(PlanError::NumericalFailure));
}

#[test]
fn obstacle_weight_of_each_kind() {
    let ellipse = Obstacle::Ellipse { centre: at(5 * ONE, 0), rx: 2 * ONE, ry: 3 * (ONE / 2) };
    assert_eq!(ellipse.weight(at(6 * ONE, ONE / 2)), Ok(638_888_888_889));
    let polyhedron = Obstacle::Polyhedron { centre: at(0, 5 * ONE), faces: pentagon() };
    assert_eq!(polyhedron.weight(at(0, 5 * ONE)), Ok(24 * ONE));
    let parabolic = Obstacle::Parabolic { centre: at(-5 * ONE, 0) };
    assert_eq!(parabolic.weight(at(-5 * ONE, ONE / 2)), Ok(250_000_000_000));
    assert_eq!(parabolic.weight(at(i64::MAX, 0)), Err(PlanError::NumericalFailure));
}

#[test]
fn rounded_product_of_scalars() {
    assert_eq!(product_up_of(ONE / 2, ONE / 2), Some(ONE / 4));
    assert_eq!(product_up_of(1, 1), Some(1));
    assert_eq!(product_up_of(0, i64::MAX), Some(0));
    assert_eq!(product_up_of(i64::MAX, ONE), Some(i64::MAX));
    assert_eq!(product_up_of(i64::MAX, ONE + 1), None);
    assert_eq!(product_up_of(-ONE / 2, ONE / 2), Some(-ONE / 4));
    assert_eq!(product_up_of(-1, 1), Some(-1));
    assert_eq!(product_up_of(i64::MIN, ONE), Some(i64::MIN));
    assert_eq!(product_up_of(i64::MIN, -ONE), None);
}

#[test]
fn second_shape_weight_is_the_product_of_its_four_terms() {
    // at x = 4: sin(-2) and sin(1)
    let sine_back = -909_297_426_826;
    let sine_ahead = 841_470_984_808;
    // (0.5 + 1.8186) * (2.5244 - 0.5) * (4 - 1) * (8 - 4)
    assert_eq!(h_nlr_2(at(4 * ONE, ONE / 2), at(0, 0), sine_back, sine_ahead), Ok(56_325_521_493_528));
    assert_eq!(
        h_nlr_2(at(-ONE, -5 * ONE + ONE / 2), at(-5 * ONE, -5 * ONE), sine_back, sine_ahead),
        Ok(56_325_521_493_528)
    );
}

#[test]
fn second_shape_weight_is_zero_where_one_term_is() {
    // at x = 1: sin(-0.5) twice; the third term is zero
    assert_eq!(h_nlr_2(at(ONE, 0), at(0, 0), -479_425_538_604, -479_425_538_604), Ok(0));
    // at x = 9: the fourth term is zero
    assert_eq!(h_nlr_2(at(9 * ONE, 0), at(0, 0), 977_530_117_665, -350_783_227_690), Ok(0));
}

#[test]
fn second_shape_weight_that_cannot_be_represented_is_a_numerical_failure() {
    assert_eq!(h_nlr_2(at(4 * ONE, i64::MAX), at(0, 0), i64::MIN, 0), Err(PlanError::NumericalFailure));
    assert_eq!(
        h_nlr_2(at(4 * ONE, 0), at(0, 0), -ONE * 1_000_000, ONE * 1_000_000),
        Err(PlanError::NumericalFailure)
    );
}
