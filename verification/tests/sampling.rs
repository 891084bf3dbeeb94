use path_planning::fixed::{PlanError, ONE};
use path_planning::geometry::{HalfPlane, Obstacle, Position};
use path_planning::sampling::{
    get_points, get_points_elip, get_points_poly, grid, line_count, SearchArea,
};

fn at(x: i64, y: i64) -> Position {
    Position { x, y }
}

const HALF: i64 = ONE / 2;

/// From -1 to 1 both ways, in steps of a half.
fn small_area() -> SearchArea {
    SearchArea { x_min: -ONE, x_max: ONE, y_min: -ONE, y_max: ONE, resolution: HALF }
}

#[test]
fn line_count_takes_in_both_ends() {
    assert_eq!(line_count(-ONE, ONE, HALF), 5);
    assert_eq!(line_count(0, 0, 1), 1);
    assert_eq!(line_count(0, 9, 10), 1);
    assert_eq!(line_count(0, 10, 10), 2);
    assert_eq!(line_count(1, 0, 1), 0);
    assert_eq!(line_count(i64::MIN, i64::MAX, 1), 18_446_744_073_709_551_616);
}

#[test]
fn grid_runs_up_each_column_in_turn() {
    let area = SearchArea { x_min: 0, x_max: 25, y_min: -10, y_max: 10, resolution: 10 };
    assert_eq!(
        grid(&area),
        Ok(vec![
            at(0, -10),
            at(0, 0),
            at(0, 10),
            at(10, -10),
            at(10, 0),
            at(10, 10),
            at(20, -10),
            at(20, 0),
            at(20, 10),
        ])
    );
}

#[test]
fn grid_of_an_empty_range_is_empty() {
    let area = SearchArea { x_min: 1, x_max: 0, y_min: 0, y_max: 10, resolution: 1 };
    assert_eq!(grid(&area), Ok(Vec::new()));
    let flat = SearchArea { x_min: i64::MIN, x_max: i64::MAX, y_min: 1, y_max: 0, resolution: 1 };
    assert_eq!(grid(&flat), Ok(Vec::new()));
}

#[test]
fn grid_reaches_the_ends_of_the_scalars() {
    let area = SearchArea {
        x_min: i64::MIN,
        x_max: i64::MAX,
        y_min: i64::MAX,
        y_max: i64::MAX,
        resolution: i64::MAX,
    };
    assert_eq!(grid(&area), Ok(vec![at(i64::MIN, i64::MAX), at(-1, i64::MAX), at(i64::MAX - 1, i64::MAX)]));
}

#[test]
fn grid_without_a_positive_spacing_is_a_numerical_failure() {
    let mut area = small_area();
    area.resolution = 0;
    assert_eq!(grid(&area), Err(PlanError::NumericalFailure));
    area.resolution = -HALF;
    assert_eq!(grid(&area), Err(PlanError::NumericalFailure));
}

#[test]
fn grid_with_more_points_than_can_be_counted_is_a_numerical_failure() {
    let area = SearchArea {
        x_min: i64::MIN,
        x_max: i64::MAX,
        y_min: i64::MIN,
        y_max: i64::MAX,
        resolution: 1,
    };
    assert_eq!(grid(&area), Err(PlanError::NumericalFailure));
}

#[test]
fn points_inside_an_ellipse() {
    // x^2 + 4 y^2 < 1 on the grid: the three points on the x axis
    assert_eq!(
        get_points_elip(at(0, 0), ONE, HALF, &small_area()),
        Ok(vec![at(-HALF, 0), at(0, 0), at(HALF, 0)])
    );
}

#[test]
fn points_inside_a_polyhedron() {
    let square = vec![
        HalfPlane { normal_x: ONE, normal_y: 0, offset: ONE },
        HalfPlane { normal_x: -ONE, normal_y: 0, offset: ONE },
        HalfPlane { normal_x: 0, normal_y: ONE, offset: ONE },
        HalfPlane { normal_x: 0, normal_y: -ONE, offset: ONE },
    ];
    let found = get_points_poly(square, at(0, 0), &small_area()).unwrap();
    assert_eq!(found.len(), 9);
    assert_eq!(found[0], at(-HALF, -HALF));
    assert_eq!(found[1], at(-HALF, 0));
    assert_eq!(found[8], at(HALF, HALF));
}

#[test]
fn points_inside_the_parabolic_shape() {
    // above y = x^2 and below y = 1 + x^2 / 2
    let shape = Obstacle::Parabolic { centre: at(0, 0) };
    assert_eq!(
        get_points(&shape, &small_area()),
        Ok(vec![at(-HALF, HALF), at(-HALF, ONE), at(0, HALF), at(HALF, HALF), at(HALF, ONE)])
    );
}

#[test]
fn points_inside_a_circle_off_the_grid_are_none() {
    let disc = Obstacle::Circle { centre: at(5 * ONE, 5 * ONE), radius: ONE };
    assert_eq!(get_points(&disc, &small_area()), Ok(Vec::new()));
}

#[test]
fn points_that_cannot_be_weighed_are_a_numerical_failure() {
    let steep = Obstacle::Polyhedron {
        centre: at(0, 0),
        faces: vec![HalfPlane { normal_x: i64::MIN, normal_y: 0, offset: 0 }],
    };
    let area = SearchArea { x_min: 0, x_max: i64::MAX, y_min: 0, y_max: 0, resolution: i64::MAX };
    assert_eq!(get_points(&steep, &area), Err(PlanError::NumericalFailure));
    let mut without_spacing = small_area();
    without_spacing.resolution = 0;
    assert_eq!(get_points(&steep, &without_spacing), Err(PlanError::NumericalFailure));
}
