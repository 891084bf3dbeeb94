use path_planning::fixed::{PlanError, ONE};
use path_planning::formulation::ProblemMaster;
use path_planning::geometry::{Obstacle, Position};
use path_planning::horizon::{
    interpret, is_at_goal, Diagnostics, Horizon, Outcome, SolveReport, SolverExit, SolverSettings,
    StepSolver, TOLERANCE,
};

fn at(x: i64, y: i64) -> Position {
    Position { x, y }
}

/// What a solver tells that made `inner` inner iterations in one outer one.
fn told(inner: usize) -> Diagnostics {
    Diagnostics {
        outer_iterations: 1,
        inner_iterations: inner,
        last_norm: Some(1),
        multiplier_change: None,
    }
}

fn report(exit: SolverExit, u: Vec<i64>) -> SolveReport {
    SolveReport { exit, u, diagnostics: told(0) }
}

/// Walks straight at the goal, as far as the step bound lets it.
struct Stride {
    calls: usize,
}

impl StepSolver for Stride {
    fn solve(&mut self, problem: &ProblemMaster, _settings: &SolverSettings, guess: &[i64]) -> SolveReport {
        self.calls += 1;
        assert_eq!(guess, &[problem.x_now.x, problem.x_now.y]);
        let dx = (problem.x_ref.x - problem.x_now.x) as f64;
        let dy = (problem.x_ref.y - problem.x_now.y) as f64;
        let apart = (dx * dx + dy * dy).sqrt();
        let reach = problem.u_max as f64;
        let u = if apart <= reach {
            vec![problem.x_ref.x, problem.x_ref.y]
        } else {
            vec![
                problem.x_now.x + (dx * reach / apart).trunc() as i64,
                problem.x_now.y + (dy * reach / apart).trunc() as i64,
            ]
        };
        SolveReport { exit: SolverExit::Converged, u, diagnostics: told(self.calls) }
    }
}

/// Never leaves where it is.
struct Stuck;

impl StepSolver for Stuck {
    fn solve(&mut self, problem: &ProblemMaster, _settings: &SolverSettings, _guess: &[i64]) -> SolveReport {
        report(SolverExit::Converged, vec![problem.x_now.x, problem.x_now.y])
    }
}

/// Gives up on its third step.
struct GivesUp {
    calls: usize,
}

impl StepSolver for GivesUp {
    fn solve(&mut self, problem: &ProblemMaster, _settings: &SolverSettings, _guess: &[i64]) -> SolveReport {
        self.calls += 1;
        if self.calls == 3 {
            SolveReport {
                exit: SolverExit::NotConvergedIterations,
                u: vec![0, 0],
                diagnostics: told(self.calls),
            }
        } else {
            SolveReport {
                exit: SolverExit::Converged,
                u: vec![problem.x_now.x + problem.u_max, problem.x_now.y],
                diagnostics: told(self.calls),
            }
        }
    }
}

#[test]
fn standard_settings_hold_the_fixed_constants() {
    let s = SolverSettings::standard();
    assert_eq!(s.decision_dim, 2);
    assert_eq!(s.residual_dim, 2);
    assert_eq!(s.memory, 5);
    assert_eq!(s.tolerance, ONE / 100_000);
    assert_eq!(s.outer_tolerance, ONE / 100_000);
    assert_eq!(s.max_outer_iterations, 200);
    assert_eq!(s.epsilon_tolerance, ONE / 1_000_000);
    assert_eq!(s.initial_inner_tolerance, ONE / 100);
    assert_eq!(s.inner_tolerance_decay, ONE / 2);
    assert_eq!(s.initial_penalty, 100 * ONE);
    assert_eq!(s.penalty_growth, ONE + ONE / 20);
    assert_eq!(s.sufficient_decrease, ONE / 5);
    assert_eq!(s.initial_multiplier, 5 * ONE);
    assert_eq!(s.bound_radius, 1_000_000_000_000 * (ONE as i128));
}

#[test]
fn a_converged_report_is_the_next_position() {
    assert_eq!(interpret(&report(SolverExit::Converged, vec![3, 4])), Ok(at(3, 4)));
}

#[test]
fn a_report_that_did_not_converge_is_a_failure() {
    let iterations = report(SolverExit::NotConvergedIterations, vec![3, 4]);
    assert_eq!(interpret(&iterations), Err(PlanError::SolverNonConvergence));
    let time = report(SolverExit::NotConvergedOutOfTime, vec![3, 4]);
    assert_eq!(interpret(&time), Err(PlanError::SolverNonConvergence));
    let failed = report(SolverExit::Failed, vec![3, 4]);
    assert_eq!(interpret(&failed), Err(PlanError::NumericalFailure));
}

#[test]
fn a_converged_report_of_the_wrong_length_is_a_dimension_mismatch() {
    let long = report(SolverExit::Converged, vec![3, 4, 5]);
    assert_eq!(interpret(&long), Err(PlanError::DimensionMismatch));
}

#[test]
fn the_goal_is_reached_within_the_tolerance_only() {
    let goal = at(10 * ONE, 10 * ONE);
    assert!(is_at_goal(goal, goal));
    assert!(is_at_goal(at(10 * ONE + TOLERANCE - 1, 10 * ONE), goal));
    assert!(!is_at_goal(at(10 * ONE + TOLERANCE, 10 * ONE), goal));
    assert!(is_at_goal(at(10 * ONE + 6_000_000, 10 * ONE - 7_999_999), goal));
    assert!(!is_at_goal(at(10 * ONE + 6_000_000, 10 * ONE - 8_000_000), goal));
    assert!(!is_at_goal(at(i64::MIN, i64::MIN), at(i64::MAX, i64::MAX)));
}

#[test]
fn a_plan_starts_with_its_start_alone() {
    let h = Horizon::start(at(ONE, 0), at(10 * ONE, 10 * ONE), Vec::new(), ONE / 10, 50);
    assert_eq!(h.path, vec![at(ONE, 0)]);
    assert_eq!(h.problem.x_now, at(ONE, 0));
    assert_eq!(h.problem.x_ref, at(10 * ONE, 10 * ONE));
    assert_eq!(h.problem.u_max, ONE / 10);
    assert_eq!(h.max_steps, 50);
    assert_eq!(h.outcome, None);
    assert_eq!(h.initial_guess(), vec![ONE, 0]);
}

#[test]
fn a_plan_that_may_take_no_step_is_over_at_once() {
    let h = Horizon::start(at(ONE, 0), at(10 * ONE, 10 * ONE), Vec::new(), ONE / 10, 0);
    assert_eq!(h.outcome, Some(Outcome::MaxStepsExceeded));
    assert_eq!(h.path, vec![at(ONE, 0)]);
}

#[test]
fn accepting_a_position_moves_the_robot_there() {
    let mut h = Horizon::start(at(ONE, 0), at(10 * ONE, 10 * ONE), Vec::new(), ONE / 10, 50);
    h.accept(Ok(at(ONE, ONE / 10)));
    assert_eq!(h.path, vec![at(ONE, 0), at(ONE, ONE / 10)]);
    assert_eq!(h.problem.x_now, at(ONE, ONE / 10));
    assert_eq!(h.initial_guess(), vec![ONE, ONE / 10]);
    assert_eq!(h.outcome, None);
}

#[test]
fn accepting_a_position_at_the_goal_ends_the_plan() {
    let mut h = Horizon::start(at(ONE, 0), at(10 * ONE, 10 * ONE), Vec::new(), ONE / 10, 50);
    h.accept(Ok(at(10 * ONE + 1, 10 * ONE)));
    assert_eq!(h.outcome, Some(Outcome::Converged));
    assert_eq!(h.path, vec![at(ONE, 0), at(10 * ONE + 1, 10 * ONE)]);
}

#[test]
fn accepting_a_failure_ends_the_plan_and_keeps_the_path() {
    let mut h = Horizon::start(at(ONE, 0), at(10 * ONE, 10 * ONE), Vec::new(), ONE / 10, 50);
    h.accept(Ok(at(ONE, ONE / 10)));
    h.accept(Err(PlanError::SolverNonConvergence));
    assert_eq!(h.outcome, Some(Outcome::StepFailed(PlanError::SolverNonConvergence)));
    assert_eq!(h.path, vec![at(ONE, 0), at(ONE, ONE / 10)]);
}

#[test]
fn accepting_the_last_step_that_may_be_taken_ends_the_plan() {
    let mut h = Horizon::start(at(ONE, 0), at(10 * ONE, 10 * ONE), Vec::new(), ONE / 10, 2);
    h.accept(Ok(at(ONE, ONE / 10)));
    assert_eq!(h.outcome, None);
    h.accept(Ok(at(ONE, ONE / 5)));
    assert_eq!(h.outcome, Some(Outcome::MaxStepsExceeded));
    assert_eq!(h.path.len(), 3);
}

#[test]
fn a_plan_that_has_ended_stays_as_it_is() {
    let mut h = Horizon::start(at(ONE, 0), at(10 * ONE, 10 * ONE), Vec::new(), ONE / 10, 1);
    h.accept(Ok(at(ONE, ONE / 10)));
    assert_eq!(h.outcome, Some(Outcome::MaxStepsExceeded));
    h.accept(Ok(at(10 * ONE, 10 * ONE)));
    h.accept(Err(PlanError::NumericalFailure));
    assert_eq!(h.outcome, Some(Outcome::MaxStepsExceeded));
    assert_eq!(h.path, vec![at(ONE, 0), at(ONE, ONE / 10)]);
    assert_eq!(h.problem.x_now, at(ONE, ONE / 10));
}

#[test]
fn without_obstacles_the_path_is_a_straight_line_of_short_steps() {
    let start = at(ONE, 0);
    let goal = at(10 * ONE, 10 * ONE);
    let reach = ONE / 10;
    let mut solver = Stride { calls: 0 };
    let h = Horizon::run(&mut solver, start, goal, Vec::new(), reach, 1000);
    assert_eq!(h.outcome, Some(Outcome::Converged));
    assert_eq!(h.path[0], start);
    assert_eq!(*h.path.last().unwrap(), goal);
    // 13.45 units at a tenth a step
    assert_eq!(h.path.len() - 1, 135);
    assert_eq!(solver.calls, 135);
    assert_eq!(h.diagnostics.len(), 135);
    assert_eq!(h.diagnostics[134], told(135));
    for pair in h.path.windows(2) {
        let from = ProblemMaster::init(pair[0], goal, Vec::new(), reach);
        assert_eq!(from.reach_excess_at(pair[1]), Ok(0));
        // on the line from the start to the goal: 10 * (x - 1) = 9 * y, within rounding
        let off = 10 * (pair[1].x as i128 - ONE as i128) - 9 * pair[1].y as i128;
        assert!(off.abs() < 10_000);
    }
}

#[test]
fn a_goal_that_is_never_reached_ends_in_max_steps_exceeded() {
    let ring = vec![
        Obstacle::Circle { centre: at(10 * ONE, 10 * ONE), radius: 2 * ONE },
        Obstacle::Circle { centre: at(8 * ONE, 10 * ONE), radius: 2 * ONE },
    ];
    let mut solver = Stuck;
    let h = Horizon::run(&mut solver, at(ONE, 0), at(10 * ONE, 10 * ONE), ring, ONE / 10, 25);
    assert_eq!(h.outcome, Some(Outcome::MaxStepsExceeded));
    assert_eq!(h.path.len(), 26);
    assert!(h.path.iter().all(|p| *p == at(ONE, 0)));
}

#[test]
fn a_step_that_fails_ends_the_run_with_the_path_so_far() {
    let mut solver = GivesUp { calls: 0 };
    let h = Horizon::run(&mut solver, at(0, 0), at(10 * ONE, 0), Vec::new(), ONE / 10, 100);
    assert_eq!(h.outcome, Some(Outcome::StepFailed(PlanError::SolverNonConvergence)));
    assert_eq!(h.path, vec![at(0, 0), at(ONE / 10, 0), at(ONE / 5, 0)]);
    assert_eq!(solver.calls, 3);
    // what the solver told of the failed step is kept too
    assert_eq!(h.diagnostics, vec![told(1), told(2), told(3)]);
}

#[test]
fn taking_a_report_keeps_what_the_solver_told() {
    let mut h = Horizon::start(at(ONE, 0), at(10 * ONE, 10 * ONE), Vec::new(), ONE / 10, 2);
    assert_eq!(h.diagnostics, Vec::new());
    h.take(&SolveReport { exit: SolverExit::Converged, u: vec![ONE, ONE / 10], diagnostics: told(7) });
    assert_eq!(h.path, vec![at(ONE, 0), at(ONE, ONE / 10)]);
    assert_eq!(h.outcome, None);
    assert_eq!(h.diagnostics, vec![told(7)]);
    h.take(&SolveReport { exit: SolverExit::Converged, u: vec![ONE, ONE / 5], diagnostics: told(8) });
    assert_eq!(h.outcome, Some(Outcome::MaxStepsExceeded));
    assert_eq!(h.diagnostics, vec![told(7), told(8)]);
    // a plan that has ended takes nothing in
    h.take(&SolveReport { exit: SolverExit::Failed, u: Vec::new(), diagnostics: told(9) });
    assert_eq!(h.outcome, Some(Outcome::MaxStepsExceeded));
    assert_eq!(h.path.len(), 3);
    assert_eq!(h.diagnostics, vec![told(7), told(8)]);
}

#[test]
fn taking_a_report_that_did_not_converge_ends_the_plan() {
    let mut h = Horizon::start(at(ONE, 0), at(10 * ONE, 10 * ONE), Vec::new(), ONE / 10, 5);
    h.take(&SolveReport {
        exit: SolverExit::NotConvergedOutOfTime,
        u: vec![ONE, ONE / 10],
        diagnostics: told(3),
    });
    assert_eq!(h.outcome, Some(Outcome::StepFailed(PlanError::SolverNonConvergence)));
    assert_eq!(h.path, vec![at(ONE, 0)]);
    assert_eq!(h.diagnostics, vec![told(3)]);
}

#[test]
fn a_run_that_may_take_no_step_never_calls_the_solver() {
    let mut solver = GivesUp { calls: 0 };
    let h = Horizon::run(&mut solver, at(0, 0), at(10 * ONE, 0), Vec::new(), ONE / 10, 0);
    assert_eq!(h.outcome, Some(Outcome::MaxStepsExceeded));
    assert_eq!(solver.calls, 0);
}
