//! The receding horizon: solve one step from where the robot is, move there,
//! and repeat until the goal is reached or the steps run out.

use vstd::prelude::*;
use crate::fixed::PlanError;
use crate::formulation::{ProblemMaster, DECISION_DIM, RESIDUAL_DIM};
use crate::geometry::{dist_sq, squared_distance, Obstacle, Position};

verus! {

/// How near to the goal counts as there: one hundred-thousandth.
pub const TOLERANCE: i64 = 10_000_000;

/// How a solver left a step.
#[derive(Clone, Copy, Debug, PartialEq, Eq, Structural)]
pub enum SolverExit {
    /// It met its tolerances.
    Converged,
    /// It used up its iterations.
    NotConvergedIterations,
    /// It used up its time.
    NotConvergedOutOfTime,
    /// It met a value that it could not compute with.
    Failed,
}

/// What a solver tells of its work on one step. The plan keeps it for
/// whoever wants to look, and decides nothing by it.
#[derive(Clone, Copy, Debug, PartialEq, Eq)]
pub struct Diagnostics {
    /// How many outer iterations the solver made.
    pub outer_iterations: usize,
    /// How many inner iterations the solver made, over all outer ones.
    pub inner_iterations: usize,
    /// The norm of the residual that the last inner problem ended on, where
    /// it is within the scalars.
    pub last_norm: Option<i64>,
    /// The change of the multipliers over the penalty weight in the last
    /// outer iteration, where it is within the scalars.
    pub multiplier_change: Option<i64>,
}

/// What a solver hands back for one step.
pub struct SolveReport {
    /// How the solver left the step.
    pub exit: SolverExit,
    /// The candidate that the solver ended on.
    pub u: Vec<i64>,
    /// What the solver tells of its work.
    pub diagnostics: Diagnostics,
}

/// The constants that every step hands to the solver. Tolerances, factors
/// and weights are fixed-point scalars; the radius is a fixed-point number of
/// 128 bits.
#[derive(Clone, Copy, Debug, PartialEq, Eq, Structural)]
pub struct SolverSettings {
    /// The number of decision variables.
    pub decision_dim: usize,
    /// The number of residuals that a solution drives to zero.
    pub residual_dim: usize,
    /// How many past steps the inner solver remembers.
    pub memory: usize,
    /// The tolerance of the inner solver.
    pub tolerance: i64,
    /// The tolerance on the change of the multipliers.
    pub outer_tolerance: i64,
    /// The largest number of outer iterations.
    pub max_outer_iterations: usize,
    /// The tolerance that the inner tolerance is driven down to.
    pub epsilon_tolerance: i64,
    /// The inner tolerance of the first outer iteration.
    pub initial_inner_tolerance: i64,
    /// The factor by which the inner tolerance shrinks.
    pub inner_tolerance_decay: i64,
    /// The penalty weight of the first outer iteration.
    pub initial_penalty: i64,
    /// The factor by which the penalty weight grows.
    pub penalty_growth: i64,
    /// How much an outer iteration must shrink the residuals to keep the
    /// penalty weight.
    pub sufficient_decrease: i64,
    /// The value that every multiplier starts from.
    pub initial_multiplier: i64,
    /// The radius of the ball that bounds the decision variables, and of the
    /// ball that bounds the multipliers: large enough to bound nothing.
    pub bound_radius: i128,
}

impl SolverSettings {
    /// The settings that every step of the plan uses.
    pub fn standard() -> (s: Self)
        ensures
            s == (SolverSettings {
                decision_dim: 2,
                residual_dim: 2,
                memory: 5,
                tolerance: 10_000_000,
                outer_tolerance: 10_000_000,
                max_outer_iterations: 200,
                epsilon_tolerance: 1_000_000,
                initial_inner_tolerance: 10_000_000_000,
                inner_tolerance_decay: 500_000_000_000,
                initial_penalty: 100_000_000_000_000,
                penalty_growth: 1_050_000_000_000,
                sufficient_decrease: 200_000_000_000,
                initial_multiplier: 5_000_000_000_000,
                bound_radius: 1_000_000_000_000_000_000_000_000,
            }),
    {
        SolverSettings {
            decision_dim: DECISION_DIM,
            residual_dim: RESIDUAL_DIM,
            memory: 5,
            tolerance: 10_000_000,
            outer_tolerance: 10_000_000,
            max_outer_iterations: 200,
            epsilon_tolerance: 1_000_000,
            initial_inner_tolerance: 10_000_000_000,
            inner_tolerance_decay: 500_000_000_000,
            initial_penalty: 100_000_000_000_000,
            penalty_growth: 1_050_000_000_000,
            sufficient_decrease: 200_000_000_000,
            initial_multiplier: 5_000_000_000_000,
            bound_radius: 1_000_000_000_000_000_000_000_000,
        }
    }
}

/// Something that can solve the problem of one step from a first guess.
pub trait StepSolver {
    /// Solves `problem`, starting from `guess`.
    fn solve(&mut self, problem: &ProblemMaster, settings: &SolverSettings, guess: &[i64]) -> SolveReport;
}

/// What a report means for the plan.
pub open spec fn interpreted(exit: SolverExit, u: Seq<i64>) -> Result<Position, PlanError> {
    match exit {
        SolverExit::Failed => Err(PlanError::NumericalFailure),
        SolverExit::NotConvergedIterations => Err(PlanError::SolverNonConvergence),
        SolverExit::NotConvergedOutOfTime => Err(PlanError::SolverNonConvergence),
        SolverExit::Converged => if u.len() == DECISION_DIM {
            Ok(Position { x: u[0], y: u[1] })
        } else {
            Err(PlanError::DimensionMismatch)
        },
    }
}

/// Reads a report: the next position where the solver converged, the failure
/// of the step where it did not.
pub fn interpret(report: &SolveReport) -> (r: Result<Position, PlanError>)
    ensures
        r == interpreted(report.exit, report.u@),
{
    match report.exit {
        SolverExit::Failed => Err(PlanError::NumericalFailure),
        SolverExit::NotConvergedIterations => Err(PlanError::SolverNonConvergence),
        SolverExit::NotConvergedOutOfTime => Err(PlanError::SolverNonConvergence),
        SolverExit::Converged => {
            if report.u.len() == DECISION_DIM {
                Ok(Position { x: report.u[0], y: report.u[1] })
            } else {
                Err(PlanError::DimensionMismatch)
            }
        },
    }
}

/// How a plan ended.
#[derive(Clone, Copy, Debug, PartialEq, Eq, Structural)]
pub enum Outcome {
    /// The last position of the path is at the goal.
    Converged,
    /// The path has as many steps as it may have, and is not at the goal.
    MaxStepsExceeded,
    /// The step after the last position of the path failed.
    StepFailed(PlanError),
}

/// Whether `p` is at the goal: nearer to it than the tolerance.
pub open spec fn at_goal(p: Position, goal: Position) -> bool {
    dist_sq(p, goal) < TOLERANCE * TOLERANCE
}

/// Decides whether `p` is at the goal.
pub fn is_at_goal(p: Position, goal: Position) -> (r: bool)
    ensures
        r == at_goal(p, goal),
{
    match squared_distance(p, goal) {
        None => false,
        // against the square of the tolerance
        Some(apart) => apart < 100_000_000_000_000,
    }
}

/// A plan under way: the path so far and the problem of the next step.
pub struct Horizon {
    /// The problem of the next step. It starts where the path ends.
    pub problem: ProblemMaster,
    /// The positions that the robot has been at, the start first.
    pub path: Vec<Position>,
    /// How many steps the plan may take.
    pub max_steps: usize,
    /// How the plan ended, once it has.
    pub outcome: Option<Outcome>,
    /// What the solver told of each step that it was asked for, in turn.
    pub diagnostics: Vec<Diagnostics>,
}

impl Horizon {
    /// How many steps the plan has taken.
    pub open spec fn steps(&self) -> int {
        self.path@.len() - 1
    }

    /// What holds of every plan: the path begins at the start and ends where
    /// the next step begins, it has no more steps than it may have, and the
    /// plan runs on exactly as long as steps are left and the goal is not
    /// reached.
    pub open spec fn wf(&self) -> bool {
        &&& self.path@.len() >= 1
        &&& self.steps() <= self.max_steps
        &&& self.problem.x_now == self.path@.last()
        &&& match self.outcome {
            None => self.steps() < self.max_steps && (self.steps() > 0 ==> !at_goal(
                self.path@.last(),
                self.problem.x_ref,
            )),
            Some(Outcome::Converged) => self.steps() > 0 && at_goal(
                self.path@.last(),
                self.problem.x_ref,
            ),
            Some(Outcome::MaxStepsExceeded) => self.steps() == self.max_steps && (self.steps() > 0
                ==> !at_goal(self.path@.last(), self.problem.x_ref)),
            Some(Outcome::StepFailed(_)) => self.steps() < self.max_steps,
        }
    }

    /// Begins a plan at `start`.
    pub fn start(
        start: Position,
        goal: Position,
        obstacles: Vec<Obstacle>,
        u_max: i64,
        max_steps: usize,
    ) -> (h: Self)
        ensures
            h.wf(),
            h.path@ == seq![start],
            h.problem.x_now == start,
            h.problem.x_ref == goal,
            h.problem.x_obs == obstacles,
            h.problem.u_max == u_max,
            h.max_steps == max_steps,
            h.outcome == if max_steps == 0 {
                Some(Outcome::MaxStepsExceeded)
            } else {
                None::<Outcome>
            },
            h.diagnostics@.len() == 0,
    {
        let mut path: Vec<Position> = Vec::new();
        path.push(start);
        assert(path@ =~= seq![start]);
        Horizon {
            problem: ProblemMaster::init(start, goal, obstacles, u_max),
            path,
            max_steps,
            outcome: if max_steps == 0 {
                Some(Outcome::MaxStepsExceeded)
            } else {
                None
            },
            diagnostics: Vec::new(),
        }
    }

    /// The first guess of the next step: where the robot is.
    pub fn initial_guess(&self) -> (u: Vec<i64>)
        ensures
            u@ == seq![self.problem.x_now.x, self.problem.x_now.y],
    {
        let mut u: Vec<i64> = Vec::new();
        u.push(self.problem.x_now.x);
        u.push(self.problem.x_now.y);
        assert(u@ =~= seq![self.problem.x_now.x, self.problem.x_now.y]);
        u
    }

    /// Takes in what the step from the end of the path came to. A position
    /// is appended to the path and becomes where the robot is; the plan ends
    /// where that position is at the goal, or where it was the last step that
    /// the plan may take. A failure ends the plan and leaves the path as it
    /// is. A plan that has ended stays as it is.
    pub fn accept(&mut self, solved: Result<Position, PlanError>)
        requires
            old(self).wf(),
        ensures
            final(self).wf(),
            final(self).max_steps == old(self).max_steps,
            final(self).problem.x_ref == old(self).problem.x_ref,
            final(self).problem.x_obs == old(self).problem.x_obs,
            final(self).problem.u_max == old(self).problem.u_max,
            final(self).diagnostics == old(self).diagnostics,
            old(self).outcome.is_some() ==> *final(self) == *old(self),
            old(self).outcome.is_none() ==> match solved {
                Err(e) => {
                    &&& final(self).path@ == old(self).path@
                    &&& final(self).outcome == Some(Outcome::StepFailed(e))
                },
                Ok(next) => {
                    &&& final(self).path@ == old(self).path@.push(next)
                    &&& final(self).outcome == if at_goal(next, old(self).problem.x_ref) {
                        Some(Outcome::Converged)
                    } else if old(self).steps() + 1 == old(self).max_steps {
                        Some(Outcome::MaxStepsExceeded)
                    } else {
                        None::<Outcome>
                    }
                },
            },
    {
        if self.outcome.is_some() {
            return ;
        }
        match solved {
            Err(e) => {
                self.outcome = Some(Outcome::StepFailed(e));
            },
            Ok(next) => {
                self.path.push(next);
                self.problem.x_now = next;
                if is_at_goal(next, self.problem.x_ref) {
                    self.outcome = Some(Outcome::Converged);
                } else if self.path.len() - 1 == self.max_steps {
                    self.outcome = Some(Outcome::MaxStepsExceeded);
                }
            },
        }
    }

    /// Takes in the report of the solver on the step from the end of the
    /// path: keeps what the solver tells of its work, and accepts what the
    /// report means for the plan. A plan that has ended stays as it is.
    pub fn take(&mut self, report: &SolveReport)
        requires
            old(self).wf(),
        ensures
            final(self).wf(),
            final(self).max_steps == old(self).max_steps,
            final(self).problem.x_ref == old(self).problem.x_ref,
            final(self).problem.x_obs == old(self).problem.x_obs,
            final(self).problem.u_max == old(self).problem.u_max,
            old(self).outcome.is_some() ==> *final(self) == *old(self),
            old(self).outcome.is_none() ==> {
                &&& final(self).diagnostics@ == old(self).diagnostics@.push(report.diagnostics)
                &&& match interpreted(report.exit, report.u@) {
                    Err(e) => {
                        &&& final(self).path@ == old(self).path@
                        &&& final(self).outcome == Some(Outcome::StepFailed(e))
                    },
                    Ok(next) => {
                        &&& final(self).path@ == old(self).path@.push(next)
                        &&& final(self).outcome == if at_goal(next, old(self).problem.x_ref) {
                            Some(Outcome::Converged)
                        } else if old(self).steps() + 1 == old(self).max_steps {
                            Some(Outcome::MaxStepsExceeded)
                        } else {
                            None::<Outcome>
                        }
                    },
                }
            },
    {
        if self.outcome.is_some() {
            return ;
        }
        self.accept(interpret(report));
        self.diagnostics.push(report.diagnostics);
    }

    /// How many steps the solver was asked for: every step of the path, and
    /// the step that failed where one did.
    pub open spec fn asked(&self) -> int {
        match self.outcome {
            Some(Outcome::StepFailed(_)) => self.steps() + 1,
            _ => self.steps(),
        }
    }

    /// Plans from `start` to `goal`: solves step after step with `solver`
    /// until the goal is reached, a step fails, or `max_steps` steps are
    /// taken. It always ends, and says how.
    pub fn run<S: StepSolver>(
        solver: &mut S,
        start: Position,
        goal: Position,
        obstacles: Vec<Obstacle>,
        u_max: i64,
        max_steps: usize,
    ) -> (h: Self)
        ensures
            h.wf(),
            h.outcome.is_some(),
            h.path@[0] == start,
            h.steps() <= max_steps,
            h.max_steps == max_steps,
            h.problem.x_ref == goal,
            h.problem.x_obs == obstacles,
            h.problem.u_max == u_max,
            h.diagnostics@.len() == h.asked(),
    {
        let settings = SolverSettings::standard();
        let mut h = Horizon::start(start, goal, obstacles, u_max, max_steps);
        while h.outcome.is_none()
            invariant
                h.wf(),
                h.path@[0] == start,
                h.max_steps == max_steps,
                h.problem.x_ref == goal,
                h.problem.x_obs == obstacles,
                h.problem.u_max == u_max,
                h.diagnostics@.len() == h.asked(),
            decreases
                    (if h.outcome.is_none() {
                        1 + h.max_steps - h.steps()
                    } else {
                        0
                    }),
        {
            let guess: Vec<i64> = h.initial_guess();
            let report: SolveReport = solver.solve(&h.problem, &settings, guess.as_slice());
            h.take(&report);
        }
        h
    }
}

/// A plan that runs on has steps left: no plan takes more steps than it may.
pub proof fn lemma_running_plan_has_steps_left(h: Horizon)
    requires
        h.wf(),
    ensures
        h.steps() <= h.max_steps,
        h.outcome.is_none() ==> h.steps() < h.max_steps,
{
}

} // verus!
