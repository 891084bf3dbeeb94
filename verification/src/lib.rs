//! Receding-horizon path planning for a point robot in the plane, over exact
//! fixed-point arithmetic.
//!
//! The robot is moved from a start to a goal one bounded step at a time. Each
//! step is a small nonlinear program: make the squared distance to the goal
//! least, while the candidate stays out of every obstacle and within reach of
//! where the robot is. The program is handed to a solver from outside; this
//! library states the program, differentiates it, and runs the plan.
//!
//! Every quantity is an `i64` that counts multiples of `1 / ONE`, with
//! `ONE` at ten to the power twelve. Sums and differences are exact. Products
//! and quotients are formed in full and rounded once, away from zero, so the
//! sign of a result, and whether it is zero, are exact. A result that does
//! not fit in an `i64` is a numerical failure, never a wrong number.
//!
//! - `fixed`: the scale, the rounding rule, roots and wide products.
//! - `geometry`: positions, obstacles and their weights.
//! - `differentiate`: forward differences of any map between vectors.
//! - `formulation`: the cost and the residuals of one step, and their
//!   derivatives.
//! - `horizon`: the plan, step after step.
//! - `sampling`: the grid points inside an obstacle.
//! - `paraboloid`: a second, smaller problem in three variables.
//! - `linear`: the product of a transposed matrix and a vector.

pub mod differentiate;
pub mod fixed;
pub mod formulation;
pub mod geometry;
pub mod horizon;
pub mod linear;
pub mod paraboloid;
pub mod sampling;
