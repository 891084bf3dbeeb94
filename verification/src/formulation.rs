//! One step of the plan as a nonlinear program: the cost of a candidate next
//! position and the two residuals that a feasible candidate drives to zero.

use vstd::prelude::*;
use crate::differentiate::{
    column, columns_of, forward_difference, jacobian, lemma_jacobian_shape, perturbed, quotient,
    quotients, quotients_fit, VectorMap,
};
use crate::linear::transpose_times;
use crate::fixed::{
    ceil_sqrt, ceil_sqrt_u128, div_away_i128, is_ceil_sqrt, div_up_u128, lemma_ceil_sqrt_exists,
    lemma_div_away_exact, lemma_div_up_bound, lemma_div_up_bracket, lemma_div_up_monotonic,
    lemma_product_bound,
    representable, rescaled, PlanError, ONE, STEP,
};
use crate::geometry::{
    dist_sq, lemma_total_weight_prefix, lemma_total_weight_sign, lemma_total_weight_step,
    squared_distance, total_weight, Obstacle, Position,
};

verus! {

/// The number of decision variables: the two coordinates of the next position.
pub const DECISION_DIM: usize = 2;

/// The number of residuals: obstacle avoidance first, reachability second.
pub const RESIDUAL_DIM: usize = 2;

/// The position that a decision vector stands for.
pub open spec fn position_of(u: Seq<i64>) -> Position {
    Position { x: u[0], y: u[1] }
}

/// A value where it can be represented, a numerical failure where not.
pub open spec fn checked(v: int) -> Result<int, PlanError> {
    if representable(v) {
        Ok(v)
    } else {
        Err(PlanError::NumericalFailure)
    }
}

/// The derivatives of the two residuals: `m01` is the derivative of residual
/// 0 with respect to coordinate 1.
#[derive(Clone, Copy, Debug, PartialEq, Eq, Structural)]
pub struct Jacobian {
    pub m00: i64,
    pub m01: i64,
    pub m10: i64,
    pub m11: i64,
}

/// The cost of a problem as a map from the candidate to one number.
pub struct CostOf<'a> {
    pub problem: &'a ProblemMaster,
}

/// The residuals of a problem as a map from the candidate to two numbers.
pub struct ConstraintsOf<'a> {
    pub problem: &'a ProblemMaster,
}

/// A Jacobian whose avoidance row counts only where `active` holds.
pub open spec fn masked(j: Jacobian, active: bool) -> Jacobian {
    if active {
        j
    } else {
        Jacobian { m00: 0, m01: 0, m10: j.m10, m11: j.m11 }
    }
}

/// Entry `k` of the transposed Jacobian times `d`, at scale `ONE * ONE`.
pub open spec fn transposed_product(j: Jacobian, d: Seq<i64>, k: int) -> int {
    if k == 0 {
        j.m00 * d[0] + j.m10 * d[1]
    } else {
        j.m01 * d[0] + j.m11 * d[1]
    }
}

/// The problem of one step: where the robot is, where it is headed, what it
/// must avoid and how far it may move.
pub struct ProblemMaster {
    /// Where the robot is now.
    pub x_now: Position,
    /// Where the robot is headed.
    pub x_ref: Position,
    /// What the robot must stay out of.
    pub x_obs: Vec<Obstacle>,
    /// How far the robot may move in one step.
    pub u_max: i64,
}

impl ProblemMaster {
    /// The cost of the candidate `u`: its squared distance to the goal.
    pub open spec fn cost(&self, u: Seq<i64>) -> Result<int, PlanError> {
        if u.len() != DECISION_DIM {
            Err(PlanError::DimensionMismatch)
        } else {
            checked(rescaled(dist_sq(position_of(u), self.x_ref)))
        }
    }

    /// The distance from where the robot is to `p`, rounded up.
    pub open spec fn reach(&self, p: Position) -> int {
        ceil_sqrt(dist_sq(p, self.x_now))
    }

    /// By how much `p` lies beyond what one step can reach.
    pub open spec fn reach_excess(&self, p: Position) -> int {
        if self.reach(p) > self.u_max {
            self.reach(p) - self.u_max
        } else {
            0
        }
    }

    /// The obstacle-avoidance residual at `p`.
    pub open spec fn avoidance(&self, p: Position) -> Result<int, PlanError> {
        match total_weight(self.x_obs@, p) {
            Some(total) => checked(total),
            None => Err(PlanError::NumericalFailure),
        }
    }

    /// The two residuals of the candidate `u`.
    pub open spec fn constraints(&self, u: Seq<i64>) -> Result<Seq<i64>, PlanError> {
        if u.len() != DECISION_DIM {
            Err(PlanError::DimensionMismatch)
        } else {
            match (self.avoidance(position_of(u)), checked(self.reach_excess(position_of(u)))) {
                (Ok(inside), Ok(beyond)) => Ok(seq![inside as i64, beyond as i64]),
                _ => Err(PlanError::NumericalFailure),
            }
        }
    }

    /// Whether `r` is what an evaluation of the cost at `u` returns.
    pub open spec fn cost_outcome(&self, u: Seq<i64>, r: Result<i64, PlanError>) -> bool {
        match r {
            Ok(c) => self.cost(u) == Ok::<int, PlanError>(c as int),
            Err(e) => self.cost(u) == Err::<int, PlanError>(e),
        }
    }

    /// Whether `r` is what an evaluation of the residuals at `u` returns.
    pub open spec fn constraints_outcome(
        &self,
        u: Seq<i64>,
        r: Result<Vec<i64>, PlanError>,
    ) -> bool {
        match r {
            Ok(v) => self.constraints(u) == Ok::<Seq<i64>, PlanError>(v@),
            Err(e) => self.constraints(u) == Err::<Seq<i64>, PlanError>(e),
        }
    }

    /// The forward-difference derivative of the reachability residual at `u`
    /// with respect to coordinate `j`.
    pub open spec fn reach_derivative(&self, u: Seq<i64>, j: int) -> int {
        quotient(
            self.reach_excess(position_of(u)),
            self.reach_excess(position_of(perturbed(u, j, STEP as int))),
            STEP as int,
        )
    }

    /// The forward-difference gradient of the cost at `u`.
    pub open spec fn gradient(&self, u: Seq<i64>) -> Result<Seq<i64>, PlanError> {
        match jacobian(&CostOf { problem: self }, u, STEP as int) {
            Err(e) => Err(e),
            Ok(cols) => Ok(Seq::new(cols.len(), |j: int| cols[j][0])),
        }
    }

    /// The forward-difference Jacobian of the residuals at `u`.
    pub open spec fn constraint_jacobian(&self, u: Seq<i64>) -> Result<Jacobian, PlanError> {
        match jacobian(&ConstraintsOf { problem: self }, u, STEP as int) {
            Err(e) => Err(e),
            Ok(cols) => Ok(
                Jacobian { m00: cols[0][0], m01: cols[1][0], m10: cols[0][1], m11: cols[1][1] },
            ),
        }
    }

    /// The transposed Jacobian of the residuals at `u`, times `d`. Where the
    /// avoidance residual is zero at `u`, its row counts as zero.
    pub open spec fn jacobian_product(&self, u: Seq<i64>, d: Seq<i64>) -> Result<
        Seq<i64>,
        PlanError,
    > {
        if u.len() != DECISION_DIM || d.len() != RESIDUAL_DIM {
            Err(PlanError::DimensionMismatch)
        } else {
            match (self.constraints(u), self.constraint_jacobian(u)) {
                (Ok(at), Ok(j)) => {
                    let m = masked(j, at[0] != 0);
                    let r0 = rescaled(transposed_product(m, d, 0));
                    let r1 = rescaled(transposed_product(m, d, 1));
                    if representable(r0) && representable(r1) {
                        Ok(seq![r0 as i64, r1 as i64])
                    } else {
                        Err(PlanError::NumericalFailure)
                    }
                },
                (Err(e), _) => Err(e),
                (_, Err(e)) => Err(e),
            }
        }
    }

    /// Binds the parameters of one step.
    pub fn init(x_start: Position, x_ref: Position, x_obs: Vec<Obstacle>, u_max: i64) -> (pm: Self)
        ensures
            pm.x_now == x_start,
            pm.x_ref == x_ref,
            pm.x_obs == x_obs,
            pm.u_max == u_max,
    {
        ProblemMaster { x_now: x_start, x_ref, x_obs, u_max }
    }

    /// Evaluates the cost of the candidate `u`.
    pub fn f_call(&self, u: &[i64]) -> (r: Result<i64, PlanError>)
        ensures
            self.cost_outcome(u@, r),
    {
        if u.len() != DECISION_DIM {
            return Err(PlanError::DimensionMismatch);
        }
        let p = Position { x: u[0], y: u[1] };
        match squared_distance(p, self.x_ref) {
            None => {
                proof {
                    lemma_div_up_monotonic(
                        u128::MAX + 1,
                        dist_sq(p, self.x_ref),
                        ONE as int,
                    );
                }
                Err(PlanError::NumericalFailure)
            },
            Some(apart) => {
                let c: u128 = div_up_u128(apart, ONE as u128);
                if c > i64::MAX as u128 {
                    Err(PlanError::NumericalFailure)
                } else {
                    Ok(c as i64)
                }
            },
        }
    }

    /// Evaluates the obstacle-avoidance residual at `p`.
    pub fn avoidance_at(&self, p: Position) -> (r: Result<i64, PlanError>)
        ensures
            match r {
                Ok(v) => self.avoidance(p) == Ok::<int, PlanError>(v as int),
                Err(e) => self.avoidance(p) == Err::<int, PlanError>(e),
            },
    {
        let mut total: i64 = 0;
        let mut i: usize = 0;
        assert(self.x_obs@.take(0) =~= Seq::<Obstacle>::empty());
        while i < self.x_obs.len()
            invariant
                0 <= i <= self.x_obs.len(),
                total_weight(self.x_obs@.take(i as int), p) == Some(total as int),
            decreases self.x_obs.len() - i,
        {
            proof {
                lemma_total_weight_step(self.x_obs@, i as int, p);
                if total_weight(self.x_obs@, p).is_some() {
                    lemma_total_weight_prefix(self.x_obs@, i + 1, p);
                }
            }
            match self.x_obs[i].weight(p) {
                Err(_) => {
                    return Err(PlanError::NumericalFailure);
                },
                Ok(h) => match total.checked_add(h) {
                    None => {
                        proof {
                            self.x_obs@[i as int].lemma_weight_sign(p);
                            if total_weight(self.x_obs@, p).is_some() {
                                lemma_total_weight_prefix(self.x_obs@, i as int, p);
                            }
                        }
                        return Err(PlanError::NumericalFailure);
                    },
                    Some(sum) => {
                        total = sum;
                    },
                },
            }
            i = i + 1;
        }
        assert(self.x_obs@.take(i as int) =~= self.x_obs@);
        Ok(total)
    }

    /// Evaluates by how much `p` lies beyond what one step can reach.
    pub fn reach_excess_at(&self, p: Position) -> (r: Result<i64, PlanError>)
        ensures
            match r {
                Ok(v) => checked(self.reach_excess(p)) == Ok::<int, PlanError>(v as int),
                Err(e) => checked(self.reach_excess(p)) == Err::<int, PlanError>(e),
            },
    {
        match squared_distance(p, self.x_now) {
            None => {
                proof {
                    let apart = dist_sq(p, self.x_now);
                    lemma_ceil_sqrt_exists(apart);
                    let far = ceil_sqrt(apart);
                    assert(far >= 0x1_0000_0000_0000_0000) by (nonlinear_arith)
                        requires
                            far * far >= apart,
                            apart > 0xffff_ffff_ffff_ffff_ffff_ffff_ffff_ffff,
                            far >= 0,
                    ;
                }
                Err(PlanError::NumericalFailure)
            },
            Some(apart) => {
                let far: u128 = ceil_sqrt_u128(apart);
                let beyond: i128 = far as i128 - self.u_max as i128;
                if beyond <= 0 {
                    Ok(0)
                } else if beyond > i64::MAX as i128 {
                    Err(PlanError::NumericalFailure)
                } else {
                    Ok(beyond as i64)
                }
            },
        }
    }

    /// Evaluates the two residuals of the candidate `u`.
    pub fn f1_call(&self, u: &[i64]) -> (r: Result<Vec<i64>, PlanError>)
        ensures
            self.constraints_outcome(u@, r),
    {
        if u.len() != DECISION_DIM {
            return Err(PlanError::DimensionMismatch);
        }
        let p = Position { x: u[0], y: u[1] };
        let inside: i64 = match self.avoidance_at(p) {
            Ok(v) => v,
            Err(_) => {
                return Err(PlanError::NumericalFailure);
            },
        };
        let beyond: i64 = match self.reach_excess_at(p) {
            Ok(v) => v,
            Err(_) => {
                return Err(PlanError::NumericalFailure);
            },
        };
        let mut f1u: Vec<i64> = Vec::new();
        f1u.push(inside);
        f1u.push(beyond);
        assert(f1u@ =~= seq![inside, beyond]);
        Ok(f1u)
    }

    /// Writes the two residuals of the candidate `u` to `f1u`.
    pub fn f1(&self, u: &[i64], f1u: &mut [i64]) -> (r: Result<(), PlanError>)
        ensures
            match r {
                Ok(_) => self.constraints(u@) == Ok::<Seq<i64>, PlanError>(final(f1u)@),
                Err(e) => final(f1u)@ == old(f1u)@ && if old(f1u)@.len() != RESIDUAL_DIM {
                    e == PlanError::DimensionMismatch
                } else {
                    self.constraints(u@) == Err::<Seq<i64>, PlanError>(e)
                },
            },
    {
        if f1u.len() != RESIDUAL_DIM {
            return Err(PlanError::DimensionMismatch);
        }
        match self.f1_call(u) {
            Ok(v) => {
                f1u[0] = v[0];
                f1u[1] = v[1];
                assert(f1u@ =~= v@);
                Ok(())
            },
            Err(e) => Err(e),
        }
    }

    /// Writes the forward-difference gradient of the cost at `u` to `grad`.
    pub fn df(&self, u: &[i64], grad: &mut [i64]) -> (r: Result<(), PlanError>)
        ensures
            match r {
                Ok(_) => self.gradient(u@) == Ok::<Seq<i64>, PlanError>(final(grad)@),
                Err(e) => final(grad)@ == old(grad)@ && if old(grad)@.len() != DECISION_DIM {
                    e == PlanError::DimensionMismatch
                } else {
                    self.gradient(u@) == Err::<Seq<i64>, PlanError>(e)
                },
            },
    {
        if grad.len() != DECISION_DIM {
            return Err(PlanError::DimensionMismatch);
        }
        let map = CostOf { problem: self };
        match forward_difference(&map, u, STEP) {
            Err(e) => Err(e),
            Ok(cols) => {
                proof {
                    lemma_jacobian_shape(&map, u@, STEP as int);
                    assert(columns_of(cols@)[0] == cols@[0]@);
                    assert(columns_of(cols@)[1] == cols@[1]@);
                }
                grad[0] = cols[0][0];
                grad[1] = cols[1][0];
                assert(grad@ =~= self.gradient(u@)->Ok_0);
                Ok(())
            },
        }
    }

    /// Evaluates the forward-difference Jacobian of the residuals at `u`.
    pub fn jf1_call(&self, u: &[i64]) -> (r: Result<Jacobian, PlanError>)
        ensures
            match r {
                Ok(j) => self.constraint_jacobian(u@) == Ok::<Jacobian, PlanError>(j),
                Err(e) => self.constraint_jacobian(u@) == Err::<Jacobian, PlanError>(e),
            },
    {
        let map = ConstraintsOf { problem: self };
        match forward_difference(&map, u, STEP) {
            Err(e) => Err(e),
            Ok(cols) => {
                proof {
                    lemma_jacobian_shape(&map, u@, STEP as int);
                    assert(columns_of(cols@)[0] == cols@[0]@);
                    assert(columns_of(cols@)[1] == cols@[1]@);
                }
                Ok(
                    Jacobian {
                        m00: cols[0][0],
                        m01: cols[1][0],
                        m10: cols[0][1],
                        m11: cols[1][1],
                    },
                )
            },
        }
    }

    /// Writes to `res` the transposed Jacobian of the residuals at `u`, times
    /// `d`. Where the avoidance residual is zero at `u`, its row counts as
    /// zero: at the edge of an obstacle the residual has a kink, and a
    /// difference across the kink is no derivative. The reachability residual
    /// has the same kind of kink at the step bound, and its row is never
    /// masked.
    pub fn f1_jacobian_product(&self, u: &[i64], d: &[i64], res: &mut [i64]) -> (r: Result<
        (),
        PlanError,
    >)
        ensures
            match r {
                Ok(_) => self.jacobian_product(u@, d@) == Ok::<Seq<i64>, PlanError>(final(res)@),
                Err(e) => final(res)@ == old(res)@ && if old(res)@.len() != DECISION_DIM {
                    e == PlanError::DimensionMismatch
                } else {
                    self.jacobian_product(u@, d@) == Err::<Seq<i64>, PlanError>(e)
                },
            },
    {
        if res.len() != DECISION_DIM || u.len() != DECISION_DIM || d.len() != RESIDUAL_DIM {
            return Err(PlanError::DimensionMismatch);
        }
        let test: Vec<i64> = match self.f1_call(u) {
            Ok(v) => v,
            Err(e) => {
                return Err(e);
            },
        };
        let found: Jacobian = match self.jf1_call(u) {
            Ok(j) => j,
            Err(e) => {
                return Err(e);
            },
        };
        let m: Jacobian = if test[0] == 0 {
            Jacobian { m00: 0, m01: 0, m10: found.m10, m11: found.m11 }
        } else {
            found
        };
        assert(m == masked(found, test@[0] != 0));
        let d0: i64 = d[0];
        let d1: i64 = d[1];
        proof {
            lemma_product_bound(m.m00 as int, d0 as int);
            lemma_product_bound(m.m10 as int, d1 as int);
            lemma_product_bound(m.m01 as int, d0 as int);
            lemma_product_bound(m.m11 as int, d1 as int);
        }
        let least: bool = d0 == i64::MIN && d1 == i64::MIN;
        if least && ((m.m00 == i64::MIN && m.m10 == i64::MIN) || (m.m01 == i64::MIN && m.m11
            == i64::MIN)) {
            // one of the two sums is two to the power 127
            return Err(PlanError::NumericalFailure);
        }
        let (s0, s1) = transpose_times(
            m.m00 as i128,
            m.m01 as i128,
            m.m10 as i128,
            m.m11 as i128,
            d0 as i128,
            d1 as i128,
        );
        assert(s0 == transposed_product(m, d@, 0));
        assert(s1 == transposed_product(m, d@, 1));
        let r0: i128 = div_away_i128(s0, ONE as u128);
        let r1: i128 = div_away_i128(s1, ONE as u128);
        if r0 < i64::MIN as i128 || r0 > i64::MAX as i128 || r1 < i64::MIN as i128 || r1
            > i64::MAX as i128 {
            return Err(PlanError::NumericalFailure);
        }
        res[0] = r0 as i64;
        res[1] = r1 as i64;
        assert(res@ =~= seq![r0 as i64, r1 as i64]);
        Ok(())
    }

    /// Writes the cost of the candidate `u` to `cost`.
    pub fn f(&self, u: &[i64], cost: &mut i64) -> (r: Result<(), PlanError>)
        ensures
            match r {
                Ok(_) => self.cost(u@) == Ok::<int, PlanError>(*final(cost) as int),
                Err(e) => self.cost(u@) == Err::<int, PlanError>(e) && *final(cost) == *old(cost),
            },
    {
        match self.f_call(u) {
            Ok(c) => {
                *cost = c;
                Ok(())
            },
            Err(e) => Err(e),
        }
    }
}

/// The avoidance residual is never negative, and it is zero exactly where
/// the candidate lies strictly inside none of the obstacles.
pub proof fn lemma_avoidance_residual(pm: ProblemMaster, u: Seq<i64>)
    requires
        pm.constraints(u).is_ok(),
    ensures
        pm.constraints(u)->Ok_0[0] >= 0,
        pm.constraints(u)->Ok_0[0] == 0 <==> forall|i: int|
            0 <= i < pm.x_obs@.len() ==> !(#[trigger] pm.x_obs@[i]).contains(position_of(u)),
{
    lemma_total_weight_sign(pm.x_obs@, position_of(u));
}

/// The reachability residual is zero exactly where the candidate is within
/// the step bound of where the robot is. Beyond the bound it is the distance,
/// rounded up to the next scalar, less the bound: nothing else is taken off
/// or added.
pub proof fn lemma_reach_residual(pm: ProblemMaster, u: Seq<i64>)
    requires
        pm.constraints(u).is_ok(),
    ensures
        ({
            let beyond = pm.constraints(u)->Ok_0[1] as int;
            let apart = dist_sq(position_of(u), pm.x_now);
            let within = pm.u_max >= 0 && apart <= pm.u_max * pm.u_max;
            &&& within ==> beyond == 0
            &&& !within ==> {
                &&& beyond > 0
                &&& beyond == ceil_sqrt(apart) - pm.u_max
                &&& is_ceil_sqrt(apart, beyond + pm.u_max)
            }
        }),
{
    let apart = dist_sq(position_of(u), pm.x_now);
    let p = position_of(u);
    assert(apart >= 0) by (nonlinear_arith)
        requires
            apart == (p.x - pm.x_now.x) * (p.x - pm.x_now.x) + (p.y - pm.x_now.y) * (p.y
                - pm.x_now.y),
    ;
    lemma_ceil_sqrt_exists(apart);
    let far = ceil_sqrt(apart);
    let bound = pm.u_max as int;
    if bound >= 0 && apart <= bound * bound {
        if far > bound {
            assert((far - 1) * (far - 1) >= bound * bound) by (nonlinear_arith)
                requires
                    far - 1 >= bound,
                    bound >= 0,
            ;
        }
    } else if bound >= 0 {
        if far <= bound {
            assert(far * far <= bound * bound) by (nonlinear_arith)
                requires
                    0 <= far <= bound,
            ;
        }
    }
}

/// A candidate with both residuals at zero lies strictly inside no obstacle
/// and within the step bound of where the robot is, and no other candidate
/// has both at zero.
pub proof fn lemma_feasible_candidate(pm: ProblemMaster, u: Seq<i64>)
    requires
        pm.constraints(u).is_ok(),
    ensures
        pm.constraints(u)->Ok_0 == seq![0i64, 0i64] <==> {
            &&& forall|i: int|
                0 <= i < pm.x_obs@.len() ==> !(#[trigger] pm.x_obs@[i]).contains(position_of(u))
            &&& pm.u_max >= 0
            &&& dist_sq(position_of(u), pm.x_now) <= pm.u_max * pm.u_max
        },
{
    lemma_avoidance_residual(pm, u);
    lemma_reach_residual(pm, u);
    let found = pm.constraints(u)->Ok_0;
    assert(found.len() == 2);
    if found[0] == 0 && found[1] == 0 {
        assert(found =~= seq![0i64, 0i64]);
    }
}

/// The cost is never negative, and it is zero at the goal alone.
pub proof fn lemma_cost_sign(pm: ProblemMaster, u: Seq<i64>)
    requires
        pm.cost(u).is_ok(),
    ensures
        pm.cost(u)->Ok_0 >= 0,
        pm.cost(u)->Ok_0 == 0 <==> position_of(u) == pm.x_ref,
{
    let p = position_of(u);
    let dx: int = p.x - pm.x_ref.x;
    let dy: int = p.y - pm.x_ref.y;
    assert(dx * dx + dy * dy >= 0 && (dx * dx + dy * dy == 0 <==> dx == 0 && dy == 0))
        by (nonlinear_arith);
    lemma_div_up_bound(dist_sq(p, pm.x_ref), ONE as int);
}

/// The forward-difference gradient of the cost lies above the closed form,
/// twice the offset from the goal, by less than two steps.
pub proof fn lemma_gradient_near_closed_form(pm: ProblemMaster, u: Seq<i64>, j: int)
    requires
        pm.gradient(u).is_ok(),
        0 <= j < DECISION_DIM,
    ensures
        u.len() == DECISION_DIM,
        pm.gradient(u)->Ok_0.len() == DECISION_DIM,
        j == 0 ==> 2 * (u[0] - pm.x_ref.x) < pm.gradient(u)->Ok_0[0] < 2 * (u[0] - pm.x_ref.x) + 2
            * STEP,
        j == 1 ==> 2 * (u[1] - pm.x_ref.y) < pm.gradient(u)->Ok_0[1] < 2 * (u[1] - pm.x_ref.y) + 2
            * STEP,
{
    let map = CostOf { problem: &pm };
    lemma_jacobian_shape(&map, u, STEP as int);
    let base = map.value(u)->Ok_0;
    let col = jacobian(&map, u, STEP as int)->Ok_0[j];
    assert(column(&map, u, base, j, STEP as int) == Ok::<Seq<i64>, PlanError>(col));
    let v = perturbed(u, j, STEP as int);
    let moved = map.value(v)->Ok_0;
    assert(col == quotients(base, moved, STEP as int));
    assert(quotients_fit(base, moved, STEP as int));
    let q = quotient(base[0] as int, moved[0] as int, STEP as int);
    assert(representable(q));
    assert(col[0] == q);
    let at = dist_sq(position_of(u), pm.x_ref);
    let after = dist_sq(position_of(v), pm.x_ref);
    let off: int = if j == 0 {
        u[0] - pm.x_ref.x
    } else {
        u[1] - pm.x_ref.y
    };
    let other: int = if j == 0 {
        u[1] - pm.x_ref.y
    } else {
        u[0] - pm.x_ref.x
    };
    assert(at == off * off + other * other);
    assert(after == (off + STEP) * (off + STEP) + other * other);
    assert(at >= 0 && after >= 0 && after - at == 2 * off * STEP + STEP * STEP)
        by (nonlinear_arith)
        requires
            at == off * off + other * other,
            after == (off + STEP) * (off + STEP) + other * other,
    ;
    lemma_div_up_bracket(at, ONE as int);
    lemma_div_up_bracket(after, ONE as int);
    let change: int = moved[0] - base[0];
    assert(change * ONE == (change * STEP) * STEP) by (nonlinear_arith);
    lemma_div_away_exact(change * STEP, STEP as int);
    assert(q == change * STEP);
    assert(change * ONE == moved[0] * ONE - base[0] * ONE) by (nonlinear_arith)
        requires
            change == moved[0] - base[0],
    ;
    assert(2 * off < q < 2 * off + 2 * STEP) by (nonlinear_arith)
        requires
            q * STEP == change * ONE,
            after - at - ONE < change * ONE < after - at + ONE,
            after - at == 2 * off * STEP + STEP * STEP,
            ONE == STEP * STEP,
            STEP == 1_000_000,
    ;
}

/// Where the avoidance residual is zero, the product is made of the
/// derivatives of the reachability residual and of the second entry of `d`
/// alone.
pub proof fn lemma_masked_product(pm: ProblemMaster, u: Seq<i64>, d: Seq<i64>)
    requires
        pm.jacobian_product(u, d).is_ok(),
        pm.constraints(u)->Ok_0[0] == 0,
    ensures
        pm.jacobian_product(u, d)->Ok_0 == seq![
            rescaled(pm.reach_derivative(u, 0) * d[1]) as i64,
            rescaled(pm.reach_derivative(u, 1) * d[1]) as i64,
        ],
{
    let map = ConstraintsOf { problem: &pm };
    lemma_jacobian_shape(&map, u, STEP as int);
    let base = map.value(u)->Ok_0;
    let cols = jacobian(&map, u, STEP as int)->Ok_0;
    let found = pm.constraint_jacobian(u)->Ok_0;
    assert forall|j: int| 0 <= j < 2 implies cols[j][1] == pm.reach_derivative(u, j) by {
        assert(column(&map, u, base, j, STEP as int) == Ok::<Seq<i64>, PlanError>(cols[j]));
        let moved = map.value(perturbed(u, j, STEP as int))->Ok_0;
        assert(cols[j] == quotients(base, moved, STEP as int));
        assert(quotients_fit(base, moved, STEP as int));
        assert(representable(quotient(base[1] as int, moved[1] as int, STEP as int)));
    }
    assert(found.m10 == pm.reach_derivative(u, 0));
    assert(found.m11 == pm.reach_derivative(u, 1));
    let m = masked(found, false);
    assert(transposed_product(m, d, 0) == pm.reach_derivative(u, 0) * d[1]) by (nonlinear_arith)
        requires
            transposed_product(m, d, 0) == 0 * d[0] + m.m10 * d[1],
            m.m10 == pm.reach_derivative(u, 0),
    ;
    assert(transposed_product(m, d, 1) == pm.reach_derivative(u, 1) * d[1]) by (nonlinear_arith)
        requires
            transposed_product(m, d, 1) == 0 * d[0] + m.m11 * d[1],
            m.m11 == pm.reach_derivative(u, 1),
    ;
}

/// Two problems that differ in their obstacles and in their goal only give
/// the same product wherever the avoidance residual of both is zero.
pub proof fn lemma_masked_product_ignores_obstacles(
    pm: ProblemMaster,
    other: ProblemMaster,
    u: Seq<i64>,
    d: Seq<i64>,
)
    requires
        pm.x_now == other.x_now,
        pm.u_max == other.u_max,
        pm.jacobian_product(u, d).is_ok(),
        other.jacobian_product(u, d).is_ok(),
        pm.constraints(u)->Ok_0[0] == 0,
        other.constraints(u)->Ok_0[0] == 0,
    ensures
        pm.jacobian_product(u, d) == other.jacobian_product(u, d),
{
    lemma_masked_product(pm, u, d);
    lemma_masked_product(other, u, d);
}

/// Two evaluations of the cost at one candidate return the same, and so do
/// two evaluations of the residuals.
pub proof fn lemma_evaluation_repeats(
    pm: ProblemMaster,
    u: Seq<i64>,
    cost_once: Result<i64, PlanError>,
    cost_again: Result<i64, PlanError>,
    residuals_once: Result<Vec<i64>, PlanError>,
    residuals_again: Result<Vec<i64>, PlanError>,
)
    requires
        pm.cost_outcome(u, cost_once),
        pm.cost_outcome(u, cost_again),
        pm.constraints_outcome(u, residuals_once),
        pm.constraints_outcome(u, residuals_again),
    ensures
        cost_once == cost_again,
        residuals_once.is_ok() == residuals_again.is_ok(),
        residuals_once.is_ok() ==> residuals_once->Ok_0@ == residuals_again->Ok_0@,
        residuals_once.is_err() ==> residuals_once->Err_0 == residuals_again->Err_0,
{
}

impl<'a> VectorMap for CostOf<'a> {
    open spec fn value(&self, u: Seq<i64>) -> Result<Seq<i64>, PlanError> {
        match self.problem.cost(u) {
            Ok(c) => Ok(seq![c as i64]),
            Err(e) => Err(e),
        }
    }

    fn evaluate(&self, u: &[i64]) -> (r: Result<Vec<i64>, PlanError>) {
        match self.problem.f_call(u) {
            Ok(c) => {
                let mut v: Vec<i64> = Vec::new();
                v.push(c);
                assert(v@ =~= seq![c]);
                Ok(v)
            },
            Err(e) => Err(e),
        }
    }
}

impl<'a> VectorMap for ConstraintsOf<'a> {
    open spec fn value(&self, u: Seq<i64>) -> Result<Seq<i64>, PlanError> {
        self.problem.constraints(u)
    }

    fn evaluate(&self, u: &[i64]) -> (r: Result<Vec<i64>, PlanError>) {
        self.problem.f1_call(u)
    }
}

} // verus!
