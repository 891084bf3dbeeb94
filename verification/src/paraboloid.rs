//! A small constrained problem in three variables: make the third coordinate
//! least, on the plane `2 * u0 - u2 + 1 = 0` and on the paraboloid
//! `(u0 * u0 + u1 * u1) / 2 - u2 = 0`.

use vstd::prelude::*;
use crate::fixed::{
    div_away, div_away_i128, lemma_div_up_bracket, lemma_div_up_monotonic, lemma_product_bound,
    representable, rescaled, PlanError, ONE,
};
use crate::geometry::squared_gap;

verus! {

/// The number of decision variables.
pub const VARIABLES: usize = 3;

/// The number of residuals.
pub const RESIDUALS: usize = 2;

/// How far `u` is off the plane.
pub open spec fn plane_residual(u: Seq<i64>) -> int {
    2 * u[0] - u[2] + ONE
}

/// How far `u` is off the paraboloid, rounded away from zero.
pub open spec fn paraboloid_residual(u: Seq<i64>) -> int {
    div_away(u[0] * u[0] + u[1] * u[1] - 2 * u[2] * ONE, 2 * ONE)
}

/// Entry `k` of the transposed Jacobian of the two residuals at `u`, times
/// `d`, rounded away from zero.
pub open spec fn jacobian_product_entry(u: Seq<i64>, d: Seq<i64>, k: int) -> int {
    if k == 0 {
        rescaled(2 * d[0] * ONE + u[0] * d[1])
    } else if k == 1 {
        rescaled(u[1] * d[1])
    } else {
        -d[0] - d[1]
    }
}

/// A scalar where `v` fits in one.
fn narrowed(v: i128) -> (r: Option<i64>)
    ensures
        match r {
            Some(s) => s == v,
            None => !representable(v as int),
        },
{
    if v < i64::MIN as i128 || v > i64::MAX as i128 {
        None
    } else {
        Some(v as i64)
    }
}

/// Writes the cost of `u` to `cost`: its third coordinate.
pub fn f(u: &[i64], cost: &mut i64) -> (r: Result<(), PlanError>)
    ensures
        match r {
            Ok(_) => u@.len() == VARIABLES && *final(cost) == u@[2],
            Err(e) => e == PlanError::DimensionMismatch && u@.len() != VARIABLES && *final(cost)
                == *old(cost),
        },
{
    if u.len() != VARIABLES {
        return Err(PlanError::DimensionMismatch);
    }
    *cost = u[2];
    Ok(())
}

/// Writes the gradient of the cost to `grad`: nought, nought, one.
pub fn df(u: &[i64], grad: &mut [i64]) -> (r: Result<(), PlanError>)
    ensures
        match r {
            Ok(_) => u@.len() == VARIABLES && final(grad)@ == seq![0i64, 0i64, ONE],
            Err(e) => {
                &&& e == PlanError::DimensionMismatch
                &&& (u@.len() != VARIABLES || old(grad)@.len() != VARIABLES)
                &&& final(grad)@ == old(grad)@
            },
        },
{
    if u.len() != VARIABLES || grad.len() != VARIABLES {
        return Err(PlanError::DimensionMismatch);
    }
    grad[0] = 0;
    grad[1] = 0;
    grad[2] = ONE;
    assert(grad@ =~= seq![0i64, 0i64, ONE]);
    Ok(())
}

/// Writes the two residuals of `u` to `f1u`.
pub fn f1(u: &[i64], f1u: &mut [i64]) -> (r: Result<(), PlanError>)
    ensures
        match r {
            Ok(_) => {
                &&& u@.len() == VARIABLES
                &&& final(f1u)@.len() == RESIDUALS
                &&& final(f1u)@[0] == plane_residual(u@)
                &&& final(f1u)@[1] == paraboloid_residual(u@)
            },
            Err(e) => final(f1u)@ == old(f1u)@ && if u@.len() != VARIABLES || old(f1u)@.len()
                != RESIDUALS {
                e == PlanError::DimensionMismatch
            } else {
                e == PlanError::NumericalFailure && !(representable(plane_residual(u@))
                    && representable(paraboloid_residual(u@)))
            },
        },
{
    if u.len() != VARIABLES || f1u.len() != RESIDUALS {
        return Err(PlanError::DimensionMismatch);
    }
    let on_plane: i128 = 2 * (u[0] as i128) - (u[2] as i128) + (ONE as i128);
    let first_square: u128 = squared_gap(u[0], 0);
    let second_square: u128 = squared_gap(u[1], 0);
    assert(first_square <= 0x4000_0000_0000_0000_0000_0000_0000_0000 && second_square
        <= 0x4000_0000_0000_0000_0000_0000_0000_0000) by (nonlinear_arith)
        requires
            first_square == (u@[0] - 0) * (u@[0] - 0),
            second_square == (u@[1] - 0) * (u@[1] - 0),
            -0x8000_0000_0000_0000 <= u@[0] <= 0x7fff_ffff_ffff_ffff,
            -0x8000_0000_0000_0000 <= u@[1] <= 0x7fff_ffff_ffff_ffff,
    ;
    let squares: u128 = first_square + second_square;
    assert(squares == u@[0] * u@[0] + u@[1] * u@[1]) by (nonlinear_arith)
        requires
            squares == (u@[0] - 0) * (u@[0] - 0) + (u@[1] - 0) * (u@[1] - 0),
    ;
    assert(-0x8000_0000_0000_0000 * 2_000_000_000_000 <= 2 * u@[2] * ONE <= 0x7fff_ffff_ffff_ffff
        * 2_000_000_000_000) by (nonlinear_arith)
        requires
            -0x8000_0000_0000_0000 <= u@[2] <= 0x7fff_ffff_ffff_ffff,
            ONE == 1_000_000_000_000,
    ;
    let lift: i128 = 2 * (u[2] as i128) * (ONE as i128);
    if squares > 0x7000_0000_0000_0000_0000_0000_0000_0000 {
        proof {
            let total = squares - lift;
            lemma_div_up_monotonic(
                0x6000_0000_0000_0000_0000_0000_0000_0000,
                total,
                2 * ONE,
            );
            lemma_div_up_bracket(0x6000_0000_0000_0000_0000_0000_0000_0000, 2 * ONE);
        }
        return Err(PlanError::NumericalFailure);
    }
    let on_paraboloid: i128 = div_away_i128(squares as i128 - lift, 2 * (ONE as u128));
    match (narrowed(on_plane), narrowed(on_paraboloid)) {
        (Some(first), Some(second)) => {
            f1u[0] = first;
            f1u[1] = second;
            Ok(())
        },
        _ => Err(PlanError::NumericalFailure),
    }
}

/// Writes to `res` the transposed Jacobian of the two residuals at `u`,
/// times `d`.
pub fn f1_jacobian_product(u: &[i64], d: &[i64], res: &mut [i64]) -> (r: Result<(), PlanError>)
    ensures
        match r {
            Ok(_) => {
                &&& u@.len() == VARIABLES
                &&& d@.len() == RESIDUALS
                &&& final(res)@.len() == VARIABLES
                &&& forall|k: int|
                    0 <= k < VARIABLES ==> #[trigger] final(res)@[k] == jacobian_product_entry(
                        u@,
                        d@,
                        k,
                    )
            },
            Err(e) => final(res)@ == old(res)@ && if u@.len() != VARIABLES || d@.len() != RESIDUALS
                || old(res)@.len() != VARIABLES {
                e == PlanError::DimensionMismatch
            } else {
                e == PlanError::NumericalFailure && exists|k: int|
                    0 <= k < VARIABLES && !representable(
                        #[trigger] jacobian_product_entry(u@, d@, k),
                    )
            },
        },
{
    if u.len() != VARIABLES || d.len() != RESIDUALS || res.len() != VARIABLES {
        return Err(PlanError::DimensionMismatch);
    }
    proof {
        lemma_product_bound(u@[0] as int, d@[1] as int);
        lemma_product_bound(u@[1] as int, d@[1] as int);
        assert(-0x8000_0000_0000_0000 * 2_000_000_000_000 <= 2 * d@[0] * ONE
            <= 0x7fff_ffff_ffff_ffff * 2_000_000_000_000) by (nonlinear_arith)
            requires
                -0x8000_0000_0000_0000 <= d@[0] <= 0x7fff_ffff_ffff_ffff,
                ONE == 1_000_000_000_000,
        ;
    }
    let first: i128 = div_away_i128(
        2 * (d[0] as i128) * (ONE as i128) + (u[0] as i128) * (d[1] as i128),
        ONE as u128,
    );
    let second: i128 = div_away_i128((u[1] as i128) * (d[1] as i128), ONE as u128);
    let third: i128 = -(d[0] as i128) - (d[1] as i128);
    match (narrowed(first), narrowed(second), narrowed(third)) {
        (Some(a), Some(b), Some(c)) => {
            res[0] = a;
            res[1] = b;
            res[2] = c;
            Ok(())
        },
        (None, _, _) => {
            assert(!representable(jacobian_product_entry(u@, d@, 0)));
            Err(PlanError::NumericalFailure)
        },
        (_, None, _) => {
            assert(!representable(jacobian_product_entry(u@, d@, 1)));
            Err(PlanError::NumericalFailure)
        },
        _ => {
            assert(!representable(jacobian_product_entry(u@, d@, 2)));
            Err(PlanError::NumericalFailure)
        },
    }
}

} // verus!
