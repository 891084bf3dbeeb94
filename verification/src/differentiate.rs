//! Forward differences: the derivative of any map from vectors to vectors,
//! one column per coordinate.

use vstd::prelude::*;
use vstd::slice::slice_to_vec;
use crate::fixed::{div_away, div_away_i128, representable, PlanError, ONE};

verus! {

/// A map from vectors to vectors that may fail.
pub trait VectorMap {
    /// What the map is at `u`.
    spec fn value(&self, u: Seq<i64>) -> Result<Seq<i64>, PlanError>;

    /// Evaluates the map at `u`.
    fn evaluate(&self, u: &[i64]) -> (r: Result<Vec<i64>, PlanError>)
        ensures
            match r {
                Ok(v) => self.value(u@) == Ok::<Seq<i64>, PlanError>(v@),
                Err(e) => self.value(u@) == Err::<Seq<i64>, PlanError>(e),
            },
    ;
}

/// The change from `base` to `moved`, divided by `step` and rounded away from
/// zero.
pub open spec fn quotient(base: int, moved: int, step: int) -> int {
    div_away((moved - base) * ONE, step)
}

/// `u` with `step` added to its coordinate `j`.
pub open spec fn perturbed(u: Seq<i64>, j: int, step: int) -> Seq<i64> {
    u.update(j, (u[j] + step) as i64)
}

/// The quotients of all outputs for one perturbed evaluation.
pub open spec fn quotients(base: Seq<i64>, moved: Seq<i64>, step: int) -> Seq<i64> {
    Seq::new(base.len(), |i: int| quotient(base[i] as int, moved[i] as int, step) as i64)
}

/// Whether every quotient of one perturbed evaluation can be represented.
pub open spec fn quotients_fit(base: Seq<i64>, moved: Seq<i64>, step: int) -> bool {
    forall|i: int|
        0 <= i < base.len() ==> representable(
            #[trigger] quotient(base[i] as int, moved[i] as int, step),
        )
}

/// The derivatives of all outputs of `g` with respect to coordinate `j`.
pub open spec fn column<G: VectorMap>(g: &G, u: Seq<i64>, base: Seq<i64>, j: int, step: int)
    -> Result<Seq<i64>, PlanError> {
    if !representable(u[j] + step) {
        Err(PlanError::NumericalFailure)
    } else {
        match g.value(perturbed(u, j, step)) {
            Err(e) => Err(e),
            Ok(moved) => if moved.len() != base.len() {
                Err(PlanError::DimensionMismatch)
            } else if !quotients_fit(base, moved, step) {
                Err(PlanError::NumericalFailure)
            } else {
                Ok(quotients(base, moved, step))
            },
        }
    }
}

/// The first `n` columns, or the failure of the first column that fails.
pub open spec fn columns<G: VectorMap>(g: &G, u: Seq<i64>, base: Seq<i64>, n: nat, step: int)
    -> Result<Seq<Seq<i64>>, PlanError>
    decreases n,
{
    if n == 0 {
        Ok(Seq::empty())
    } else {
        match columns(g, u, base, (n - 1) as nat, step) {
            Err(e) => Err(e),
            Ok(front) => match column(g, u, base, n - 1, step) {
                Err(e) => Err(e),
                Ok(c) => Ok(front.push(c)),
            },
        }
    }
}

/// The forward-difference Jacobian of `g` at `u`, by columns: entry `i` of
/// column `j` is the derivative of output `i` with respect to coordinate `j`.
/// A step that is not positive is a numerical failure.
pub open spec fn jacobian<G: VectorMap>(g: &G, u: Seq<i64>, step: int) -> Result<
    Seq<Seq<i64>>,
    PlanError,
> {
    if step <= 0 {
        Err(PlanError::NumericalFailure)
    } else {
        match g.value(u) {
            Err(e) => Err(e),
            Ok(base) => columns(g, u, base, u.len(), step),
        }
    }
}

/// Once a column fails, every longer run of columns fails in the same way.
pub proof fn lemma_columns_failure<G: VectorMap>(
    g: &G,
    u: Seq<i64>,
    base: Seq<i64>,
    j: nat,
    n: nat,
    step: int,
)
    requires
        j < n,
        columns(g, u, base, j, step).is_ok(),
        column(g, u, base, j as int, step).is_err(),
    ensures
        columns(g, u, base, n, step) == Err::<Seq<Seq<i64>>, PlanError>(
            column(g, u, base, j as int, step)->Err_0,
        ),
    decreases n,
{
    if n > j + 1 {
        lemma_columns_failure(g, u, base, j, (n - 1) as nat, step);
    }
}

/// A run of columns that succeeds holds each of its columns in its place.
pub proof fn lemma_columns_shape<G: VectorMap>(
    g: &G,
    u: Seq<i64>,
    base: Seq<i64>,
    n: nat,
    step: int,
)
    requires
        columns(g, u, base, n, step).is_ok(),
    ensures
        columns(g, u, base, n, step)->Ok_0.len() == n,
        forall|j: int|
            0 <= j < n ==> #[trigger] column(g, u, base, j, step) == Ok::<Seq<i64>, PlanError>(
                columns(g, u, base, n, step)->Ok_0[j],
            ),
    decreases n,
{
    if n > 0 {
        lemma_columns_shape(g, u, base, (n - 1) as nat, step);
    }
}

/// A Jacobian has one column for each coordinate and, in each column, one
/// entry for each output.
pub proof fn lemma_jacobian_shape<G: VectorMap>(g: &G, u: Seq<i64>, step: int)
    requires
        jacobian(g, u, step).is_ok(),
    ensures
        g.value(u).is_ok(),
        jacobian(g, u, step)->Ok_0.len() == u.len(),
        forall|j: int|
            0 <= j < u.len() ==> (#[trigger] jacobian(g, u, step)->Ok_0[j]).len() == g.value(
                u,
            )->Ok_0.len(),
        forall|j: int|
            0 <= j < u.len() ==> #[trigger] column(g, u, g.value(u)->Ok_0, j, step) == Ok::<
                Seq<i64>,
                PlanError,
            >(jacobian(g, u, step)->Ok_0[j]),
{
    let base = g.value(u)->Ok_0;
    lemma_columns_shape(g, u, base, u.len(), step);
    assert forall|j: int| 0 <= j < u.len() implies (#[trigger] jacobian(
        g,
        u,
        step,
    )->Ok_0[j]).len() == base.len() by {
        assert(column(g, u, base, j, step) == Ok::<Seq<i64>, PlanError>(
            jacobian(g, u, step)->Ok_0[j],
        ));
    }
}

/// The columns that a matrix holds.
pub open spec fn columns_of(m: Seq<Vec<i64>>) -> Seq<Seq<i64>> {
    Seq::new(m.len(), |j: int| m[j]@)
}

/// Computes the quotient of one output, where it can be represented.
pub fn difference_quotient(base: i64, moved: i64, step: i64) -> (r: Option<i64>)
    requires
        step > 0,
    ensures
        match r {
            Some(q) => q == quotient(base as int, moved as int, step as int),
            None => !representable(quotient(base as int, moved as int, step as int)),
        },
{
    let change: i128 = moved as i128 - base as i128;
    assert(-0x1_0000_0000_0000_0000 * 1_000_000_000_000 <= change * 1_000_000_000_000
        <= 0x1_0000_0000_0000_0000 * 1_000_000_000_000) by (nonlinear_arith)
        requires
            -0x1_0000_0000_0000_0000 <= change <= 0x1_0000_0000_0000_0000,
    ;
    let scaled: i128 = change * (ONE as i128);
    let q: i128 = div_away_i128(scaled, step as u128);
    if q < i64::MIN as i128 || q > i64::MAX as i128 {
        None
    } else {
        Some(q as i64)
    }
}

/// Computes the forward-difference Jacobian of `g` at `u` with the
/// perturbation `step`: one evaluation at `u`, then one for each coordinate.
pub fn forward_difference<G: VectorMap>(g: &G, u: &[i64], step: i64) -> (r: Result<
    Vec<Vec<i64>>,
    PlanError,
>)
    ensures
        match r {
            Ok(m) => jacobian(g, u@, step as int) == Ok::<Seq<Seq<i64>>, PlanError>(
                columns_of(m@),
            ),
            Err(e) => jacobian(g, u@, step as int) == Err::<Seq<Seq<i64>>, PlanError>(e),
        },
{
    if step <= 0 {
        return Err(PlanError::NumericalFailure);
    }
    let base: Vec<i64> = match g.evaluate(u) {
        Ok(v) => v,
        Err(e) => {
            return Err(e);
        },
    };
    let mut result: Vec<Vec<i64>> = Vec::new();
    let mut j: usize = 0;
    assert(columns_of(result@) =~= Seq::<Seq<i64>>::empty());
    while j < u.len()
        invariant
            0 <= j <= u.len(),
            step > 0,
            g.value(u@) == Ok::<Seq<i64>, PlanError>(base@),
            columns(g, u@, base@, j as nat, step as int) == Ok::<Seq<Seq<i64>>, PlanError>(
                columns_of(result@),
            ),
        decreases u.len() - j,
    {
        proof {
            if column(g, u@, base@, j as int, step as int).is_err() {
                lemma_columns_failure(g, u@, base@, j as nat, u@.len(), step as int);
            }
        }
        let moved_coordinate: i64 = match u[j].checked_add(step) {
            Some(c) => c,
            None => {
                return Err(PlanError::NumericalFailure);
            },
        };
        let mut u_h: Vec<i64> = slice_to_vec(u);
        u_h[j] = moved_coordinate;
        assert(u_h@ =~= perturbed(u@, j as int, step as int));
        let moved: Vec<i64> = match g.evaluate(u_h.as_slice()) {
            Ok(v) => v,
            Err(e) => {
                return Err(e);
            },
        };
        if moved.len() != base.len() {
            return Err(PlanError::DimensionMismatch);
        }
        let mut col: Vec<i64> = Vec::new();
        let mut i: usize = 0;
        while i < base.len()
            invariant
                0 <= i <= base.len(),
                moved.len() == base.len(),
                step > 0,
                col.len() == i,
                0 <= j < u.len(),
                representable(u@[j as int] + step),
                g.value(perturbed(u@, j as int, step as int)) == Ok::<Seq<i64>, PlanError>(
                    moved@,
                ),
                g.value(u@) == Ok::<Seq<i64>, PlanError>(base@),
                column(g, u@, base@, j as int, step as int).is_err() ==> columns(
                    g,
                    u@,
                    base@,
                    u@.len(),
                    step as int,
                ) == Err::<Seq<Seq<i64>>, PlanError>(
                    column(g, u@, base@, j as int, step as int)->Err_0,
                ),
                forall|k: int|
                    0 <= k < i ==> representable(
                        #[trigger] quotient(base@[k] as int, moved@[k] as int, step as int),
                    ),
                forall|k: int|
                    0 <= k < i ==> col@[k] == quotient(
                        base@[k] as int,
                        moved@[k] as int,
                        step as int,
                    ),
            decreases base.len() - i,
        {
            match difference_quotient(base[i], moved[i], step) {
                None => {
                    assert(!representable(
                        quotient(base@[i as int] as int, moved@[i as int] as int, step as int),
                    ));
                    assert(!quotients_fit(base@, moved@, step as int));
                    return Err(PlanError::NumericalFailure);
                },
                Some(q) => {
                    col.push(q);
                },
            }
            i = i + 1;
        }
        assert(col@ =~= quotients(base@, moved@, step as int));
        let ghost before = columns_of(result@);
        result.push(col);
        assert(columns_of(result@) =~= before.push(col@));
        j = j + 1;
    }
    Ok(result)
}

} // verus!
