//! The positions of a grid that fall inside an obstacle, for drawing it.

use vstd::prelude::*;
use crate::fixed::PlanError;
use crate::geometry::{HalfPlane, Obstacle, Position};

verus! {

/// A rectangle of the plane, and the spacing of the grid laid over it.
#[derive(Clone, Copy, Debug, PartialEq, Eq, Structural)]
pub struct SearchArea {
    pub x_min: i64,
    pub x_max: i64,
    pub y_min: i64,
    pub y_max: i64,
    pub resolution: i64,
}

/// How many grid lines lie between `lo` and `hi`, the first of them on `lo`.
pub open spec fn lines(lo: int, hi: int, spacing: int) -> int {
    if lo <= hi {
        (hi - lo) / spacing + 1
    } else {
        0
    }
}

impl SearchArea {
    /// How many grid lines cross the x axis.
    pub open spec fn columns(&self) -> int {
        lines(self.x_min as int, self.x_max as int, self.resolution as int)
    }

    /// How many grid lines cross the y axis.
    pub open spec fn rows(&self) -> int {
        lines(self.y_min as int, self.y_max as int, self.resolution as int)
    }

    /// The grid point of number `k`: the points are counted up each column
    /// in turn, from the least `x` and, in a column, from the least `y`.
    pub open spec fn point(&self, k: int) -> Position {
        Position {
            x: (self.x_min + (k / self.rows()) * self.resolution) as i64,
            y: (self.y_min + (k % self.rows()) * self.resolution) as i64,
        }
    }

    /// All grid points, in their order.
    pub open spec fn points(&self) -> Seq<Position> {
        Seq::new((self.columns() * self.rows()) as nat, |k: int| self.point(k))
    }

    /// Whether the grid can be laid out: its spacing is positive, and its
    /// points can be counted.
    pub open spec fn fits(&self) -> bool {
        self.resolution > 0 && self.columns() * self.rows() <= usize::MAX
    }
}

/// Counts the grid lines between `lo` and `hi`.
pub fn line_count(lo: i64, hi: i64, spacing: i64) -> (n: u128)
    requires
        spacing > 0,
    ensures
        n == lines(lo as int, hi as int, spacing as int),
        n <= 0x1_0000_0000_0000_0000,
        forall|i: int| 0 <= i < n ==> lo + #[trigger] (i * spacing) <= hi,
{
    if lo > hi {
        0
    } else {
        let span: u128 = (hi as i128 - lo as i128) as u128;
        let whole: u128 = span / (spacing as u128);
        proof {
            vstd::arithmetic::div_mod::lemma_fundamental_div_mod(span as int, spacing as int);
            vstd::arithmetic::div_mod::lemma_mod_bound(span as int, spacing as int);
            assert(whole <= span) by (nonlinear_arith)
                requires
                    span == spacing * whole + span % (spacing as u128),
                    0 <= span % (spacing as u128),
                    spacing >= 1,
                    whole >= 0,
            ;
            assert forall|i: int| 0 <= i < whole + 1 implies lo + #[trigger] (i * spacing)
                <= hi by {
                assert(i * spacing <= span) by (nonlinear_arith)
                    requires
                        0 <= i <= whole,
                        span == spacing * whole + span % (spacing as u128),
                        0 <= span % (spacing as u128),
                        spacing >= 1,
                ;
            }
        }
        whole + 1
    }
}

/// Lays out the grid of `area`.
pub fn grid(area: &SearchArea) -> (r: Result<Vec<Position>, PlanError>)
    ensures
        match r {
            Ok(v) => area.fits() && v@ == area.points(),
            Err(e) => e == PlanError::NumericalFailure && !area.fits(),
        },
{
    if area.resolution <= 0 {
        return Err(PlanError::NumericalFailure);
    }
    let columns: u128 = line_count(area.x_min, area.x_max, area.resolution);
    let rows: u128 = line_count(area.y_min, area.y_max, area.resolution);
    let total: u128 = match columns.checked_mul(rows) {
        Some(t) => t,
        None => {
            return Err(PlanError::NumericalFailure);
        },
    };
    if total > usize::MAX as u128 {
        return Err(PlanError::NumericalFailure);
    }
    let mut v: Vec<Position> = Vec::new();
    if total == 0 {
        assert(v@ =~= area.points());
        return Ok(v);
    }
    assert(columns <= total && rows <= total && columns >= 1 && rows >= 1) by (nonlinear_arith)
        requires
            total == columns * rows,
            total > 0,
            columns >= 0,
            rows >= 0,
    ;
    let nx: usize = columns as usize;
    let ny: usize = rows as usize;
    let mut i: usize = 0;
    while i < nx
        invariant
            0 <= i <= nx,
            nx == area.columns(),
            ny == area.rows(),
            ny >= 1,
            area.resolution > 0,
            nx * ny <= usize::MAX,
            forall|c: int| 0 <= c < nx ==> area.x_min + #[trigger] (c * area.resolution) <= area.x_max,
            forall|c: int| 0 <= c < ny ==> area.y_min + #[trigger] (c * area.resolution) <= area.y_max,
            v@ == Seq::new((i * ny) as nat, |k: int| area.point(k)),
        decreases nx - i,
    {
        assert(0 <= i * area.resolution <= 0xffff_ffff_ffff_ffff * 0x7fff_ffff_ffff_ffff)
            by (nonlinear_arith)
            requires
                0 <= i <= 0xffff_ffff_ffff_ffff,
                0 < area.resolution <= 0x7fff_ffff_ffff_ffff,
        ;
        let x: i64 = (area.x_min as i128 + (i as i128) * (area.resolution as i128)) as i64;
        let mut j: usize = 0;
        proof {
            assert(i * ny + ny == (i + 1) * ny) by (nonlinear_arith);
            assert((i + 1) * ny <= nx * ny) by (nonlinear_arith)
                requires
                    i + 1 <= nx,
                    ny >= 0,
            ;
        }
        while j < ny
            invariant
                0 <= j <= ny,
                0 <= i < nx,
                ny == area.rows(),
                ny >= 1,
                area.resolution > 0,
                (i + 1) * ny <= usize::MAX,
                i * ny + ny == (i + 1) * ny,
                x == area.x_min + i * area.resolution,
                forall|c: int|
                    0 <= c < ny ==> area.y_min + #[trigger] (c * area.resolution) <= area.y_max,
                v@ == Seq::new((i * ny + j) as nat, |k: int| area.point(k)),
            decreases ny - j,
        {
            assert(0 <= j * area.resolution <= 0xffff_ffff_ffff_ffff * 0x7fff_ffff_ffff_ffff)
                by (nonlinear_arith)
                requires
                    0 <= j <= 0xffff_ffff_ffff_ffff,
                    0 < area.resolution <= 0x7fff_ffff_ffff_ffff,
            ;
            let y: i64 = (area.y_min as i128 + (j as i128) * (area.resolution as i128)) as i64;
            let ghost k: int = i * ny + j;
            proof {
                assert(i * ny >= 0) by (nonlinear_arith)
                    requires
                        i >= 0,
                        ny >= 0,
                ;
                vstd::arithmetic::div_mod::lemma_fundamental_div_mod_converse(
                    k,
                    ny as int,
                    i as int,
                    j as int,
                );
                assert(area.point(k) == Position { x, y });
            }
            v.push(Position { x, y });
            assert(v@ =~= Seq::new((k + 1) as nat, |k: int| area.point(k)));
            j = j + 1;
        }
        i = i + 1;
    }
    assert(v@ =~= area.points());
    Ok(v)
}

/// The test that keeps the positions strictly inside `obstacle`.
pub open spec fn inside_of(obstacle: Obstacle) -> spec_fn(Position) -> bool {
    |p: Position| obstacle.contains(p)
}

/// Whether every one of `points` can be weighed against `obstacle`.
pub open spec fn all_weighable(obstacle: Obstacle, points: Seq<Position>) -> bool {
    forall|k: int| 0 <= k < points.len() ==> obstacle.weight_spec(#[trigger] points[k]).is_some()
}

/// Collects the grid points of `area` that lie strictly inside `obstacle`,
/// in the order of the grid.
pub fn get_points(obstacle: &Obstacle, area: &SearchArea) -> (r: Result<Vec<Position>, PlanError>)
    ensures
        match r {
            Ok(v) => {
                &&& area.fits()
                &&& all_weighable(*obstacle, area.points())
                &&& v@ == area.points().filter(inside_of(*obstacle))
            },
            Err(e) => e == PlanError::NumericalFailure && !(area.fits() && all_weighable(
                *obstacle,
                area.points(),
            )),
        },
{
    let points: Vec<Position> = match grid(area) {
        Ok(v) => v,
        Err(e) => {
            return Err(e);
        },
    };
    let mut found: Vec<Position> = Vec::new();
    let mut i: usize = 0;
    proof {
        reveal(Seq::filter);
        assert(points@.take(0) =~= Seq::<Position>::empty());
    }
    while i < points.len()
        invariant
            0 <= i <= points.len(),
            points@ == area.points(),
            area.fits(),
            all_weighable(*obstacle, points@.take(i as int)),
            found@ == points@.take(i as int).filter(inside_of(*obstacle)),
        decreases points.len() - i,
    {
        let p: Position = points[i];
        proof {
            reveal(Seq::filter);
            assert(points@.take(i + 1).drop_last() =~= points@.take(i as int));
            assert(points@.take(i + 1).last() == p);
        }
        match obstacle.weight(p) {
            Err(_) => {
                assert(!obstacle.weight_spec(points@[i as int]).is_some());
                return Err(PlanError::NumericalFailure);
            },
            Ok(h) => {
                proof {
                    obstacle.lemma_weight_sign(p);
                    assert forall|k: int| 0 <= k < i + 1 implies obstacle.weight_spec(
                        #[trigger] points@.take(i + 1)[k],
                    ).is_some() by {
                        if k < i {
                            assert(points@.take(i as int)[k] == points@.take(i + 1)[k]);
                        }
                    }
                }
                if h > 0 {
                    found.push(p);
                }
            },
        }
        i = i + 1;
    }
    assert(points@.take(i as int) =~= points@);
    Ok(found)
}

/// Collects the grid points of `area` inside the ellipse round `centre` with
/// the half-axes `rx` and `ry`.
pub fn get_points_elip(centre: Position, rx: i64, ry: i64, area: &SearchArea) -> (r: Result<
    Vec<Position>,
    PlanError,
>)
    ensures
        match r {
            Ok(v) => area.fits() && v@ == area.points().filter(
                inside_of(Obstacle::Ellipse { centre, rx, ry }),
            ),
            Err(e) => e == PlanError::NumericalFailure && !area.fits(),
        },
{
    let ellipse = Obstacle::Ellipse { centre, rx, ry };
    assert(all_weighable(ellipse, area.points()));
    get_points(&ellipse, area)
}

/// Collects the grid points of `area` inside the polyhedron round `centre`
/// with the faces `poly`.
pub fn get_points_poly(poly: Vec<HalfPlane>, centre: Position, area: &SearchArea) -> (r: Result<
    Vec<Position>,
    PlanError,
>)
    ensures
        match r {
            Ok(v) => {
                &&& area.fits()
                &&& all_weighable(Obstacle::Polyhedron { centre, faces: poly }, area.points())
                &&& v@ == area.points().filter(
                    inside_of(Obstacle::Polyhedron { centre, faces: poly }),
                )
            },
            Err(e) => e == PlanError::NumericalFailure && !(area.fits() && all_weighable(
                Obstacle::Polyhedron { centre, faces: poly },
                area.points(),
            )),
        },
{
    let polyhedron = Obstacle::Polyhedron { centre, faces: poly };
    get_points(&polyhedron, area)
}

} // verus!
