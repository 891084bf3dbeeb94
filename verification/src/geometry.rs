//! Positions and obstacles. An obstacle weighs a position: the weight is
//! positive strictly inside the obstacle and zero everywhere else.

use vstd::prelude::*;
use crate::fixed::{
    div_away_i128, div_up, div_up_u128, lemma_div_up_bound, lemma_div_up_bracket,
    lemma_div_up_monotonic, lemma_div_up_parts, lemma_product_bound, magnitude, product_exceeds,
    representable, rescaled, scaled_ratio_up, PlanError, ONE, RATIO_DIVISOR_MAX,
};

verus! {

/// A point of the plane.
#[derive(Clone, Copy, Debug, PartialEq, Eq, Structural)]
pub struct Position {
    pub x: i64,
    pub y: i64,
}

/// The squared Euclidean distance between two positions, at scale `ONE * ONE`.
pub open spec fn dist_sq(a: Position, b: Position) -> int {
    (a.x - b.x) * (a.x - b.x) + (a.y - b.y) * (a.y - b.y)
}

/// The square of the difference of two coordinates, which always fits.
pub fn squared_gap(a: i64, b: i64) -> (r: u128)
    ensures
        r == (a - b) * (a - b),
{
    let gap: i128 = a as i128 - b as i128;
    let size: u128 = magnitude(gap);
    assert(size * size <= 0xffff_ffff_ffff_ffff * 0xffff_ffff_ffff_ffff) by (nonlinear_arith)
        requires
            0 <= size <= 0xffff_ffff_ffff_ffff,
    ;
    assert(size * size == (a - b) * (a - b)) by (nonlinear_arith)
        requires
            size == a - b || size == -(a - b),
    ;
    size * size
}

/// The squared distance between two positions, or `None` where it does not
/// fit in 128 bits.
pub fn squared_distance(a: Position, b: Position) -> (r: Option<u128>)
    ensures
        match r {
            Some(v) => v == dist_sq(a, b),
            None => dist_sq(a, b) > u128::MAX,
        },
{
    let sx: u128 = squared_gap(a.x, b.x);
    let sy: u128 = squared_gap(a.y, b.y);
    sx.checked_add(sy)
}

/// The weight of `p` in the disc round `centre`: one minus the squared
/// distance in units of the radius, where that is positive. A disc of radius
/// zero holds nothing.
pub open spec fn circle_weight(centre: Position, radius: int, p: Position) -> int {
    if dist_sq(p, centre) < radius * radius {
        div_up((radius * radius - dist_sq(p, centre)) * ONE, radius * radius)
    } else {
        0
    }
}

/// Weighs `p` against the disc round `centre`.
pub fn h_circle(p: Position, centre: Position, radius: i64) -> (h: i64)
    ensures
        h == circle_weight(centre, radius as int, p),
        0 <= h <= ONE,
        h > 0 <==> dist_sq(p, centre) < radius * radius,
{
    let whole: u128 = squared_gap(radius, 0);
    assert(whole == radius * radius) by (nonlinear_arith)
        requires
            whole == (radius - 0) * (radius - 0),
    ;
    assert(whole <= RATIO_DIVISOR_MAX) by (nonlinear_arith)
        requires
            whole == radius * radius,
            -0x8000_0000_0000_0000 <= radius <= 0x7fff_ffff_ffff_ffff,
    ;
    match squared_distance(p, centre) {
        None => 0,
        Some(apart) => {
            if apart >= whole {
                0
            } else {
                let part: u128 = whole - apart;
                let h: u128 = scaled_ratio_up(part, whole);
                proof {
                    assert(part * ONE > 0) by (nonlinear_arith)
                        requires
                            part > 0,
                    ;
                    lemma_div_up_bound(part * ONE, whole as int);
                }
                h as i64
            }
        },
    }
}

/// Whether `p` lies strictly inside the ellipse round `centre` with the
/// half-axes `rx` and `ry`: the squares of its two offsets, each in units of
/// its half-axis, add up to less than one.
pub open spec fn ellipse_contains(centre: Position, rx: int, ry: int, p: Position) -> bool {
    (p.x - centre.x) * (p.x - centre.x) * (ry * ry) + (p.y - centre.y) * (p.y - centre.y) * (rx
        * rx) < (rx * rx) * (ry * ry)
}

/// The weight of `p` in the ellipse: one, less the squares of its two
/// offsets in units of the half-axes. What is left of one after each square
/// is rounded up on its own.
pub open spec fn ellipse_weight(centre: Position, rx: int, ry: int, p: Position) -> int {
    if ellipse_contains(centre, rx, ry, p) {
        div_up((rx * rx - (p.x - centre.x) * (p.x - centre.x)) * ONE, rx * rx) + div_up(
            (ry * ry - (p.y - centre.y) * (p.y - centre.y)) * ONE,
            ry * ry,
        ) - ONE
    } else {
        0
    }
}

/// A position inside an ellipse is within each half-axis of its centre, and
/// what the two squares leave of one is more than nothing.
pub proof fn lemma_ellipse_shares(xx: int, yy: int, rrx: int, rry: int)
    requires
        0 <= xx,
        0 <= yy,
        0 <= rrx,
        0 <= rry,
        xx * rry + yy * rrx < rrx * rry,
    ensures
        xx < rrx,
        yy < rry,
        0 < div_up((rrx - xx) * ONE, rrx) + div_up((rry - yy) * ONE, rry) - ONE <= ONE,
{
    assert(xx < rrx && yy < rry) by (nonlinear_arith)
        requires
            0 <= xx,
            0 <= yy,
            0 <= rrx,
            0 <= rry,
            xx * rry + yy * rrx < rrx * rry,
    ;
    let left = div_up((rrx - xx) * ONE, rrx);
    let right = div_up((rry - yy) * ONE, rry);
    assert((rrx - xx) * ONE > 0 && (rry - yy) * ONE > 0 && (rrx - xx) * ONE <= rrx * ONE && (rry
        - yy) * ONE <= rry * ONE) by (nonlinear_arith)
        requires
            0 <= xx < rrx,
            0 <= yy < rry,
    ;
    lemma_div_up_bracket((rrx - xx) * ONE, rrx);
    lemma_div_up_bracket((rry - yy) * ONE, rry);
    lemma_div_up_monotonic((rrx - xx) * ONE, rrx * ONE, rrx);
    lemma_div_up_monotonic((rry - yy) * ONE, rry * ONE, rry);
    assert(rrx * ONE == ONE * rrx + 0 && rry * ONE == ONE * rry + 0) by (nonlinear_arith);
    lemma_div_up_parts(rrx * ONE, rrx, ONE as int, 0);
    lemma_div_up_parts(rry * ONE, rry, ONE as int, 0);
    assert(left + right - ONE > 0) by (nonlinear_arith)
        requires
            left * rrx >= (rrx - xx) * ONE,
            right * rry >= (rry - yy) * ONE,
            xx * rry + yy * rrx < rrx * rry,
            0 < rrx,
            0 < rry,
            ONE == 1_000_000_000_000,
    ;
}

/// The weight in an ellipse is positive exactly inside it, and never above
/// one.
pub proof fn lemma_ellipse_weight_sign(centre: Position, rx: int, ry: int, p: Position)
    ensures
        0 <= ellipse_weight(centre, rx, ry, p) <= ONE,
        ellipse_weight(centre, rx, ry, p) > 0 <==> ellipse_contains(centre, rx, ry, p),
{
    if ellipse_contains(centre, rx, ry, p) {
        let xx = (p.x - centre.x) * (p.x - centre.x);
        let yy = (p.y - centre.y) * (p.y - centre.y);
        assert(xx >= 0 && yy >= 0 && rx * rx >= 0 && ry * ry >= 0) by (nonlinear_arith)
            requires
                xx == (p.x - centre.x) * (p.x - centre.x),
                yy == (p.y - centre.y) * (p.y - centre.y),
        ;
        lemma_ellipse_shares(xx, yy, rx * rx, ry * ry);
    }
}

/// Weighs `p` against the ellipse round `centre` with the half-axes `rx` and
/// `ry`.
pub fn h_elip(p: Position, centre: Position, rx: i64, ry: i64) -> (h: i64)
    ensures
        h == ellipse_weight(centre, rx as int, ry as int, p),
        0 <= h <= ONE,
        h > 0 <==> ellipse_contains(centre, rx as int, ry as int, p),
{
    let rrx: u128 = squared_gap(rx, 0);
    let rry: u128 = squared_gap(ry, 0);
    let xx: u128 = squared_gap(p.x, centre.x);
    let yy: u128 = squared_gap(p.y, centre.y);
    assert(rrx == rx * rx && rry == ry * ry) by (nonlinear_arith)
        requires
            rrx == (rx - 0) * (rx - 0),
            rry == (ry - 0) * (ry - 0),
    ;
    assert(rrx <= RATIO_DIVISOR_MAX && rry <= RATIO_DIVISOR_MAX) by (nonlinear_arith)
        requires
            rrx == rx * rx,
            rry == ry * ry,
            -0x8000_0000_0000_0000 <= rx <= 0x7fff_ffff_ffff_ffff,
            -0x8000_0000_0000_0000 <= ry <= 0x7fff_ffff_ffff_ffff,
    ;
    proof {
        lemma_ellipse_weight_sign(centre, rx as int, ry as int, p);
        if ellipse_contains(centre, rx as int, ry as int, p) {
            lemma_ellipse_shares(xx as int, yy as int, rrx as int, rry as int);
        }
    }
    if xx >= rrx || yy >= rry {
        return 0;
    }
    let left: u128 = rrx - xx;
    assert(left * rry > yy * rrx <==> xx * rry + yy * rrx < rrx * rry) by (nonlinear_arith)
        requires
            left == rrx - xx,
    ;
    if !product_exceeds(left, rry, yy, rrx) {
        return 0;
    }
    let share_x: u128 = scaled_ratio_up(left, rrx);
    let share_y: u128 = scaled_ratio_up(rry - yy, rry);
    (share_x + share_y - ONE as u128) as i64
}

/// One face of a polyhedron: the positions `p` with
/// `normal . (p - centre) < offset` are on its inner side.
#[derive(Clone, Copy, Debug, PartialEq, Eq, Structural)]
pub struct HalfPlane {
    pub normal_x: i64,
    pub normal_y: i64,
    pub offset: i64,
}

/// How far `p` is on the inner side of `face`, at scale `ONE * ONE`.
pub open spec fn face_slack(face: HalfPlane, centre: Position, p: Position) -> int {
    face.offset * ONE - (face.normal_x * (p.x - centre.x) + face.normal_y * (p.y - centre.y))
}

/// How far `p` is on the inner side of `face`, rounded up, and zero on the
/// outer side.
pub open spec fn face_term(face: HalfPlane, centre: Position, p: Position) -> int {
    if face_slack(face, centre, p) > 0 {
        div_up(face_slack(face, centre, p), ONE as int)
    } else {
        0
    }
}

/// The weight of `p` in the polyhedron with the given faces: the product of
/// the terms of all faces, taken from the first face on and rounded up after
/// each face. It is `None` where a term or a product cannot be represented.
pub open spec fn poly_weight(faces: Seq<HalfPlane>, centre: Position, p: Position) -> Option<int>
    decreases faces.len(),
{
    if faces.len() == 0 {
        Some(ONE as int)
    } else {
        match poly_weight(faces.drop_last(), centre, p) {
            Some(h) => {
                let t = face_term(faces.last(), centre, p);
                if representable(t) && representable(product_up(h, t)) {
                    Some(product_up(h, t))
                } else {
                    None
                }
            },
            None => None,
        }
    }
}

/// Whether `p` is strictly on the inner side of every face.
pub open spec fn inside_all(faces: Seq<HalfPlane>, centre: Position, p: Position) -> bool {
    forall|i: int| 0 <= i < faces.len() ==> face_slack(#[trigger] faces[i], centre, p) > 0
}

/// Computes the term of one face, where it can be represented.
pub fn face_term_of(face: &HalfPlane, centre: Position, p: Position) -> (r: Option<i64>)
    ensures
        match r {
            Some(t) => t == face_term(*face, centre, p),
            None => !representable(face_term(*face, centre, p)),
        },
{
    let dx: i128 = p.x as i128 - centre.x as i128;
    let dy: i128 = p.y as i128 - centre.y as i128;
    assert(-0x7fff_ffff_ffff_ffff_8000_0000_0000_0000 <= face.normal_x * dx
        <= 0x7fff_ffff_ffff_ffff_8000_0000_0000_0000) by (nonlinear_arith)
        requires
            -0x8000_0000_0000_0000 <= face.normal_x <= 0x7fff_ffff_ffff_ffff,
            -0xffff_ffff_ffff_ffff <= dx <= 0xffff_ffff_ffff_ffff,
    ;
    assert(-0x7fff_ffff_ffff_ffff_8000_0000_0000_0000 <= face.normal_y * dy
        <= 0x7fff_ffff_ffff_ffff_8000_0000_0000_0000) by (nonlinear_arith)
        requires
            -0x8000_0000_0000_0000 <= face.normal_y <= 0x7fff_ffff_ffff_ffff,
            -0xffff_ffff_ffff_ffff <= dy <= 0xffff_ffff_ffff_ffff,
    ;
    assert(-0x8000_0000_0000_0000 * 1_000_000_000_000 <= face.offset * 1_000_000_000_000
        <= 0x7fff_ffff_ffff_ffff * 1_000_000_000_000) by (nonlinear_arith)
        requires
            -0x8000_0000_0000_0000 <= face.offset <= 0x7fff_ffff_ffff_ffff,
    ;
    let px: i128 = face.normal_x as i128 * dx;
    let py: i128 = face.normal_y as i128 * dy;
    let lead: i128 = face.offset as i128 * (ONE as i128);
    let ghost slack = face_slack(*face, centre, p);
    assert(slack == lead - (px + py));
    proof {
        // whatever lies this far on the inner side has a term beyond all scalars
        lemma_div_up_bound(0x4000_0000_0000_0000_0000_0000_0000_0000, ONE as int);
        if slack >= 0x4000_0000_0000_0000_0000_0000_0000_0000 {
            lemma_div_up_monotonic(0x4000_0000_0000_0000_0000_0000_0000_0000, slack, ONE as int);
        }
    }
    match px.checked_add(py) {
        None => {
            if px > 0 {
                Some(0)
            } else {
                None
            }
        },
        Some(s) => match lead.checked_sub(s) {
            None => {
                if s > 0 {
                    Some(0)
                } else {
                    None
                }
            },
            Some(room) => {
                if room <= 0 {
                    Some(0)
                } else {
                    let t: u128 = div_up_u128(room as u128, ONE as u128);
                    if t > i64::MAX as u128 {
                        None
                    } else {
                        Some(t as i64)
                    }
                }
            },
        },
    }
}

/// Weighs `p` against the polyhedron with the given faces round `centre`.
pub fn h_poly(p: Position, faces: &[HalfPlane], centre: Position) -> (r: Result<i64, PlanError>)
    ensures
        match r {
            Ok(h) => poly_weight(faces@, centre, p) == Some(h as int),
            Err(e) => e == PlanError::NumericalFailure && poly_weight(faces@, centre, p).is_none(),
        },
{
    let mut h: i64 = ONE;
    let mut i: usize = 0;
    assert(faces@.take(0) =~= Seq::<HalfPlane>::empty());
    while i < faces.len()
        invariant
            0 <= i <= faces.len(),
            0 <= h,
            poly_weight(faces@.take(i as int), centre, p) == Some(h as int),
        decreases faces.len() - i,
    {
        proof {
            assert(faces@.take(i + 1).drop_last() =~= faces@.take(i as int));
            assert(faces@.take(i + 1).last() == faces@[i as int]);
            if poly_weight(faces@.take(i + 1), centre, p).is_none() {
                lemma_poly_weight_failure(faces@, i + 1, centre, p);
            }
        }
        let t: i64 = match face_term_of(&faces[i], centre, p) {
            Some(t) => t,
            None => {
                return Err(PlanError::NumericalFailure);
            },
        };
        proof {
            if face_slack(faces@[i as int], centre, p) > 0 {
                lemma_div_up_bound(face_slack(faces@[i as int], centre, p), ONE as int);
            }
        }
        h = match product_up_of(h, t) {
            Some(next) => next,
            None => {
                return Err(PlanError::NumericalFailure);
            },
        };
        i = i + 1;
    }
    assert(faces@.take(i as int) =~= faces@);
    Ok(h)
}

/// Once the faces taken so far cannot be weighed, no more faces can.
pub proof fn lemma_poly_weight_failure(
    faces: Seq<HalfPlane>,
    k: int,
    centre: Position,
    p: Position,
)
    requires
        0 <= k <= faces.len(),
        poly_weight(faces.take(k), centre, p).is_none(),
    ensures
        poly_weight(faces, centre, p).is_none(),
    decreases faces.len(),
{
    if k == faces.len() {
        assert(faces.take(k) =~= faces);
    } else {
        assert(faces.drop_last().take(k) =~= faces.take(k));
        lemma_poly_weight_failure(faces.drop_last(), k, centre, p);
    }
}

/// The weight in a polyhedron is never negative, and it is positive exactly
/// where the position is strictly on the inner side of every face.
pub proof fn lemma_poly_weight_sign(faces: Seq<HalfPlane>, centre: Position, p: Position)
    requires
        poly_weight(faces, centre, p).is_some(),
    ensures
        poly_weight(faces, centre, p).unwrap() >= 0,
        poly_weight(faces, centre, p).unwrap() > 0 <==> inside_all(faces, centre, p),
    decreases faces.len(),
{
    if faces.len() > 0 {
        let front = faces.drop_last();
        lemma_poly_weight_sign(front, centre, p);
        let h = poly_weight(front, centre, p).unwrap();
        let slack = face_slack(faces.last(), centre, p);
        let t = face_term(faces.last(), centre, p);
        if slack > 0 {
            lemma_div_up_bound(slack, ONE as int);
        }
        lemma_product_up_sign(h, t);
        assert(forall|i: int| 0 <= i < front.len() ==> front[i] == faces[i]);
        if inside_all(faces, centre, p) {
            assert(face_slack(faces[faces.len() - 1], centre, p) > 0);
            assert forall|i: int| 0 <= i < front.len() implies face_slack(
                #[trigger] front[i],
                centre,
                p,
            ) > 0 by {
                assert(front[i] == faces[i]);
            }
        }
        if poly_weight(faces, centre, p).unwrap() > 0 {
            assert forall|i: int| 0 <= i < faces.len() implies face_slack(
                #[trigger] faces[i],
                centre,
                p,
            ) > 0 by {
                if i < front.len() {
                    assert(front[i] == faces[i]);
                }
            }
        }
    }
}

/// For a position at `(x, y)` from the centre, `y - x * x` at scale
/// `ONE * ONE`: positive above the parabola.
pub open spec fn parabola_rise(centre: Position, p: Position) -> int {
    (p.y - centre.y) * ONE - (p.x - centre.x) * (p.x - centre.x)
}

/// For a position at `(x, y)` from the centre, `1 + x * x / 2 - y` at scale
/// `2 * ONE * ONE`: positive below the flatter parabola one unit up.
pub open spec fn parabola_drop(centre: Position, p: Position) -> int {
    2 * ONE * ONE + (p.x - centre.x) * (p.x - centre.x) - 2 * (p.y - centre.y) * ONE
}

/// `n / d` rounded up where `n` is positive, zero where it is not.
pub open spec fn positive_part(n: int, d: int) -> int {
    if n > 0 {
        div_up(n, d)
    } else {
        0
    }
}

/// The weight of `p` in the region between the two parabolas round `centre`:
/// the product of how far it is above the one and below the other. It is
/// `None` where one of the two, or the product, cannot be represented.
pub open spec fn nlr_1_weight(centre: Position, p: Position) -> Option<int> {
    let above = positive_part(parabola_rise(centre, p), ONE as int);
    let below = positive_part(parabola_drop(centre, p), 2 * ONE);
    if representable(above) && representable(below) && representable(product_up(above, below)) {
        Some(product_up(above, below))
    } else {
        None
    }
}

/// A scalar where `t` fits in one.
fn narrowed(t: u128) -> (r: Option<i64>)
    ensures
        match r {
            Some(v) => v == t,
            None => !representable(t as int),
        },
{
    if t > i64::MAX as u128 {
        None
    } else {
        Some(t as i64)
    }
}

/// Weighs `p` against the region between the two parabolas round `centre`.
pub fn h_nlr_1(p: Position, centre: Position) -> (r: Result<i64, PlanError>)
    ensures
        match r {
            Ok(h) => nlr_1_weight(centre, p) == Some(h as int),
            Err(e) => e == PlanError::NumericalFailure && nlr_1_weight(centre, p).is_none(),
        },
{
    let across: u128 = squared_gap(p.x, centre.x);
    let dy: i128 = p.y as i128 - centre.y as i128;
    assert(-0xffff_ffff_ffff_ffff * 1_000_000_000_000 <= dy * 1_000_000_000_000
        <= 0xffff_ffff_ffff_ffff * 1_000_000_000_000) by (nonlinear_arith)
        requires
            -0xffff_ffff_ffff_ffff <= dy <= 0xffff_ffff_ffff_ffff,
    ;
    let up: i128 = dy * (ONE as i128);
    let ghost rise = parabola_rise(centre, p);
    let ghost drop = parabola_drop(centre, p);
    assert(rise == up - across);
    assert(drop == 2 * ONE * ONE + across - 2 * up);
    let above: i64 = if up <= 0 || across >= up as u128 {
        0
    } else {
        match narrowed(div_up_u128(up as u128 - across, ONE as u128)) {
            Some(t) => t,
            None => {
                return Err(PlanError::NumericalFailure);
            },
        }
    };
    if across >= 0x4000_0000_0000_0000_0000_0000_0000_0000 {
        proof {
            lemma_div_up_bound(0x2000_0000_0000_0000_0000_0000_0000_0000, 2 * ONE);
            lemma_div_up_monotonic(0x2000_0000_0000_0000_0000_0000_0000_0000, drop, 2 * ONE);
            lemma_div_up_bracket(0x2000_0000_0000_0000_0000_0000_0000_0000, 2 * ONE);
        }
        return Err(PlanError::NumericalFailure);
    }
    let room: i128 = 2 * (ONE as i128) * (ONE as i128) + across as i128 - 2 * up;
    let below: i64 = if room <= 0 {
        0
    } else {
        match narrowed(div_up_u128(room as u128, 2 * (ONE as u128))) {
            Some(t) => t,
            None => {
                return Err(PlanError::NumericalFailure);
            },
        }
    };
    proof {
        if rise > 0 {
            lemma_div_up_bound(rise, ONE as int);
        }
        if drop > 0 {
            lemma_div_up_bound(drop, 2 * ONE);
        }
    }
    match product_up_of(above, below) {
        Some(h) => Ok(h),
        None => Err(PlanError::NumericalFailure),
    }
}

/// The weight between the parabolas is never negative, and it is positive
/// exactly where the position is strictly above the one and strictly below
/// the other.
pub proof fn lemma_nlr_1_weight_sign(centre: Position, p: Position)
    requires
        nlr_1_weight(centre, p).is_some(),
    ensures
        nlr_1_weight(centre, p).unwrap() >= 0,
        nlr_1_weight(centre, p).unwrap() > 0 <==> parabola_rise(centre, p) > 0 && parabola_drop(
            centre,
            p,
        ) > 0,
{
    let rise = parabola_rise(centre, p);
    let drop = parabola_drop(centre, p);
    let above = positive_part(rise, ONE as int);
    let below = positive_part(drop, 2 * ONE);
    if rise > 0 {
        lemma_div_up_bound(rise, ONE as int);
    }
    if drop > 0 {
        lemma_div_up_bound(drop, 2 * ONE);
    }
    lemma_product_up_sign(above, below);
}

/// The product of two scalars, rounded away from zero.
pub open spec fn product_up(h: int, t: int) -> int {
    rescaled(h * t)
}

/// Computes the product of two scalars, where it can be represented.
pub fn product_up_of(h: i64, t: i64) -> (r: Option<i64>)
    ensures
        match r {
            Some(v) => v == product_up(h as int, t as int),
            None => !representable(product_up(h as int, t as int)),
        },
{
    proof {
        lemma_product_bound(h as int, t as int);
    }
    let scaled: i128 = div_away_i128((h as i128) * (t as i128), ONE as u128);
    if scaled < i64::MIN as i128 || scaled > i64::MAX as i128 {
        None
    } else {
        Some(scaled as i64)
    }
}

/// What is left of `n` above zero, where it fits in a scalar.
fn positive_part_of(n: i128) -> (r: Option<i64>)
    ensures
        match r {
            Some(v) => v == if n > 0 { n as int } else { 0 },
            None => n > i64::MAX,
        },
{
    if n <= 0 {
        Some(0)
    } else if n > i64::MAX as i128 {
        None
    } else {
        Some(n as i64)
    }
}

/// The four terms of the wave shape for a position at `(x, y)`
/// from the centre: `y - 2 * sine_back`, `3 * sine_ahead - y`, `x - 1` and
/// `8 - x`, each where it is positive and zero where it is not.
pub open spec fn nlr_2_terms(centre: Position, p: Position, sine_back: int, sine_ahead: int) -> Seq<
    int,
> {
    let x = p.x - centre.x;
    let y = p.y - centre.y;
    seq![
        if y - 2 * sine_back > 0 { y - 2 * sine_back } else { 0 },
        if 3 * sine_ahead - y > 0 { 3 * sine_ahead - y } else { 0 },
        if x - ONE > 0 { x - ONE } else { 0 },
        if 8 * ONE - x > 0 { 8 * ONE - x } else { 0 },
    ]
}

/// The weight of `p` in the wave shape: the product of its four
/// terms, taken in their order and rounded up after each. It is `None` where
/// a term or a product cannot be represented.
pub open spec fn nlr_2_weight(centre: Position, p: Position, sine_back: int, sine_ahead: int)
    -> Option<int> {
    let t = nlr_2_terms(centre, p, sine_back, sine_ahead);
    let two = product_up(t[0], t[1]);
    let three = product_up(two, t[2]);
    let four = product_up(three, t[3]);
    if representable(t[0]) && representable(t[1]) && representable(t[2]) && representable(t[3])
        && representable(two) && representable(three) && representable(four) {
        Some(four)
    } else {
        None
    }
}

/// Weighs `p` against the wave shape round `centre`: the region
/// above `y = 2 * sin(-x / 2)` and below `y = 3 * sin(x / 2 - 1)`, for `x`
/// between 1 and 8. The caller hands in the two sines for the `x` of `p`:
/// `sine_back` for `sin(-x / 2)` and `sine_ahead` for `sin(x / 2 - 1)`.
pub fn h_nlr_2(p: Position, centre: Position, sine_back: i64, sine_ahead: i64) -> (r: Result<
    i64,
    PlanError,
>)
    ensures
        match r {
            Ok(h) => nlr_2_weight(centre, p, sine_back as int, sine_ahead as int) == Some(h as int),
            Err(e) => e == PlanError::NumericalFailure && nlr_2_weight(
                centre,
                p,
                sine_back as int,
                sine_ahead as int,
            ).is_none(),
        },
{
    let x: i128 = p.x as i128 - centre.x as i128;
    let y: i128 = p.y as i128 - centre.y as i128;
    let t0 = positive_part_of(y - 2 * (sine_back as i128));
    let t1 = positive_part_of(3 * (sine_ahead as i128) - y);
    let t2 = positive_part_of(x - ONE as i128);
    let t3 = positive_part_of(8 * (ONE as i128) - x);
    match (t0, t1, t2, t3) {
        (Some(a), Some(b), Some(c), Some(d)) => {
            let two: i64 = match product_up_of(a, b) {
                Some(v) => v,
                None => {
                    return Err(PlanError::NumericalFailure);
                },
            };
            let three: i64 = match product_up_of(two, c) {
                Some(v) => v,
                None => {
                    return Err(PlanError::NumericalFailure);
                },
            };
            match product_up_of(three, d) {
                Some(v) => Ok(v),
                None => Err(PlanError::NumericalFailure),
            }
        },
        _ => Err(PlanError::NumericalFailure),
    }
}

/// The weight in the wave shape is never negative, and it is
/// positive exactly where all four terms are.
pub proof fn lemma_nlr_2_weight_sign(
    centre: Position,
    p: Position,
    sine_back: int,
    sine_ahead: int,
)
    requires
        nlr_2_weight(centre, p, sine_back, sine_ahead).is_some(),
    ensures
        nlr_2_weight(centre, p, sine_back, sine_ahead).unwrap() >= 0,
        nlr_2_weight(centre, p, sine_back, sine_ahead).unwrap() > 0 <==> forall|i: int|
            0 <= i < 4 ==> #[trigger] nlr_2_terms(centre, p, sine_back, sine_ahead)[i] > 0,
{
    let t = nlr_2_terms(centre, p, sine_back, sine_ahead);
    let two = product_up(t[0], t[1]);
    let three = product_up(two, t[2]);
    lemma_product_up_sign(t[0], t[1]);
    lemma_product_up_sign(two, t[2]);
    lemma_product_up_sign(three, t[3]);
    if nlr_2_weight(centre, p, sine_back, sine_ahead).unwrap() > 0 {
        assert forall|i: int| 0 <= i < 4 implies #[trigger] t[i] > 0 by {}
    }
    if forall|i: int| 0 <= i < 4 ==> #[trigger] t[i] > 0 {
        assert(t[0] > 0 && t[1] > 0 && t[2] > 0 && t[3] > 0);
    }
}

/// A rounded-up product is positive exactly where both factors are.
pub proof fn lemma_product_up_sign(h: int, t: int)
    requires
        h >= 0,
        t >= 0,
    ensures
        product_up(h, t) >= 0,
        product_up(h, t) > 0 <==> h > 0 && t > 0,
{
    assert(h * t >= 0 && (h * t > 0 <==> h > 0 && t > 0)) by (nonlinear_arith)
        requires
            h >= 0,
            t >= 0,
    ;
    lemma_div_up_bound(h * t, ONE as int);
}

/// A region of the plane that the robot must stay out of.
#[derive(Clone, Debug)]
pub enum Obstacle {
    /// The disc round `centre`.
    Circle { centre: Position, radius: i64 },
    /// The ellipse round `centre` with the half-axes `rx` and `ry`, along
    /// the axes of the plane.
    Ellipse { centre: Position, rx: i64, ry: i64 },
    /// The polyhedron round `centre` that its faces cut out.
    Polyhedron { centre: Position, faces: Vec<HalfPlane> },
    /// The region between two parabolas: above `y = x * x` and below
    /// `y = 1 + x * x / 2`, for `(x, y)` counted from `centre`.
    Parabolic { centre: Position },
}

impl Obstacle {
    /// Whether `p` lies strictly inside the obstacle.
    pub open spec fn contains(self, p: Position) -> bool {
        match self {
            Obstacle::Circle { centre, radius } => dist_sq(p, centre) < radius * radius,
            Obstacle::Ellipse { centre, rx, ry } => ellipse_contains(centre, rx as int, ry as int, p),
            Obstacle::Polyhedron { centre, faces } => inside_all(faces@, centre, p),
            Obstacle::Parabolic { centre } => parabola_rise(centre, p) > 0 && parabola_drop(
                centre,
                p,
            ) > 0,
        }
    }

    /// The weight of `p`, or `None` where it cannot be represented.
    pub open spec fn weight_spec(self, p: Position) -> Option<int> {
        match self {
            Obstacle::Circle { centre, radius } => Some(circle_weight(centre, radius as int, p)),
            Obstacle::Ellipse { centre, rx, ry } => Some(
                ellipse_weight(centre, rx as int, ry as int, p),
            ),
            Obstacle::Polyhedron { centre, faces } => poly_weight(faces@, centre, p),
            Obstacle::Parabolic { centre } => nlr_1_weight(centre, p),
        }
    }

    /// Weighs `p` against the obstacle.
    pub fn weight(&self, p: Position) -> (r: Result<i64, PlanError>)
        ensures
            match r {
                Ok(h) => self.weight_spec(p) == Some(h as int),
                Err(e) => e == PlanError::NumericalFailure && self.weight_spec(p).is_none(),
            },
    {
        match self {
            Obstacle::Circle { centre, radius } => Ok(h_circle(p, *centre, *radius)),
            Obstacle::Ellipse { centre, rx, ry } => Ok(h_elip(p, *centre, *rx, *ry)),
            Obstacle::Polyhedron { centre, faces } => h_poly(p, faces.as_slice(), *centre),
            Obstacle::Parabolic { centre } => h_nlr_1(p, *centre),
        }
    }

    /// A weight is never negative, and it is positive exactly inside.
    pub proof fn lemma_weight_sign(self, p: Position)
        requires
            self.weight_spec(p).is_some(),
        ensures
            self.weight_spec(p).unwrap() >= 0,
            self.weight_spec(p).unwrap() > 0 <==> self.contains(p),
    {
        match self {
            Obstacle::Circle { centre, radius } => {
                lemma_circle_weight_sign(centre, radius as int, p);
            },
            Obstacle::Ellipse { centre, rx, ry } => {
                lemma_ellipse_weight_sign(centre, rx as int, ry as int, p);
            },
            Obstacle::Polyhedron { centre, faces } => {
                lemma_poly_weight_sign(faces@, centre, p);
            },
            Obstacle::Parabolic { centre } => {
                lemma_nlr_1_weight_sign(centre, p);
            },
        }
    }
}

/// The weight in a disc is positive exactly where the position is strictly
/// nearer to the centre than the radius, and never above one.
pub proof fn lemma_circle_weight_sign(centre: Position, radius: int, p: Position)
    ensures
        0 <= circle_weight(centre, radius, p) <= ONE,
        circle_weight(centre, radius, p) > 0 <==> dist_sq(p, centre) < radius * radius,
{
    let whole = radius * radius;
    let apart = dist_sq(p, centre);
    assert(apart >= 0) by (nonlinear_arith)
        requires
            apart == (p.x - centre.x) * (p.x - centre.x) + (p.y - centre.y) * (p.y - centre.y),
    ;
    if apart < whole {
        let part = whole - apart;
        assert(part * ONE > 0 && part * ONE <= whole * ONE) by (nonlinear_arith)
            requires
                0 < part <= whole,
        ;
        lemma_div_up_bound(part * ONE, whole);
        lemma_div_up_monotonic(part * ONE, whole * ONE, whole);
        assert(whole * ONE == ONE * whole + 0) by (nonlinear_arith);
        lemma_div_up_parts(whole * ONE, whole, ONE as int, 0);
    }
}

/// The sum of the weights of `p` in all of `obstacles`, or `None` where one
/// of the weights cannot be represented.
pub open spec fn total_weight(obstacles: Seq<Obstacle>, p: Position) -> Option<int>
    decreases obstacles.len(),
{
    if obstacles.len() == 0 {
        Some(0)
    } else {
        match (total_weight(obstacles.drop_last(), p), obstacles.last().weight_spec(p)) {
            (Some(before), Some(h)) => Some(before + h),
            _ => None,
        }
    }
}

/// The sum of weights is never negative, and it is zero exactly where the
/// position lies in none of the obstacles.
pub proof fn lemma_total_weight_sign(obstacles: Seq<Obstacle>, p: Position)
    requires
        total_weight(obstacles, p).is_some(),
    ensures
        total_weight(obstacles, p).unwrap() >= 0,
        total_weight(obstacles, p).unwrap() == 0 <==> forall|i: int|
            0 <= i < obstacles.len() ==> !(#[trigger] obstacles[i]).contains(p),
    decreases obstacles.len(),
{
    if obstacles.len() > 0 {
        let front = obstacles.drop_last();
        lemma_total_weight_sign(front, p);
        obstacles.last().lemma_weight_sign(p);
        assert(forall|i: int| 0 <= i < front.len() ==> front[i] == obstacles[i]);
        if total_weight(obstacles, p).unwrap() == 0 {
            assert forall|i: int| 0 <= i < obstacles.len() implies !(#[trigger] obstacles[i]).contains(p) by {
                if i < front.len() {
                    assert(front[i] == obstacles[i]);
                }
            }
        }
    }
}

/// A part of the obstacles, counted from the front, weighs no more than all
/// of them, and can be weighed wherever all of them can.
pub proof fn lemma_total_weight_prefix(obstacles: Seq<Obstacle>, k: int, p: Position)
    requires
        0 <= k <= obstacles.len(),
        total_weight(obstacles, p).is_some(),
    ensures
        total_weight(obstacles.take(k), p).is_some(),
        0 <= total_weight(obstacles.take(k), p).unwrap() <= total_weight(obstacles, p).unwrap(),
    decreases obstacles.len(),
{
    if k == obstacles.len() {
        assert(obstacles.take(k) =~= obstacles);
        lemma_total_weight_sign(obstacles, p);
    } else {
        let front = obstacles.drop_last();
        assert(front.take(k) =~= obstacles.take(k));
        lemma_total_weight_prefix(front, k, p);
        obstacles.last().lemma_weight_sign(p);
    }
}

/// Weighing one obstacle more adds its weight.
pub proof fn lemma_total_weight_step(obstacles: Seq<Obstacle>, k: int, p: Position)
    requires
        0 <= k < obstacles.len(),
    ensures
        total_weight(obstacles.take(k + 1), p) == match (
            total_weight(obstacles.take(k), p),
            obstacles[k].weight_spec(p),
        ) {
            (Some(before), Some(h)) => Some(before + h),
            _ => None,
        },
{
    assert(obstacles.take(k + 1).drop_last() =~= obstacles.take(k));
    assert(obstacles.take(k + 1).last() == obstacles[k]);
}

} // verus!
