//! Fixed-point scalars: the scale, the rounding rule and the square root.

use vstd::prelude::*;

verus! {

/// The raw value that stands for the number one.
pub const ONE: i64 = 1_000_000_000_000;

/// The perturbation used for forward differences: one millionth.
pub const STEP: i64 = 1_000_000;

/// What can go wrong while a step of the plan is formulated or solved.
#[derive(Clone, Copy, Debug, PartialEq, Eq, Structural)]
pub enum PlanError {
    /// A vector does not have the length that the problem fixes.
    DimensionMismatch,
    /// A value that had to be computed cannot be represented.
    NumericalFailure,
    /// The solver gave up on a step.
    SolverNonConvergence,
}

/// Whether `v` fits in a fixed-point scalar.
pub open spec fn representable(v: int) -> bool {
    i64::MIN <= v <= i64::MAX
}

/// `n / d` rounded up, for `n >= 0` and `d > 0`.
pub open spec fn div_up(n: int, d: int) -> int {
    (n + d - 1) / d
}

/// `n / d` rounded away from zero, for `d > 0`.
pub open spec fn div_away(n: int, d: int) -> int {
    if n >= 0 {
        div_up(n, d)
    } else {
        -div_up(-n, d)
    }
}

/// A value at scale `ONE * ONE` brought back to scale `ONE`.
pub open spec fn rescaled(n: int) -> int {
    div_away(n, ONE as int)
}

/// `r` is the least natural number whose square reaches `n`.
pub open spec fn is_ceil_sqrt(n: int, r: int) -> bool {
    &&& r >= 0
    &&& r * r >= n
    &&& (r == 0 || (r - 1) * (r - 1) < n)
}

/// The square root of `n`, rounded up.
pub open spec fn ceil_sqrt(n: int) -> int {
    choose|r: int| is_ceil_sqrt(n, r)
}

/// Two numbers that are both the rounded-up root of `n` are the same number.
pub proof fn lemma_ceil_sqrt_unique(n: int, r: int, s: int)
    requires
        is_ceil_sqrt(n, r),
        is_ceil_sqrt(n, s),
    ensures
        r == s,
{
    if r < s {
        assert(r * r <= (s - 1) * (s - 1)) by (nonlinear_arith)
            requires
                0 <= r <= s - 1,
        ;
    } else if s < r {
        assert(s * s <= (r - 1) * (r - 1)) by (nonlinear_arith)
            requires
                0 <= s <= r - 1,
        ;
    }
}

/// The rounded-up root is the number that `is_ceil_sqrt` singles out.
pub proof fn lemma_ceil_sqrt_is(n: int, r: int)
    requires
        is_ceil_sqrt(n, r),
    ensures
        ceil_sqrt(n) == r,
{
    let c = ceil_sqrt(n);
    assert(is_ceil_sqrt(n, c));
    lemma_ceil_sqrt_unique(n, r, c);
}

/// Every natural number has a rounded-up root.
pub proof fn lemma_ceil_sqrt_exists(n: int)
    requires
        n >= 0,
    ensures
        is_ceil_sqrt(n, ceil_sqrt(n)),
    decreases n,
{
    if n == 0 {
        assert(is_ceil_sqrt(0, 0));
    } else {
        lemma_ceil_sqrt_exists(n - 1);
        let below = ceil_sqrt(n - 1);
        if below * below >= n {
            assert(is_ceil_sqrt(n, below));
        } else {
            assert((below + 1) * (below + 1) >= n && (below + 1 - 1) * (below + 1 - 1) < n)
                by (nonlinear_arith)
                requires
                    below >= 0,
                    below * below >= n - 1,
                    below * below < n,
            ;
            assert(is_ceil_sqrt(n, below + 1));
        }
    }
}

/// Rounding up keeps the order of what is divided.
pub proof fn lemma_div_up_monotonic(a: int, b: int, d: int)
    requires
        a <= b,
        d > 0,
    ensures
        div_up(a, d) <= div_up(b, d),
{
    vstd::arithmetic::div_mod::lemma_div_is_ordered(a + d - 1, b + d - 1, d);
}

/// Computes the square root of `n`, rounded up, by bisection.
pub fn ceil_sqrt_u128(n: u128) -> (r: u128)
    ensures
        r == ceil_sqrt(n as int),
        is_ceil_sqrt(n as int, r as int),
        r <= 0x1_0000_0000_0000_0000,
{
    if n == 0 {
        proof {
            lemma_ceil_sqrt_is(0, 0);
        }
        return 0;
    }
    let mut lo: u128 = 0;
    let mut hi: u128 = 0x1_0000_0000_0000_0000;
    assert(hi * hi >= n) by (nonlinear_arith)
        requires
            hi == 0x1_0000_0000_0000_0000,
            n <= u128::MAX,
    ;
    while hi - lo > 1
        invariant
            lo < hi <= 0x1_0000_0000_0000_0000,
            lo * lo < n,
            hi * hi >= n,
        decreases hi - lo,
    {
        let mid: u128 = lo + (hi - lo) / 2;
        assert(mid * mid <= 0xffff_ffff_ffff_ffff * 0xffff_ffff_ffff_ffff) by (nonlinear_arith)
            requires
                0 <= mid <= 0xffff_ffff_ffff_ffff,
        ;
        let sq: u128 = mid * mid;
        if sq < n {
            lo = mid;
        } else {
            hi = mid;
        }
    }
    proof {
        assert(hi - 1 == lo);
        lemma_ceil_sqrt_is(n as int, hi as int);
    }
    hi
}

/// Computes `n / d` rounded up.
pub fn div_up_u128(n: u128, d: u128) -> (r: u128)
    requires
        d > 0,
    ensures
        r == div_up(n as int, d as int),
{
    let q: u128 = n / d;
    let m: u128 = n % d;
    proof {
        vstd::arithmetic::div_mod::lemma_fundamental_div_mod(n as int, d as int);
        assert(n == q * d + m) by (nonlinear_arith)
            requires
                n == d * q + m,
        ;
        lemma_div_up_parts(n as int, d as int, q as int, m as int);
        if m != 0 {
            assert(q < u128::MAX) by (nonlinear_arith)
                requires
                    q * d + m == n,
                    n <= u128::MAX,
                    0 < m < d,
                    q >= 0,
            ;
        }
    }
    if m == 0 {
        q
    } else {
        q + 1
    }
}

/// Rounding up adds one to the quotient exactly when something is left over.
pub proof fn lemma_div_up_parts(n: int, d: int, q: int, m: int)
    requires
        d > 0,
        0 <= m < d,
        n == q * d + m,
    ensures
        n / d == q,
        n % d == m,
        div_up(n, d) == if m == 0 { q } else { q + 1 },
{
    vstd::arithmetic::div_mod::lemma_fundamental_div_mod_converse(n, d, q, m);
    if m == 0 {
        assert(n + d - 1 == q * d + (d - 1));
        vstd::arithmetic::div_mod::lemma_fundamental_div_mod_converse(n + d - 1, d, q, d - 1);
    } else {
        assert(n + d - 1 == (q + 1) * d + (m - 1)) by (nonlinear_arith)
            requires
                n == q * d + m,
        ;
        vstd::arithmetic::div_mod::lemma_fundamental_div_mod_converse(n + d - 1, d, q + 1, m - 1);
    }
}

/// The size of `n`, as an unsigned number.
pub fn magnitude(n: i128) -> (r: u128)
    ensures
        r == if n >= 0 { n as int } else { -(n as int) },
{
    if n >= 0 {
        n as u128
    } else {
        let m: i128 = -(n + 1);
        (m as u128) + 1
    }
}

/// Computes `n / d` rounded away from zero.
pub fn div_away_i128(n: i128, d: u128) -> (r: i128)
    requires
        d > 0,
    ensures
        r == div_away(n as int, d as int),
{
    let mag: u128 = magnitude(n);
    let q: u128 = div_up_u128(mag, d);
    proof {
        lemma_div_up_bound(mag as int, d as int);
    }
    if n >= 0 {
        q as i128
    } else if q == 0x8000_0000_0000_0000_0000_0000_0000_0000 {
        i128::MIN
    } else {
        -(q as i128)
    }
}

/// Rounding up never lifts a quotient above what was divided.
pub proof fn lemma_div_up_bound(n: int, d: int)
    requires
        n >= 0,
        d > 0,
    ensures
        0 <= div_up(n, d) <= n,
        n > 0 ==> div_up(n, d) > 0,
        n == 0 ==> div_up(n, d) == 0,
{
    let q = n / d;
    let m = n % d;
    vstd::arithmetic::div_mod::lemma_fundamental_div_mod(n, d);
    vstd::arithmetic::div_mod::lemma_mod_bound(n, d);
    assert(n == q * d + m) by (nonlinear_arith)
        requires
            n == d * q + m,
    ;
    lemma_div_up_parts(n, d, q, m);
    assert(q >= 0 && (m != 0 ==> q + 1 <= n) && q <= n && (m == 0 && n > 0 ==> q >= 1))
        by (nonlinear_arith)
        requires
            n == q * d + m,
            0 <= m < d,
            n >= 0,
            d > 0,
    ;
}

/// Dividing a multiple of `d` by `d` gives back the factor, without rounding.
pub proof fn lemma_div_away_exact(x: int, d: int)
    requires
        d > 0,
    ensures
        div_away(x * d, d) == x,
{
    if x >= 0 {
        assert(x * d >= 0) by (nonlinear_arith)
            requires
                x >= 0,
                d > 0,
        ;
        assert(x * d == x * d + 0);
        lemma_div_up_parts(x * d, d, x, 0);
    } else {
        assert(x * d < 0 && -(x * d) == (-x) * d) by (nonlinear_arith)
            requires
                x < 0,
                d > 0,
        ;
        lemma_div_up_parts((-x) * d, d, -x, 0);
    }
}

/// Rounding up overshoots by less than the divisor.
pub proof fn lemma_div_up_bracket(n: int, d: int)
    requires
        n >= 0,
        d > 0,
    ensures
        n <= div_up(n, d) * d < n + d,
{
    let q = n / d;
    let m = n % d;
    vstd::arithmetic::div_mod::lemma_fundamental_div_mod(n, d);
    vstd::arithmetic::div_mod::lemma_mod_bound(n, d);
    assert(n == q * d + m) by (nonlinear_arith)
        requires
            n == d * q + m,
    ;
    lemma_div_up_parts(n, d, q, m);
    assert((q + 1) * d == q * d + d) by (nonlinear_arith);
}

/// The product of two scalars stays clear of the ends of 128 bits, and
/// reaches two to the power 126 only where both are the least scalar.
pub proof fn lemma_product_bound(a: int, b: int)
    requires
        i64::MIN <= a <= i64::MAX,
        i64::MIN <= b <= i64::MAX,
    ensures
        -0x4000_0000_0000_0000_0000_0000_0000_0000 < a * b
            <= 0x4000_0000_0000_0000_0000_0000_0000_0000,
        a != i64::MIN || b != i64::MIN ==> a * b
            <= 0x4000_0000_0000_0000_0000_0000_0000_0000 - 0x8000_0000_0000_0000,
{
    let low: int = -0x8000_0000_0000_0000;
    let high: int = 0x7fff_ffff_ffff_ffff;
    assert((a - low) * (b - low) >= 0 && (high - a) * (high - b) >= 0 && (a - low) * (high - b)
        >= 0 && (high - a) * (b - low) >= 0) by (nonlinear_arith)
        requires
            low <= a <= high,
            low <= b <= high,
    ;
    assert((a - low) * (b - low) == a * b - low * a - low * b + low * low) by (nonlinear_arith);
    assert((high - a) * (high - b) == a * b - high * a - high * b + high * high)
        by (nonlinear_arith);
    assert((a - low) * (high - b) == -(a * b) + high * a + low * b - low * high)
        by (nonlinear_arith);
    assert((high - a) * (b - low) == -(a * b) + low * a + high * b - low * high)
        by (nonlinear_arith);
    if a != low || b != low {
        if a >= 0 && b >= 0 {
        } else if a < 0 && b < 0 {
            if a == low {
                assert(a * b == low * b) by (nonlinear_arith)
                    requires
                        a == low,
                ;
            } else if b == low {
                assert(a * b == low * a) by (nonlinear_arith)
                    requires
                        b == low,
                ;
            } else {
                assert(a * b <= (low + 1) * (low + 1)) by (nonlinear_arith)
                    requires
                        low + 1 <= a < 0,
                        low + 1 <= b < 0,
                ;
            }
        } else {
            assert(a * b <= 0) by (nonlinear_arith)
                requires
                    (a >= 0 && b < 0) || (a < 0 && b >= 0),
            ;
        }
    }
}

/// The largest divisor that `scaled_ratio_up` accepts: two to the power 126.
pub const RATIO_DIVISOR_MAX: u128 = 0x4000_0000_0000_0000_0000_0000_0000_0000;

/// `m` is one of the powers of ten from one up to `ONE`.
pub open spec fn is_power_of_ten(m: int) -> bool {
    ||| m == 1
    ||| m == 10
    ||| m == 100
    ||| m == 1_000
    ||| m == 10_000
    ||| m == 100_000
    ||| m == 1_000_000
    ||| m == 10_000_000
    ||| m == 100_000_000
    ||| m == 1_000_000_000
    ||| m == 10_000_000_000
    ||| m == 100_000_000_000
    ||| m == 1_000_000_000_000
}

/// Doubles a quotient and remainder of a division by `d`.
fn ratio_double(q: u128, r: u128, d: u128) -> (out: (u128, u128))
    requires
        r < d <= RATIO_DIVISOR_MAX,
        q <= 0xffff_ffff_ffff_ffff,
    ensures
        out.0 * d + out.1 == 2 * (q * d + r),
        out.1 < d,
{
    let twice: u128 = r + r;
    if twice >= d {
        assert((2 * q + 1) * d + (twice - d) == 2 * (q * d + r)) by (nonlinear_arith)
            requires
                twice == r + r,
        ;
        (2 * q + 1, twice - d)
    } else {
        assert((2 * q) * d + twice == 2 * (q * d + r)) by (nonlinear_arith)
            requires
                twice == r + r,
        ;
        (2 * q, twice)
    }
}

/// Adds two quotients and remainders of divisions by `d`.
fn ratio_sum(q1: u128, r1: u128, q2: u128, r2: u128, d: u128) -> (out: (u128, u128))
    requires
        r1 < d <= RATIO_DIVISOR_MAX,
        r2 < d,
        q1 <= 0xffff_ffff_ffff_ffff,
        q2 <= 0xffff_ffff_ffff_ffff,
    ensures
        out.0 * d + out.1 == (q1 * d + r1) + (q2 * d + r2),
        out.1 < d,
{
    let both: u128 = r1 + r2;
    if both >= d {
        assert((q1 + q2 + 1) * d + (both - d) == (q1 * d + r1) + (q2 * d + r2))
            by (nonlinear_arith)
            requires
                both == r1 + r2,
        ;
        (q1 + q2 + 1, both - d)
    } else {
        assert((q1 + q2) * d + both == (q1 * d + r1) + (q2 * d + r2)) by (nonlinear_arith)
            requires
                both == r1 + r2,
        ;
        (q1 + q2, both)
    }
}

/// A quotient is at most the multiplier when the numerator is at most the divisor.
proof fn lemma_ratio_quotient_bound(q: int, r: int, n: int, d: int, m: int)
    requires
        q * d + r == n * m,
        0 <= r,
        0 <= n <= d,
        0 < d,
        0 <= m,
        0 <= q,
    ensures
        q <= m,
{
    assert(q <= m) by (nonlinear_arith)
        requires
            q * d + r == n * m,
            0 <= r,
            0 <= n <= d,
            0 < d,
            0 <= m,
            0 <= q,
    ;
}

/// Computes `n * ONE / d` rounded up, for a part `n` of a whole `d`, without
/// ever forming the product.
pub fn scaled_ratio_up(n: u128, d: u128) -> (r: u128)
    requires
        0 < d <= RATIO_DIVISOR_MAX,
        n <= d,
    ensures
        r == div_up(n * ONE, d as int),
        r <= ONE,
{
    let mut q: u128 = if n == d { 1 } else { 0 };
    let mut rem: u128 = if n == d { 0 } else { n };
    let mut m: u128 = 1;
    assert(q * d + rem == n * m) by (nonlinear_arith)
        requires
            m == 1,
            (q == 1 && rem == 0 && n == d) || (q == 0 && rem == n),
    ;
    while m < 1_000_000_000_000
        invariant
            is_power_of_ten(m as int),
            q * d + rem == n * m,
            rem < d <= RATIO_DIVISOR_MAX,
            n <= d,
        decreases 1_000_000_000_000 - m,
    {
        proof {
            lemma_ratio_quotient_bound(q as int, rem as int, n as int, d as int, m as int);
        }
        let ghost before: int = q * d + rem;
        proof {
            assert(n * (2 * m) == 2 * (n * m) && n * (4 * m) == 4 * (n * m) && n * (5 * m) == 5 * (
            n * m)) by (nonlinear_arith);
        }
        let (q2, r2) = ratio_double(q, rem, d);
        proof {
            lemma_ratio_quotient_bound(q2 as int, r2 as int, n as int, d as int, 2 * m);
        }
        let (q4, r4) = ratio_double(q2, r2, d);
        proof {
            lemma_ratio_quotient_bound(q4 as int, r4 as int, n as int, d as int, 4 * m);
        }
        let (q5, r5) = ratio_sum(q4, r4, q, rem, d);
        proof {
            lemma_ratio_quotient_bound(q5 as int, r5 as int, n as int, d as int, 5 * m);
        }
        let (q10, r10) = ratio_double(q5, r5, d);
        assert(q10 * d + r10 == 10 * before);
        assert(n * (m * 10) == 10 * (n * m)) by (nonlinear_arith);
        q = q10;
        rem = r10;
        m = m * 10;
    }
    proof {
        assert(m == ONE);
        lemma_ratio_quotient_bound(q as int, rem as int, n as int, d as int, m as int);
        lemma_div_up_parts(n * ONE, d as int, q as int, rem as int);
    }
    if rem == 0 {
        q
    } else {
        proof {
            // a remainder is left only when the part is smaller than the whole
            assert(q < m) by (nonlinear_arith)
                requires
                    q * d + rem == n * m,
                    0 < rem,
                    0 <= n <= d,
                    0 < d,
                    0 <= m,
                    0 <= q,
            ;
        }
        q + 1
    }
}

/// Two to the power 64.
pub const LIMB: u128 = 0x1_0000_0000_0000_0000;

/// The number that a high and a low half of 128 bits each stand for.
pub open spec fn wide(hi: u128, lo: u128) -> int {
    hi * (LIMB * LIMB) + lo
}

/// The product of two limbs fits in two limbs.
proof fn lemma_limb_product(a: int, b: int)
    requires
        0 <= a < LIMB,
        0 <= b < LIMB,
    ensures
        0 <= a * b <= (LIMB - 1) * (LIMB - 1),
{
    assert(0 <= a * b <= (LIMB - 1) * (LIMB - 1)) by (nonlinear_arith)
        requires
            0 <= a <= LIMB - 1,
            0 <= b <= LIMB - 1,
    ;
}

/// Splitting at a limb loses nothing.
proof fn lemma_limb_split(v: int)
    requires
        0 <= v,
    ensures
        v == (v / (LIMB as int)) * LIMB + v % (LIMB as int),
        0 <= v % (LIMB as int) < LIMB,
        0 <= v / (LIMB as int),
        v <= (LIMB - 1) * (LIMB - 1) ==> v / (LIMB as int) <= LIMB - 2,
{
    vstd::arithmetic::div_mod::lemma_fundamental_div_mod(v, LIMB as int);
    vstd::arithmetic::div_mod::lemma_mod_bound(v, LIMB as int);
    let q = v / (LIMB as int);
    let m = v % (LIMB as int);
    assert(v == q * LIMB + m) by (nonlinear_arith)
        requires
            v == LIMB * q + m,
    ;
    assert(q >= 0) by (nonlinear_arith)
        requires
            v == q * LIMB + m,
            0 <= m < LIMB,
            v >= 0,
            LIMB > 0,
    ;
    if v <= (LIMB - 1) * (LIMB - 1) {
        assert(q <= LIMB - 2) by (nonlinear_arith)
            requires
                v == q * LIMB + m,
                0 <= m,
                v <= (LIMB - 1) * (LIMB - 1),
                LIMB == 0x1_0000_0000_0000_0000,
        ;
    }
}

/// Computes the product of two numbers of 128 bits in full, as a high and a
/// low half.
pub fn wide_product(a: u128, b: u128) -> (r: (u128, u128))
    ensures
        wide(r.0, r.1) == a * b,
{
    let a1: u128 = a / LIMB;
    let a0: u128 = a % LIMB;
    let b1: u128 = b / LIMB;
    let b0: u128 = b % LIMB;
    proof {
        lemma_limb_split(a as int);
        lemma_limb_split(b as int);
        assert(a1 < LIMB && b1 < LIMB) by (nonlinear_arith)
            requires
                a == a1 * LIMB + a0,
                b == b1 * LIMB + b0,
                0 <= a0,
                0 <= b0,
                a <= u128::MAX,
                b <= u128::MAX,
                LIMB == 0x1_0000_0000_0000_0000,
        ;
        lemma_limb_product(a0 as int, b0 as int);
        lemma_limb_product(a0 as int, b1 as int);
        lemma_limb_product(a1 as int, b0 as int);
        lemma_limb_product(a1 as int, b1 as int);
    }
    let ll: u128 = a0 * b0;
    let lh: u128 = a0 * b1;
    let hl: u128 = a1 * b0;
    let hh: u128 = a1 * b1;
    proof {
        lemma_limb_split(ll as int);
        lemma_limb_split(lh as int);
        lemma_limb_split(hl as int);
    }
    let middle: u128 = ll / LIMB + lh % LIMB + hl % LIMB;
    proof {
        lemma_limb_split(middle as int);
        assert(middle / LIMB <= 2) by (nonlinear_arith)
            requires
                middle == (middle / LIMB) * LIMB + middle % LIMB,
                0 <= middle % LIMB,
                middle <= 3 * (LIMB - 1),
                LIMB == 0x1_0000_0000_0000_0000,
        ;
    }
    let lo: u128 = ll % LIMB + (middle % LIMB) * LIMB;
    let hi: u128 = hh + lh / LIMB + hl / LIMB + middle / LIMB;
    proof {
        let base = LIMB as int;
        let top = hh as int;
        let lh_q = (lh / LIMB) as int;
        let lh_m = (lh % LIMB) as int;
        let hl_q = (hl / LIMB) as int;
        let hl_m = (hl % LIMB) as int;
        let ll_q = (ll / LIMB) as int;
        let ll_m = (ll % LIMB) as int;
        let mid_q = (middle / LIMB) as int;
        let mid_m = (middle % LIMB) as int;
        assert(a * b == top * (base * base) + (lh + hl) * base + ll) by (nonlinear_arith)
            requires
                a == a1 * base + a0,
                b == b1 * base + b0,
                ll == a0 * b0,
                lh == a0 * b1,
                hl == a1 * b0,
                top == a1 * b1,
        ;
        assert((lh + hl) * base + ll == (lh_q + hl_q) * (base * base) + (lh_m + hl_m + ll_q) * base
            + ll_m) by (nonlinear_arith)
            requires
                lh == lh_q * base + lh_m,
                hl == hl_q * base + hl_m,
                ll == ll_q * base + ll_m,
        ;
        assert((lh_m + hl_m + ll_q) * base == mid_q * (base * base) + mid_m * base)
            by (nonlinear_arith)
            requires
                lh_m + hl_m + ll_q == mid_q * base + mid_m,
        ;
        assert((top + lh_q + hl_q + mid_q) * (base * base) == top * (base * base) + (lh_q + hl_q)
            * (base * base) + mid_q * (base * base)) by (nonlinear_arith);
    }
    (hi, lo)
}

/// Decides whether `a * b` is larger than `c * d`.
pub fn product_exceeds(a: u128, b: u128, c: u128, d: u128) -> (r: bool)
    ensures
        r == (a * b > c * d),
{
    let (left_hi, left_lo) = wide_product(a, b);
    let (right_hi, right_lo) = wide_product(c, d);
    proof {
        let span = LIMB * LIMB;
        assert(left_hi > right_hi ==> left_hi * span >= right_hi * span + span) by (nonlinear_arith)
            requires
                span > 0,
        ;
        assert(left_hi < right_hi ==> left_hi * span + span <= right_hi * span)
            by (nonlinear_arith)
            requires
                span > 0,
        ;
    }
    left_hi > right_hi || (left_hi == right_hi && left_lo > right_lo)
}

} // verus!
