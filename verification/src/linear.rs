//! The one piece of linear algebra that the formulation needs.

use vstd::prelude::*;

verus! {

/// Whether `v` fits in 128 signed bits.
pub open spec fn fits_wide(v: int) -> bool {
    i128::MIN <= v <= i128::MAX
}

/// Multiplies the transpose of a two-by-two matrix, given by its rows, with a
/// vector.
///
/// The product is `Matrix::tr_mul` of nalgebra on a `Matrix2` and a `Vector2`
/// of 128-bit integers. For two rows it takes each column of the matrix,
/// multiplies it entry by entry with the vector and adds the two products;
/// the contract claims exactly those sums, for operands whose products and
/// sums fit in 128 bits.
#[verifier::external_body]
pub(crate) fn transpose_times(
    m00: i128,
    m01: i128,
    m10: i128,
    m11: i128,
    d0: i128,
    d1: i128,
) -> (r: (i128, i128))
    requires
        fits_wide(m00 * d0),
        fits_wide(m10 * d1),
        fits_wide(m00 * d0 + m10 * d1),
        fits_wide(m01 * d0),
        fits_wide(m11 * d1),
        fits_wide(m01 * d0 + m11 * d1),
    ensures
        r.0 == m00 * d0 + m10 * d1,
        r.1 == m01 * d0 + m11 * d1,
{
    let m = nalgebra::Matrix2::new(m00, m01, m10, m11);
    let d = nalgebra::Vector2::new(d0, d1);
    let product = m.tr_mul(&d);
    (product[(0, 0)], product[(1, 0)])
}

} // verus!
