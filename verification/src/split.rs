//! Where the long edge of a triangle crosses the height of its middle vertex.

use vstd::prelude::*;
use crate::dyadic::{
    dyadic_add, dyadic_div, dyadic_mul, dyadic_trunc, int_to_dyadic, saturated, Binary,
};
use crate::Vertex;

verus! {

/// The column at which the edge from `v0` to `v2` crosses the row of `v1`:
///
/// `v0.x + (v1.y - v0.y) / (v2.y - v0.y) * (v2.x - v0.x)`
///
/// worked out in double precision. The column of `v0` and the three
/// differences are converted to double precision, the quotient, the product
/// and the sum are each rounded to double precision, and the sum is cut to an
/// integer by dropping what follows the point. A sum beyond the range of
/// `isize` gives the end of the range.
pub open spec fn split_x(v0: Vertex, v1: Vertex, v2: Vertex) -> int {
    let start = int_to_dyadic(v0.x as int);
    let rise = int_to_dyadic(v1.y - v0.y);
    let height = int_to_dyadic(v2.y - v0.y);
    let run = int_to_dyadic(v2.x - v0.x);
    saturated(dyadic_trunc(dyadic_add(start, dyadic_mul(dyadic_div(rise, height), run))))
}

/// Computes the column at which the edge from `v0` to `v2` crosses the row
/// of `v1`, for three vertices in strictly ascending rows.
pub fn split_abscissa(v0: Vertex, v1: Vertex, v2: Vertex) -> (x: isize)
    requires
        v0.y < v1.y < v2.y,
    ensures
        x == split_x(v0, v1, v2),
{
    let start = Binary::from_int(v0.x as i128);
    let rise = Binary::from_int(v1.y as i128 - v0.y as i128);
    let height = Binary::from_int(v2.y as i128 - v0.y as i128);
    let run = Binary::from_int(v2.x as i128 - v0.x as i128);
    start.add(rise.div(height).mul(run)).trunc_to_isize()
}

} // verus!
