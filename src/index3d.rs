//! Linearisation of three-dimensional coordinates inside a box.
//!
//! The first axis varies fastest, then the second, then the third. A cube of
//! side `s` is the box `(s, s, s)`.
use vstd::arithmetic::div_mod::{lemma_div_denominator, lemma_fundamental_div_mod_converse};
use vstd::prelude::*;

verus! {

/// Linear offset of `c` inside a box of extents `dims`.
pub open spec fn linear_index(c: (int, int, int), dims: (int, int, int)) -> int {
    c.0 + c.1 * dims.0 + c.2 * (dims.0 * dims.1)
}

/// The coordinate whose linear offset inside a box of extents `dims` is `i`.
pub open spec fn box_coords(i: int, dims: (int, int, int)) -> (int, int, int) {
    (i % dims.0, (i / dims.0) % dims.1, i / (dims.0 * dims.1))
}

/// Whether `c` lies inside the box of extents `dims`.
pub open spec fn in_box(c: (int, int, int), dims: (int, int, int)) -> bool {
    &&& 0 <= c.0 < dims.0
    &&& 0 <= c.1 < dims.1
    &&& 0 <= c.2 < dims.2
}

/// Number of cells of a box of extents `dims`.
pub open spec fn box_volume(dims: (int, int, int)) -> int {
    dims.0 * dims.1 * dims.2
}

/// Extents have to be positive.
pub open spec fn valid_dims(dims: (int, int, int)) -> bool {
    dims.0 > 0 && dims.1 > 0 && dims.2 > 0
}

/// The coordinate triple of an array of three `usize`.
pub open spec fn triple(c: [usize; 3]) -> (int, int, int) {
    (c[0] as int, c[1] as int, c[2] as int)
}

/// The cube of side `side`, as box extents.
pub open spec fn cube(side: int) -> (int, int, int) {
    (side, side, side)
}

/// Linear offset of `c` inside a cube of side `side`.
pub open spec fn index_of(c: [usize; 3], side: int) -> int {
    linear_index(triple(c), cube(side))
}

/// Whether `c` lies inside a cube of side `side`.
pub open spec fn in_cube(c: [usize; 3], side: int) -> bool {
    in_box(triple(c), cube(side))
}

/// Every coordinate of a box lands on an offset inside the box, and turning
/// that offset back into a coordinate gives the coordinate again.
pub proof fn lemma_box_coords_of_index(c: (int, int, int), dims: (int, int, int))
    requires
        valid_dims(dims),
        in_box(c, dims),
    ensures
        0 <= linear_index(c, dims) < box_volume(dims),
        box_coords(linear_index(c, dims), dims) == c,
{
    let i = linear_index(c, dims);
    let q = c.1 + c.2 * dims.1;
    assert(i == q * dims.0 + c.0) by (nonlinear_arith)
        requires
            i == c.0 + c.1 * dims.0 + c.2 * (dims.0 * dims.1),
            q == c.1 + c.2 * dims.1,
    ;
    lemma_fundamental_div_mod_converse(i, dims.0, q, c.0);
    lemma_fundamental_div_mod_converse(q, dims.1, c.2, c.1);
    assert(0 <= q) by (nonlinear_arith)
        requires
            q == c.1 + c.2 * dims.1,
            0 <= c.1,
            0 <= c.2,
            0 < dims.1,
    ;
    assert(0 <= i) by (nonlinear_arith)
        requires
            i == q * dims.0 + c.0,
            0 <= q,
            0 <= c.0,
            0 < dims.0,
    ;
    lemma_div_denominator(i, dims.0, dims.1);
    assert(i < box_volume(dims)) by (nonlinear_arith)
        requires
            i == c.0 + c.1 * dims.0 + c.2 * (dims.0 * dims.1),
            in_box(c, dims),
            valid_dims(dims),
    ;
}

/// Every offset inside a box is the offset of exactly the coordinate that
/// `box_coords` gives for it, and that coordinate lies inside the box.
pub proof fn lemma_box_index_of_coords(i: int, dims: (int, int, int))
    requires
        valid_dims(dims),
        0 <= i < box_volume(dims),
    ensures
        in_box(box_coords(i, dims), dims),
        linear_index(box_coords(i, dims), dims) == i,
{
    let c = box_coords(i, dims);
    let q = i / dims.0;
    lemma_div_denominator(i, dims.0, dims.1);
    assert(i == dims.0 * q + i % dims.0) by (nonlinear_arith)
        requires
            dims.0 > 0,
            q == i / dims.0,
    ;
    assert(q == dims.1 * (q / dims.1) + q % dims.1) by (nonlinear_arith)
        requires
            dims.1 > 0,
    ;
    assert(0 <= q) by (nonlinear_arith)
        requires
            0 <= i,
            dims.0 > 0,
            q == i / dims.0,
    ;
    assert(q / dims.1 < dims.2) by (nonlinear_arith)
        requires
            0 <= i < dims.0 * dims.1 * dims.2,
            valid_dims(dims),
            q / dims.1 == i / (dims.0 * dims.1),
    ;
    assert(0 <= q / dims.1) by (nonlinear_arith)
        requires
            0 <= q,
            dims.1 > 0,
    ;
    assert(linear_index(c, dims) == i) by (nonlinear_arith)
        requires
            c == (i % dims.0, q % dims.1, q / dims.1),
            i == dims.0 * q + i % dims.0,
            q == dims.1 * (q / dims.1) + q % dims.1,
    ;
}

/// Two coordinates of a box with the same offset are the same coordinate.
pub proof fn lemma_linear_index_injective(a: (int, int, int), b: (int, int, int), dims: (int, int, int))
    requires
        valid_dims(dims),
        in_box(a, dims),
        in_box(b, dims),
        linear_index(a, dims) == linear_index(b, dims),
    ensures
        a == b,
{
    lemma_box_coords_of_index(a, dims);
    lemma_box_coords_of_index(b, dims);
}

/// On a cube of any positive side, turning a coordinate into an offset and
/// back gives the coordinate again.
pub proof fn lemma_cube_round_trip(c: [usize; 3], side: int)
    requires
        side > 0,
        in_cube(c, side),
    ensures
        0 <= index_of(c, side) < side * side * side,
        box_coords(index_of(c, side), cube(side)) == triple(c),
{
    lemma_box_coords_of_index(triple(c), cube(side));
}

} // verus!
