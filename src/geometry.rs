//! Points, grid cells and the map from one to the other.
use vstd::prelude::*;
use vstd::arithmetic::div_mod::{lemma_fundamental_div_mod, lemma_mod_bound};

verus! {

/// A position in fixed-point world units.
///
/// Coordinates are integers so that cell membership and overlap tests are
/// exact; the caller picks the unit (a pixel, a tenth of a pixel, ...).
#[derive(Clone, Copy, Debug, PartialEq, Eq, Structural)]
pub struct Point {
    pub x: i32,
    pub y: i32,
}

/// The key of one square cell of the grid: the cell `(x, y)` covers the
/// points `p` with `x * size <= p.x < (x + 1) * size`, and likewise for `y`.
#[derive(Clone, Copy, Debug, PartialEq, Eq, Structural)]
pub struct CellKey {
    pub x: i64,
    pub y: i64,
}

/// `floor(a / size)`: for a positive divisor Verus's `/` on `int` is the
/// floor division.
pub open spec fn floor_div(a: int, size: int) -> int {
    a / size
}

/// The cell that holds `p` in a grid of cells of side `size`.
pub open spec fn spec_cell_of(p: Point, size: int) -> CellKey {
    CellKey { x: floor_div(p.x as int, size) as i64, y: floor_div(p.y as int, size) as i64 }
}

/// Two cells are neighbours (or equal) when they differ by at most one on
/// each axis: `b` lies in the 3x3 block centred on `a`.
pub open spec fn adjacent(a: CellKey, b: CellKey) -> bool {
    -1 <= a.x - b.x <= 1 && -1 <= a.y - b.y <= 1
}

pub proof fn lemma_floor_div_bounds(a: int, size: int)
    requires
        size > 0,
        i32::MIN <= a <= i32::MAX,
    ensures
        i32::MIN <= floor_div(a, size) <= i32::MAX,
        floor_div(a, size) * size <= a < floor_div(a, size) * size + size,
{
    let q = a / size;
    let r = a % size;
    lemma_fundamental_div_mod(a, size);
    lemma_mod_bound(a, size);
    assert(a == size * q + r && 0 <= r < size);
    assert(i32::MIN <= q <= i32::MAX) by (nonlinear_arith)
        requires
            a == size * q + r,
            0 <= r < size,
            size >= 1,
            i32::MIN <= a <= i32::MAX,
    ;
}

/// Coordinates less than `size` apart fall in the same or in neighbouring
/// cells along that axis.
pub proof fn lemma_close_coordinates_adjacent_cells(a: int, b: int, size: int)
    requires
        size > 0,
        -size < a - b < size,
    ensures
        -1 <= floor_div(a, size) - floor_div(b, size) <= 1,
{
    let qa = a / size;
    let qb = b / size;
    lemma_fundamental_div_mod(a, size);
    lemma_mod_bound(a, size);
    lemma_fundamental_div_mod(b, size);
    lemma_mod_bound(b, size);
    let ra = a % size;
    let rb = b % size;
    assert(-1 <= qa - qb <= 1) by (nonlinear_arith)
        requires
            a == size * qa + ra,
            b == size * qb + rb,
            0 <= ra < size,
            0 <= rb < size,
            -size < a - b < size,
            size > 0,
    ;
}

fn floor_div_i32(a: i32, size: u32) -> (q: i64)
    requires
        size > 0,
    ensures
        q == floor_div(a as int, size as int),
        i32::MIN <= q <= i32::MAX,
{
    proof {
        lemma_floor_div_bounds(a as int, size as int);
    }
    let r = (a as i64).checked_div_euclid(size as i64);
    match r {
        Some(q) => q,
        None => 0,
    }
}

/// The cell of side `size` that holds `p`: `(floor(p.x / size), floor(p.y / size))`.
pub fn cell_of(p: Point, size: u32) -> (c: CellKey)
    requires
        size > 0,
    ensures
        c == spec_cell_of(p, size as int),
        i32::MIN <= c.x <= i32::MAX,
        i32::MIN <= c.y <= i32::MAX,
        c.x * size <= p.x < c.x * size + size,
        c.y * size <= p.y < c.y * size + size,
{
    proof {
        lemma_floor_div_bounds(p.x as int, size as int);
        lemma_floor_div_bounds(p.y as int, size as int);
    }
    CellKey { x: floor_div_i32(p.x, size), y: floor_div_i32(p.y, size) }
}

} // verus!
