//! Cell indexing on the cubic grid of resolution `n` over [0,1]³.
//!
//! Cell `(x, y, z)` is stored at the flat index `z·n² + y·n + x`; the grid
//! has `n³` cells. Each cell has up to six face neighbours, enumerated in the
//! fixed order −x, +x, −y, +y, −z, +z.
use vstd::prelude::*;
use vstd::arithmetic::div_mod::{
    lemma_fundamental_div_mod,
    lemma_fundamental_div_mod_converse,
    lemma_div_denominator,
    lemma_mod_pos_bound,
    lemma_div_pos_is_pos,
    lemma_multiply_divide_lt,
};

verus! {

/// A resolution the grid can be built with: at least one cell per axis, and
/// a cell count that fits in `usize`.
pub open spec fn valid_resolution(n: int) -> bool {
    1 <= n && n * n * n <= usize::MAX
}

/// Number of cells of a grid of resolution `n`.
pub open spec fn cell_count(n: int) -> int {
    n * n * n
}

/// Whether `(x, y, z)` names a cell of the grid.
pub open spec fn in_grid(n: int, x: int, y: int, z: int) -> bool {
    0 <= x < n && 0 <= y < n && 0 <= z < n
}

/// Flat index of cell `(x, y, z)`.
pub open spec fn flat_index(n: int, x: int, y: int, z: int) -> int {
    z * n * n + y * n + x
}

/// Coordinates of the cell stored at flat index `i`.
pub open spec fn coords_of(n: int, i: int) -> (int, int, int) {
    (i % n, (i / n) % n, i / (n * n))
}

/// The largest coordinate a value is clamped to on each axis.
pub open spec fn clamp_to_grid(n: int, v: int) -> int {
    if v < n - 1 {
        v
    } else {
        n - 1
    }
}

/// Unit step of face direction `d` (0..6 in the order −x, +x, −y, +y, −z, +z).
pub open spec fn direction(d: int) -> (int, int, int) {
    if d == 0 {
        (-1, 0, 0)
    } else if d == 1 {
        (1, 0, 0)
    } else if d == 2 {
        (0, -1, 0)
    } else if d == 3 {
        (0, 1, 0)
    } else if d == 4 {
        (0, 0, -1)
    } else {
        (0, 0, 1)
    }
}

/// The neighbour of `(x, y, z)` one step along face direction `d`, if that
/// step stays inside the grid.
pub open spec fn face_step(n: int, x: int, y: int, z: int, d: int) -> Option<(int, int, int)> {
    let (dx, dy, dz) = direction(d);
    if in_grid(n, x + dx, y + dy, z + dz) {
        Some((x + dx, y + dy, z + dz))
    } else {
        None
    }
}

/// Flat indices of grid cells lie in `0..n³`.
pub proof fn lemma_flat_index_bounds(n: int, x: int, y: int, z: int)
    requires
        in_grid(n, x, y, z),
    ensures
        0 <= y * n < n * n,
        0 <= z * n * n <= (n - 1) * n * n,
        0 <= flat_index(n, x, y, z) < cell_count(n),
{
    assert(0 <= y * n <= n * n - n) by (nonlinear_arith)
        requires
            0 <= y < n,
    ;
    assert(0 <= z * n * n <= (n - 1) * n * n) by (nonlinear_arith)
        requires
            0 <= z < n,
    ;
    assert((n - 1) * n * n + n * n == n * n * n) by (nonlinear_arith);
}

/// Reading back the coordinates of a cell's flat index gives the cell.
pub proof fn lemma_coords_of_flat_index(n: int, x: int, y: int, z: int)
    requires
        in_grid(n, x, y, z),
    ensures
        coords_of(n, flat_index(n, x, y, z)) == (x, y, z),
{
    let i = flat_index(n, x, y, z);
    let q = z * n + y;
    assert(i == q * n + x) by (nonlinear_arith)
        requires
            i == z * n * n + y * n + x,
            q == z * n + y,
    ;
    lemma_fundamental_div_mod_converse(i, n, q, x);
    lemma_fundamental_div_mod_converse(q, n, z, y);
    assert(0 <= q) by (nonlinear_arith)
        requires
            0 <= z,
            0 <= y,
            0 < n,
            q == z * n + y,
    ;
    assert(0 <= i) by (nonlinear_arith)
        requires
            0 <= q,
            0 <= x,
            0 < n,
            i == q * n + x,
    ;
    lemma_div_denominator(i, n, n);
}

/// Every flat index below `n³` names a grid cell, and its coordinates map
/// back to it.
pub proof fn lemma_flat_index_of_coords(n: int, i: int)
    requires
        1 <= n,
        0 <= i < cell_count(n),
    ensures
        in_grid(n, coords_of(n, i).0, coords_of(n, i).1, coords_of(n, i).2),
        flat_index(n, coords_of(n, i).0, coords_of(n, i).1, coords_of(n, i).2) == i,
{
    let x = i % n;
    let q = i / n;
    let y = q % n;
    let z = q / n;
    lemma_fundamental_div_mod(i, n);
    lemma_mod_pos_bound(i, n);
    lemma_div_pos_is_pos(i, n);
    lemma_fundamental_div_mod(q, n);
    lemma_mod_pos_bound(q, n);
    lemma_div_pos_is_pos(q, n);
    lemma_div_denominator(i, n, n);
    assert(i < n * (n * n)) by (nonlinear_arith)
        requires
            i < n * n * n,
    ;
    lemma_multiply_divide_lt(i, n, n * n);
    lemma_multiply_divide_lt(q, n, n);
    assert(flat_index(n, x, y, z) == i) by (nonlinear_arith)
        requires
            i == n * q + x,
            q == n * z + y,
    ;
}

/// Flat index of cell `(x, y, z)`.
pub fn cell_index(n: usize, x: usize, y: usize, z: usize) -> (i: usize)
    requires
        valid_resolution(n as int),
        in_grid(n as int, x as int, y as int, z as int),
    ensures
        i == flat_index(n as int, x as int, y as int, z as int),
        i < cell_count(n as int),
{
    proof {
        lemma_flat_index_bounds(n as int, x as int, y as int, z as int);
        assert(z * n <= n * n) by (nonlinear_arith)
            requires
                z < n,
        ;
        assert(n * n <= n * n * n) by (nonlinear_arith)
            requires
                1 <= n,
        ;
    }
    z * n * n + y * n + x
}

/// Coordinates `(x, y, z)` of the cell at flat index `i`.
pub fn cell_coords(n: usize, i: usize) -> (c: (usize, usize, usize))
    requires
        valid_resolution(n as int),
        i < cell_count(n as int),
    ensures
        (c.0 as int, c.1 as int, c.2 as int) == coords_of(n as int, i as int),
        in_grid(n as int, c.0 as int, c.1 as int, c.2 as int),
{
    proof {
        lemma_flat_index_of_coords(n as int, i as int);
        assert(n * n <= n * n * n) by (nonlinear_arith)
            requires
                1 <= n,
        ;
    }
    (i % n, (i / n) % n, i / (n * n))
}

/// The cell containing grid coordinates `(x, y, z)`, each clamped to the
/// last cell of its axis (coordinates past the far face land in the last
/// layer of cells).
pub fn clamped_cell(n: usize, x: usize, y: usize, z: usize) -> (i: usize)
    requires
        valid_resolution(n as int),
    ensures
        i == flat_index(
            n as int,
            clamp_to_grid(n as int, x as int),
            clamp_to_grid(n as int, y as int),
            clamp_to_grid(n as int, z as int),
        ),
        i < cell_count(n as int),
{
    let last = n - 1;
    let cx = if x < last {
        x
    } else {
        last
    };
    let cy = if y < last {
        y
    } else {
        last
    };
    let cz = if z < last {
        z
    } else {
        last
    };
    cell_index(n, cx, cy, cz)
}

/// Unit step of face direction `d`, in the order −x, +x, −y, +y, −z, +z.
pub fn face_direction(d: usize) -> (r: (isize, isize, isize))
    requires
        d < 6,
    ensures
        (r.0 as int, r.1 as int, r.2 as int) == direction(d as int),
{
    if d == 0 {
        (-1, 0, 0)
    } else if d == 1 {
        (1, 0, 0)
    } else if d == 2 {
        (0, -1, 0)
    } else if d == 3 {
        (0, 1, 0)
    } else if d == 4 {
        (0, 0, -1)
    } else {
        (0, 0, 1)
    }
}

/// The face neighbour of cell `(x, y, z)` in direction `d`, or `None` where
/// that step leaves the grid.
pub fn face_neighbour(n: usize, x: usize, y: usize, z: usize, d: usize) -> (r: Option<
    (usize, usize, usize),
>)
    requires
        in_grid(n as int, x as int, y as int, z as int),
        d < 6,
    ensures
        r is None <==> face_step(n as int, x as int, y as int, z as int, d as int) is None,
        r matches Some(c) ==> face_step(n as int, x as int, y as int, z as int, d as int) == Some(
            (c.0 as int, c.1 as int, c.2 as int),
        ),
{
    if d == 0 {
        if x == 0 {
            None
        } else {
            Some((x - 1, y, z))
        }
    } else if d == 1 {
        if x + 1 < n {
            Some((x + 1, y, z))
        } else {
            None
        }
    } else if d == 2 {
        if y == 0 {
            None
        } else {
            Some((x, y - 1, z))
        }
    } else if d == 3 {
        if y + 1 < n {
            Some((x, y + 1, z))
        } else {
            None
        }
    } else if d == 4 {
        if z == 0 {
            None
        } else {
            Some((x, y, z - 1))
        }
    } else {
        if z + 1 < n {
            Some((x, y, z + 1))
        } else {
            None
        }
    }
}

/// The two cells a finite-difference gradient reads along one axis, and
/// whether their difference is halved.
pub struct Stencil {
    pub upper: usize,
    pub lower: usize,
    pub halved: bool,
}

/// The stencil along one axis at coordinate `g`: a one-sided difference
/// `(g+1, g)` on the near face, `(g, g-1)` on the far face, and a halved
/// central difference `(g+1, g-1)` inside.
pub fn gradient_stencil(g: usize, n: usize) -> (s: Stencil)
    requires
        2 <= n,
        g < n,
    ensures
        g == 0 ==> s.upper == 1 && s.lower == 0 && !s.halved,
        g != 0 && g == n - 1 ==> s.upper == g && s.lower == g - 1 && !s.halved,
        g != 0 && g != n - 1 ==> s.upper == g + 1 && s.lower == g - 1 && s.halved,
        s.upper < n,
        s.lower < n,
{
    if g == 0 {
        Stencil { upper: 1, lower: 0, halved: false }
    } else if g == n - 1 {
        Stencil { upper: g, lower: g - 1, halved: false }
    } else {
        Stencil { upper: g + 1, lower: g - 1, halved: true }
    }
}

} // verus!
