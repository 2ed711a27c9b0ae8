use vstd::prelude::*;

use crate::error::ClothError;
use crate::topology::{
    corner, directed_face, distinct, duplicates_earlier, edge_fault, first_triangle_fault,
    has_pair, in_bounds, lemma_faces_on_none, lemma_faces_on_single, mesh_fault, on_triangle, pair_of,
    same_vertices, triangle_fault, vertex_used,
};

verus! {

/// Grid dimensions the builder accepts: at least two vertices per side, and
/// a vertex count that fits the `u32` triangle indices.
pub open spec fn grid_dimensions_ok(nx: int, ny: int) -> bool {
    nx >= 2 && ny >= 2 && nx * ny <= u32::MAX
}

/// The two triangles of grid cell `(x, y)`, vertex `y * nx + x` being the
/// cell's first corner; `s` selects the first or second triangle.
pub open spec fn grid_triangle(nx: int, x: int, y: int, s: int) -> [u32; 3] {
    let a = y * nx + x;
    if s == 0 {
        [a as u32, (a + nx) as u32, (a + 1) as u32]
    } else {
        [(a + 1) as u32, (a + nx) as u32, (a + nx + 1) as u32]
    }
}

/// Position of the triangles of cell `(x, y)` in the triangle list (rows of
/// cells in order, two triangles per cell).
pub open spec fn grid_slot(nx: int, x: int, y: int, s: int) -> int {
    2 * (y * (nx - 1) + x) + s
}

pub fn check_grid_dimensions(nx: usize, ny: usize) -> (r: Result<(), ClothError>)
    ensures
        r is Ok <==> grid_dimensions_ok(nx as int, ny as int),
        r matches Err(e) ==> e == ClothError::InvalidParameter("grid dimensions"),
{
    if nx < 2 || ny < 2 {
        return Err(ClothError::InvalidParameter("grid dimensions"));
    }
    match nx.checked_mul(ny) {
        Some(n) => {
            if n > u32::MAX as usize {
                Err(ClothError::InvalidParameter("grid dimensions"))
            } else {
                Ok(())
            }
        },
        None => {
            proof {
                assert(nx * ny > u32::MAX) by (nonlinear_arith)
                    requires
                        nx * ny > usize::MAX,
                        usize::MAX >= u32::MAX,
                ;
            }
            Err(ClothError::InvalidParameter("grid dimensions"))
        },
    }
}

/// Triangles of an `nx` by `ny` vertex grid: for each cell, `[a, c, b]` and
/// `[b, c, d]` with `a` its first corner, `b = a + 1`, `c = a + nx`,
/// `d = c + 1`, so that both triangles wind the same way.
pub fn grid_triangles(nx: usize, ny: usize) -> (r: Vec<[u32; 3]>)
    requires
        grid_dimensions_ok(nx as int, ny as int),
    ensures
        r@.len() == 2 * (nx - 1) * (ny - 1),
        forall|x: int, y: int, s: int|
            0 <= x < nx - 1 && 0 <= y < ny - 1 && 0 <= s < 2 ==> r@[grid_slot(nx as int, x, y, s)]
                == #[trigger] grid_triangle(nx as int, x, y, s),
        forall|k: int|
            0 <= k < r@.len() ==> in_bounds(#[trigger] r@[k], (nx * ny) as nat) && distinct(r@[k]),
{
    let mut t: Vec<[u32; 3]> = Vec::new();
    let mut y: usize = 0;
    let ghost w = nx - 1;
    proof {
        assert(nx * ny >= 2 * ny) by (nonlinear_arith)
            requires
                nx >= 2,
        ;
    }
    while y < ny - 1
        invariant
            grid_dimensions_ok(nx as int, ny as int),
            w == nx - 1,
            y <= ny - 1,
            t@.len() == 2 * (y * w),
            forall|xx: int, yy: int, s: int|
                0 <= xx < w && 0 <= yy < y && 0 <= s < 2 ==> t@[grid_slot(nx as int, xx, yy, s)]
                    == #[trigger] grid_triangle(nx as int, xx, yy, s),
            forall|k: int|
                0 <= k < t@.len() ==> in_bounds(#[trigger] t@[k], (nx * ny) as nat) && distinct(
                    t@[k],
                ),
        decreases ny - 1 - y,
    {
        let mut x: usize = 0;
        while x < nx - 1
            invariant
                grid_dimensions_ok(nx as int, ny as int),
                w == nx - 1,
                y < ny - 1,
                x <= w,
                t@.len() == 2 * (y * w + x),
                forall|xx: int, yy: int, s: int|
                    0 <= xx < w && 0 <= yy < y && 0 <= s < 2 ==> t@[grid_slot(nx as int, xx, yy, s)]
                        == #[trigger] grid_triangle(nx as int, xx, yy, s),
                forall|xx: int, s: int|
                    0 <= xx < x && 0 <= s < 2 ==> t@[grid_slot(nx as int, xx, y as int, s)]
                        == #[trigger] grid_triangle(nx as int, xx, y as int, s),
                forall|k: int|
                    0 <= k < t@.len() ==> in_bounds(#[trigger] t@[k], (nx * ny) as nat) && distinct(
                        t@[k],
                    ),
            decreases w - x,
        {
            proof {
                assert(y * nx + x + nx + 1 < nx * ny) by (nonlinear_arith)
                    requires
                        y + 1 < ny,
                        x + 1 < nx,
                ;
            }
            let a = y * nx + x;
            let b = a + 1;
            let c = a + nx;
            let d = c + 1;
            let ghost before = t@;
            t.push([a as u32, c as u32, b as u32]);
            t.push([b as u32, c as u32, d as u32]);
            proof {
                assert(grid_slot(nx as int, x as int, y as int, 0) == before.len());
                assert(t@[before.len() as int] == grid_triangle(nx as int, x as int, y as int, 0));
                assert(t@[before.len() as int + 1] == grid_triangle(nx as int, x as int, y as int, 1));
                assert forall|xx: int, yy: int, s: int|
                    0 <= xx < w && 0 <= yy < y && 0 <= s < 2 implies t@[grid_slot(
                    nx as int,
                    xx,
                    yy,
                    s,
                )] == #[trigger] grid_triangle(nx as int, xx, yy, s) by {
                    assert(yy * w + xx < y * w) by (nonlinear_arith)
                        requires
                            0 <= yy < y,
                            0 <= xx < w,
                    ;
                    assert(t@[grid_slot(nx as int, xx, yy, s)] == before[grid_slot(
                        nx as int,
                        xx,
                        yy,
                        s,
                    )]);
                }
                assert forall|xx: int, s: int|
                    0 <= xx < x + 1 && 0 <= s < 2 implies t@[grid_slot(
                    nx as int,
                    xx,
                    y as int,
                    s,
                )] == #[trigger] grid_triangle(nx as int, xx, y as int, s) by {
                    if xx < x {
                        assert(t@[grid_slot(nx as int, xx, y as int, s)] == before[grid_slot(
                            nx as int,
                            xx,
                            y as int,
                            s,
                        )]);
                    }
                }
                assert forall|k: int| 0 <= k < t@.len() implies in_bounds(
                    #[trigger] t@[k],
                    (nx * ny) as nat,
                ) && distinct(t@[k]) by {
                    if k < before.len() {
                        assert(t@[k] == before[k]);
                    }
                }
            }
            x += 1;
        }
        proof {
            assert(y * w + w == (y + 1) * w) by (nonlinear_arith);
        }
        y += 1;
    }
    proof {
        assert(2 * (y * w) == 2 * (nx - 1) * (ny - 1)) by (nonlinear_arith)
            requires
                y == ny - 1,
                w == nx - 1,
        ;
    }
    t
}

/// Index of the grid vertex in column `x` and row `y`.
pub open spec fn grid_vertex(nx: int, x: int, y: int) -> int {
    y * nx + x
}

proof fn lemma_grid_vertex_bounds(nx: int, ny: int, x: int, y: int)
    requires
        0 <= x < nx,
        0 <= y < ny,
    ensures
        0 <= grid_vertex(nx, x, y) < nx * ny,
{
    assert(0 <= y * nx + x < nx * ny) by (nonlinear_arith)
        requires
            0 <= x < nx,
            0 <= y < ny,
    ;
}

proof fn lemma_grid_vertex_injective(nx: int, x1: int, y1: int, x2: int, y2: int)
    requires
        0 <= x1 < nx,
        0 <= x2 < nx,
        0 <= y1,
        0 <= y2,
        grid_vertex(nx, x1, y1) == grid_vertex(nx, x2, y2),
    ensures
        x1 == x2,
        y1 == y2,
{
    assert(y1 == y2) by (nonlinear_arith)
        requires
            0 <= x1 < nx,
            0 <= x2 < nx,
            0 <= y1,
            0 <= y2,
            y1 * nx + x1 == y2 * nx + x2,
    {
        if y1 < y2 {
            assert(y2 * nx >= (y1 + 1) * nx);
        } else if y2 < y1 {
            assert(y1 * nx >= (y2 + 1) * nx);
        }
    }
}

/// Every triangle position of a grid belongs to one cell triangle.
proof fn lemma_grid_slot_decompose(nx: int, ny: int, i: int) -> (c: (int, int, int))
    requires
        nx >= 2,
        ny >= 2,
        0 <= i < 2 * (nx - 1) * (ny - 1),
    ensures
        0 <= c.0 < nx - 1,
        0 <= c.1 < ny - 1,
        0 <= c.2 < 2,
        i == grid_slot(nx, c.0, c.1, c.2),
{
    let w = nx - 1;
    let k = i / 2;
    let s = i % 2;
    let x = k % w;
    let y = k / w;
    assert(i == 2 * k + s && 0 <= s < 2);
    vstd::arithmetic::div_mod::lemma_fundamental_div_mod(k, w);
    vstd::arithmetic::div_mod::lemma_mod_pos_bound(k, w);
    assert(k < w * (ny - 1)) by (nonlinear_arith)
        requires
            i == 2 * k + s,
            0 <= s < 2,
            i < 2 * (nx - 1) * (ny - 1),
            w == nx - 1,
    ;
    assert(0 <= y < ny - 1) by (nonlinear_arith)
        requires
            k == w * y + x,
            0 <= x < w,
            0 <= k < w * (ny - 1),
            w >= 1,
    {
        if y >= ny - 1 {
            assert(w * y >= w * (ny - 1));
        }
        if y < 0 {
            assert(w * y <= -w);
        }
    }
    assert(i == 2 * (y * w + x) + s) by (nonlinear_arith)
        requires
            i == 2 * k + s,
            k == w * y + x,
    ;
    (x, y, s)
}

/// Positions of cell triangles follow rows, then columns, then the two
/// triangles of a cell.
proof fn lemma_grid_slot_order(nx: int, x1: int, y1: int, s1: int, x2: int, y2: int, s2: int)
    requires
        nx >= 2,
        0 <= x1 < nx - 1,
        0 <= x2 < nx - 1,
        0 <= y1,
        0 <= y2,
        0 <= s1 < 2,
        0 <= s2 < 2,
    ensures
        (y1 < y2 || (y1 == y2 && x1 < x2) || (y1 == y2 && x1 == x2 && s1 < s2)) ==> grid_slot(
            nx,
            x1,
            y1,
            s1,
        ) < grid_slot(nx, x2, y2, s2),
        grid_slot(nx, x1, y1, s1) == grid_slot(nx, x2, y2, s2) ==> x1 == x2 && y1 == y2 && s1 == s2,
{
    let w = nx - 1;
    if y1 < y2 {
        assert(y1 * w + x1 < y2 * w) by (nonlinear_arith)
            requires
                0 <= x1 < w,
                0 <= y1 < y2,
        {
            assert(y2 * w >= (y1 + 1) * w);
        }
    }
    if y2 < y1 {
        assert(y2 * w + x2 < y1 * w) by (nonlinear_arith)
            requires
                0 <= x2 < w,
                0 <= y2 < y1,
        {
            assert(y1 * w >= (y2 + 1) * w);
        }
    }
}

/// Column of corner `i` of triangle `s` of the cell whose first corner is
/// in column `x`.
pub open spec fn corner_col(x: int, s: int, i: int) -> int {
    if s == 0 {
        if i == 2 {
            x + 1
        } else {
            x
        }
    } else {
        if i == 1 {
            x
        } else {
            x + 1
        }
    }
}

/// Row of corner `i` of triangle `s` of the cell whose first corner is in
/// row `y`.
pub open spec fn corner_row(y: int, s: int, i: int) -> int {
    if s == 0 {
        if i == 1 {
            y + 1
        } else {
            y
        }
    } else {
        if i == 0 {
            y
        } else {
            y + 1
        }
    }
}

/// Corner `r` counted on past the last corner.
spec fn wrap(r: int) -> int {
    if r >= 3 {
        r - 3
    } else {
        r
    }
}

/// Grid coordinates of corner `r` (`0 <= r < 5`) of a cell triangle.
spec fn corner_at(x: int, y: int, s: int, r: int) -> (int, int) {
    (corner_col(x, s, wrap(r)), corner_row(y, s, wrap(r)))
}

spec fn valid_cell(nx: int, ny: int, x: int, y: int, s: int) -> bool {
    0 <= x < nx - 1 && 0 <= y < ny - 1 && 0 <= s < 2
}

proof fn lemma_grid_corner(nx: int, ny: int, x: int, y: int, s: int, r: int)
    requires
        grid_dimensions_ok(nx, ny),
        valid_cell(nx, ny, x, y, s),
        0 <= r < 5,
    ensures
        corner(grid_triangle(nx, x, y, s), r) as int == grid_vertex(
            nx,
            corner_at(x, y, s, r).0,
            corner_at(x, y, s, r).1,
        ),
        0 <= corner_at(x, y, s, r).0 < nx,
        0 <= corner_at(x, y, s, r).1 < ny,
{
    assert((y + 1) * nx + x == y * nx + x + nx) by (nonlinear_arith);
    assert((y + 1) * nx + x + 1 == y * nx + x + nx + 1) by (nonlinear_arith);
    lemma_grid_vertex_bounds(nx, ny, x + 1, y + 1);
    lemma_grid_vertex_bounds(nx, ny, x, y);
}

/// Two cell triangles share the vertex pair of an edge exactly when the
/// edges join the same two grid points, in either direction.
proof fn lemma_grid_pair(
    nx: int,
    ny: int,
    x: int,
    y: int,
    s: int,
    r: int,
    x2: int,
    y2: int,
    s2: int,
    r2: int,
)
    requires
        grid_dimensions_ok(nx, ny),
        valid_cell(nx, ny, x, y, s),
        valid_cell(nx, ny, x2, y2, s2),
        0 <= r < 3,
        0 <= r2 < 3,
    ensures
        pair_of(grid_triangle(nx, x2, y2, s2), r2) == pair_of(grid_triangle(nx, x, y, s), r) <==> ((
        corner_at(x2, y2, s2, r2) == corner_at(x, y, s, r) && corner_at(x2, y2, s2, r2 + 1)
            == corner_at(x, y, s, r + 1)) || (corner_at(x2, y2, s2, r2) == corner_at(x, y, s, r + 1)
            && corner_at(x2, y2, s2, r2 + 1) == corner_at(x, y, s, r))),
{
    let t = grid_triangle(nx, x, y, s);
    let t2 = grid_triangle(nx, x2, y2, s2);
    lemma_grid_corner(nx, ny, x, y, s, r);
    lemma_grid_corner(nx, ny, x, y, s, r + 1);
    lemma_grid_corner(nx, ny, x2, y2, s2, r2);
    lemma_grid_corner(nx, ny, x2, y2, s2, r2 + 1);
    let p = corner_at(x, y, s, r);
    let q = corner_at(x, y, s, r + 1);
    let p2 = corner_at(x2, y2, s2, r2);
    let q2 = corner_at(x2, y2, s2, r2 + 1);
    if corner(t, r) == corner(t, r + 1) {
        lemma_grid_vertex_injective(nx, p.0, p.1, q.0, q.1);
    }
    if corner(t2, r2) == corner(t2, r2 + 1) {
        lemma_grid_vertex_injective(nx, p2.0, p2.1, q2.0, q2.1);
    }
    if corner(t2, r2) == corner(t, r) {
        lemma_grid_vertex_injective(nx, p2.0, p2.1, p.0, p.1);
    }
    if corner(t2, r2) == corner(t, r + 1) {
        lemma_grid_vertex_injective(nx, p2.0, p2.1, q.0, q.1);
    }
    if corner(t2, r2 + 1) == corner(t, r) {
        lemma_grid_vertex_injective(nx, q2.0, q2.1, p.0, p.1);
    }
    if corner(t2, r2 + 1) == corner(t, r + 1) {
        lemma_grid_vertex_injective(nx, q2.0, q2.1, q.0, q.1);
    }
}

/// The other cell triangle on the edge that starts at corner `r` of
/// triangle `s` of cell `(x, y)` (it may lie outside the grid).
spec fn partner(x: int, y: int, s: int, r: int) -> (int, int, int) {
    if s == 0 {
        if r == 0 {
            (x - 1, y, 1)
        } else if r == 1 {
            (x, y, 1)
        } else {
            (x, y - 1, 1)
        }
    } else {
        if r == 0 {
            (x, y, 0)
        } else if r == 1 {
            (x, y + 1, 0)
        } else {
            (x + 1, y, 0)
        }
    }
}

/// Only two cell triangles contain the vertex pair of an edge: the
/// triangle itself, along the same corners, and its partner, which runs
/// along the edge in the opposite direction.
proof fn lemma_grid_edge_owners(
    nx: int,
    ny: int,
    x: int,
    y: int,
    s: int,
    r: int,
    x2: int,
    y2: int,
    s2: int,
    r2: int,
)
    requires
        grid_dimensions_ok(nx, ny),
        valid_cell(nx, ny, x, y, s),
        valid_cell(nx, ny, x2, y2, s2),
        0 <= r < 3,
        0 <= r2 < 3,
        pair_of(grid_triangle(nx, x2, y2, s2), r2) == pair_of(grid_triangle(nx, x, y, s), r),
    ensures
        ((x2, y2, s2) == (x, y, s) && r2 == r) || ((x2, y2, s2) == partner(x, y, s, r) && corner_at(
            x2,
            y2,
            s2,
            r2,
        ) == corner_at(x, y, s, r + 1) && corner_at(x2, y2, s2, r2 + 1) == corner_at(x, y, s, r)),
{
    lemma_grid_pair(nx, ny, x, y, s, r, x2, y2, s2, r2);
}

/// The corner of the partner at which it starts along the shared edge.
spec fn partner_corner(s: int, r: int) -> int {
    if s == 0 {
        if r == 0 {
            2
        } else if r == 1 {
            0
        } else {
            1
        }
    } else {
        if r == 0 {
            1
        } else if r == 1 {
            2
        } else {
            0
        }
    }
}

/// `tris` lists the triangles of an `nx` by `ny` vertex grid, cell by cell.
pub open spec fn is_grid(nx: int, ny: int, tris: Seq<[u32; 3]>) -> bool {
    &&& tris.len() == 2 * (nx - 1) * (ny - 1)
    &&& forall|x: int, y: int, s: int|
        0 <= x < nx - 1 && 0 <= y < ny - 1 && 0 <= s < 2 ==> tris[grid_slot(nx, x, y, s)]
            == #[trigger] grid_triangle(nx, x, y, s)
}

proof fn lemma_grid_slot_in_range(nx: int, ny: int, x: int, y: int, s: int)
    requires
        grid_dimensions_ok(nx, ny),
        valid_cell(nx, ny, x, y, s),
    ensures
        0 <= grid_slot(nx, x, y, s) < 2 * (nx - 1) * (ny - 1),
{
    let w = nx - 1;
    assert(0 <= y * w + x < w * (ny - 1)) by (nonlinear_arith)
        requires
            0 <= x < w,
            0 <= y < ny - 1,
    {
        assert((y + 1) * w <= (ny - 1) * w);
    }
    assert(2 * (nx - 1) * (ny - 1) == 2 * (w * (ny - 1))) by (nonlinear_arith)
        requires
            w == nx - 1,
    ;
}

/// The edge at corner `r` of a grid triangle passes the edge check against
/// the triangles before it.
proof fn lemma_grid_edge_accepted(
    nx: int,
    ny: int,
    tris: Seq<[u32; 3]>,
    x: int,
    y: int,
    s: int,
    r: int,
)
    requires
        grid_dimensions_ok(nx, ny),
        is_grid(nx, ny, tris),
        valid_cell(nx, ny, x, y, s),
        0 <= r < 3,
    ensures
        edge_fault(tris.take(grid_slot(nx, x, y, s)), grid_triangle(nx, x, y, s), r) is None,
{
    let k = grid_slot(nx, x, y, s);
    let t = grid_triangle(nx, x, y, s);
    lemma_grid_slot_in_range(nx, ny, x, y, s);
    let prefix = tris.take(k);
    let p = pair_of(t, r);
    let q = partner(x, y, s, r);
    let inside = valid_cell(nx, ny, q.0, q.1, q.2) && grid_slot(nx, q.0, q.1, q.2) < k;
    assert forall|i: int| 0 <= i < prefix.len() && has_pair(#[trigger] prefix[i], p) implies inside
        && i == grid_slot(nx, q.0, q.1, q.2) by {
        let c = lemma_grid_slot_decompose(nx, ny, i);
        assert(prefix[i] == tris[i]);
        assert(tris[i] == grid_triangle(nx, c.0, c.1, c.2));
        let ti = grid_triangle(nx, c.0, c.1, c.2);
        let r2: int = if pair_of(ti, 0) == p {
            0
        } else if pair_of(ti, 1) == p {
            1
        } else {
            2
        };
        lemma_grid_edge_owners(nx, ny, x, y, s, r, c.0, c.1, c.2, r2);
        lemma_grid_slot_order(nx, c.0, c.1, c.2, x, y, s);
    }
    lemma_grid_corner(nx, ny, x, y, s, r);
    lemma_grid_corner(nx, ny, x, y, s, r + 1);
    if corner(t, r) == corner(t, r + 1) {
        lemma_grid_vertex_injective(
            nx,
            corner_at(x, y, s, r).0,
            corner_at(x, y, s, r).1,
            corner_at(x, y, s, r + 1).0,
            corner_at(x, y, s, r + 1).1,
        );
    }
    if inside {
        let j = grid_slot(nx, q.0, q.1, q.2);
        let tq = grid_triangle(nx, q.0, q.1, q.2);
        assert(prefix[j] == tris[j]);
        assert(tris[j] == tq);
        lemma_grid_pair(nx, ny, x, y, s, r, q.0, q.1, q.2, partner_corner(s, r));
        assert(has_pair(tq, p));
        lemma_faces_on_single(prefix, p, j);
        let r3: int = if pair_of(tq, 0) == p {
            0
        } else if pair_of(tq, 1) == p {
            1
        } else {
            2
        };
        assert(directed_face(tq, p)[0] == corner(tq, r3));
        lemma_grid_edge_owners(nx, ny, x, y, s, r, q.0, q.1, q.2, r3);
        lemma_grid_corner(nx, ny, q.0, q.1, q.2, r3);
        assert(corner(tq, r3) == corner(t, r + 1));
    } else {
        lemma_faces_on_none(prefix, p);
    }
}

proof fn lemma_grid_corner_eq(
    nx: int,
    ny: int,
    x: int,
    y: int,
    s: int,
    m: int,
    x2: int,
    y2: int,
    s2: int,
    j: int,
)
    requires
        grid_dimensions_ok(nx, ny),
        valid_cell(nx, ny, x, y, s),
        valid_cell(nx, ny, x2, y2, s2),
        0 <= m < 3,
        0 <= j < 3,
    ensures
        grid_triangle(nx, x2, y2, s2)[j] == grid_triangle(nx, x, y, s)[m] <==> corner_at(x2, y2, s2, j)
            == corner_at(x, y, s, m),
{
    lemma_grid_corner(nx, ny, x, y, s, m);
    lemma_grid_corner(nx, ny, x2, y2, s2, j);
    let a = corner_at(x, y, s, m);
    let b = corner_at(x2, y2, s2, j);
    if grid_triangle(nx, x2, y2, s2)[j] == grid_triangle(nx, x, y, s)[m] {
        lemma_grid_vertex_injective(nx, b.0, b.1, a.0, a.1);
    }
}

/// Triangle `s` of cell `(x, y)` passes every check against the triangles
/// before it.
proof fn lemma_grid_triangle_accepted(
    nx: int,
    ny: int,
    tris: Seq<[u32; 3]>,
    area_ok: Seq<bool>,
    x: int,
    y: int,
    s: int,
)
    requires
        grid_dimensions_ok(nx, ny),
        is_grid(nx, ny, tris),
        area_ok.len() == tris.len(),
        forall|i: int| 0 <= i < area_ok.len() ==> #[trigger] area_ok[i],
        valid_cell(nx, ny, x, y, s),
    ensures
        triangle_fault(
            tris.take(grid_slot(nx, x, y, s)),
            tris[grid_slot(nx, x, y, s)],
            area_ok[grid_slot(nx, x, y, s)],
            (nx * ny) as nat,
        ) is None,
{
    let k = grid_slot(nx, x, y, s);
    let t = grid_triangle(nx, x, y, s);
    lemma_grid_slot_in_range(nx, ny, x, y, s);
    assert(tris[k] == t);
    assert(area_ok[k]);
    let prefix = tris.take(k);
    lemma_grid_corner(nx, ny, x, y, s, 0);
    lemma_grid_corner(nx, ny, x, y, s, 1);
    lemma_grid_corner(nx, ny, x, y, s, 2);
    lemma_grid_corner_eq(nx, ny, x, y, s, 0, x, y, s, 1);
    lemma_grid_corner_eq(nx, ny, x, y, s, 1, x, y, s, 2);
    lemma_grid_corner_eq(nx, ny, x, y, s, 0, x, y, s, 2);
    lemma_grid_vertex_bounds(nx, ny, corner_at(x, y, s, 0).0, corner_at(x, y, s, 0).1);
    lemma_grid_vertex_bounds(nx, ny, corner_at(x, y, s, 1).0, corner_at(x, y, s, 1).1);
    lemma_grid_vertex_bounds(nx, ny, corner_at(x, y, s, 2).0, corner_at(x, y, s, 2).1);
    assert(in_bounds(t, (nx * ny) as nat));
    assert(distinct(t));
    assert forall|i: int| 0 <= i < prefix.len() implies !same_vertices(#[trigger] prefix[i], t) by {
        let c = lemma_grid_slot_decompose(nx, ny, i);
        assert(prefix[i] == tris[i]);
        assert(tris[i] == grid_triangle(nx, c.0, c.1, c.2));
        lemma_grid_corner_eq(nx, ny, x, y, s, 0, c.0, c.1, c.2, 0);
        lemma_grid_corner_eq(nx, ny, x, y, s, 1, c.0, c.1, c.2, 0);
        lemma_grid_corner_eq(nx, ny, x, y, s, 2, c.0, c.1, c.2, 0);
        lemma_grid_corner_eq(nx, ny, x, y, s, 0, c.0, c.1, c.2, 1);
        lemma_grid_corner_eq(nx, ny, x, y, s, 1, c.0, c.1, c.2, 1);
        lemma_grid_corner_eq(nx, ny, x, y, s, 2, c.0, c.1, c.2, 1);
        lemma_grid_corner_eq(nx, ny, x, y, s, 0, c.0, c.1, c.2, 2);
        lemma_grid_corner_eq(nx, ny, x, y, s, 1, c.0, c.1, c.2, 2);
        lemma_grid_corner_eq(nx, ny, x, y, s, 2, c.0, c.1, c.2, 2);
        lemma_grid_slot_order(nx, c.0, c.1, c.2, x, y, s);
    }
    assert(!duplicates_earlier(prefix, t));
    lemma_grid_edge_accepted(nx, ny, tris, x, y, s, 0);
    lemma_grid_edge_accepted(nx, ny, tris, x, y, s, 1);
    lemma_grid_edge_accepted(nx, ny, tris, x, y, s, 2);
}

proof fn lemma_grid_prefix_accepted(nx: int, ny: int, tris: Seq<[u32; 3]>, area_ok: Seq<bool>, k: int)
    requires
        grid_dimensions_ok(nx, ny),
        is_grid(nx, ny, tris),
        area_ok.len() == tris.len(),
        forall|i: int| 0 <= i < area_ok.len() ==> #[trigger] area_ok[i],
        0 <= k <= tris.len(),
    ensures
        first_triangle_fault(tris.take(k), area_ok.take(k), (nx * ny) as nat) is None,
    decreases k,
{
    if k > 0 {
        lemma_grid_prefix_accepted(nx, ny, tris, area_ok, k - 1);
        let c = lemma_grid_slot_decompose(nx, ny, k - 1);
        lemma_grid_triangle_accepted(nx, ny, tris, area_ok, c.0, c.1, c.2);
        assert(tris.take(k).drop_last() =~= tris.take(k - 1));
        assert(area_ok.take(k).take(k - 1) =~= area_ok.take(k - 1));
        assert(tris.take(k).last() == tris[k - 1]);
        assert(area_ok.take(k)[k - 1] == area_ok[k - 1]);
    }
}

/// Every vertex of the grid is a corner of some triangle.
proof fn lemma_grid_vertex_used(nx: int, ny: int, tris: Seq<[u32; 3]>, v: int)
    requires
        grid_dimensions_ok(nx, ny),
        is_grid(nx, ny, tris),
        0 <= v < nx * ny,
    ensures
        vertex_used(tris, v),
{
    let x = v % nx;
    let y = v / nx;
    vstd::arithmetic::div_mod::lemma_fundamental_div_mod(v, nx);
    vstd::arithmetic::div_mod::lemma_mod_pos_bound(v, nx);
    assert(0 <= y < ny) by (nonlinear_arith)
        requires
            v == nx * y + x,
            0 <= x < nx,
            0 <= v < nx * ny,
            nx >= 2,
    {
        if y >= ny {
            assert(nx * y >= nx * ny);
        }
        if y < 0 {
            assert(nx * y <= -nx);
        }
    }
    assert(v == grid_vertex(nx, x, y)) by (nonlinear_arith)
        requires
            v == nx * y + x,
    ;
    let cx = if x < nx - 1 {
        x
    } else {
        nx - 2
    };
    let cy = if y < ny - 1 {
        y
    } else {
        ny - 2
    };
    let (s, j): (int, int) = if x < nx - 1 && y < ny - 1 {
        (0, 0)
    } else if y < ny - 1 {
        (1, 0)
    } else if x < nx - 1 {
        (0, 1)
    } else {
        (1, 2)
    };
    lemma_grid_corner(nx, ny, cx, cy, s, j);
    lemma_grid_slot_in_range(nx, ny, cx, cy, s);
    let i = grid_slot(nx, cx, cy, s);
    assert(tris[i] == grid_triangle(nx, cx, cy, s));
    assert(corner_at(cx, cy, s, j) == (x, y));
    assert(on_triangle(tris[i], v as u32));
}

/// The triangles of a grid always form a valid mesh: with sound geometry
/// (finite positions, positive triangle and vertex areas), every `nx` by
/// `ny` grid that the builder accepts passes the complete mesh check.
pub proof fn lemma_grid_mesh_is_valid(nx: int, ny: int, tris: Seq<[u32; 3]>, area_ok: Seq<bool>)
    requires
        grid_dimensions_ok(nx, ny),
        is_grid(nx, ny, tris),
        area_ok.len() == tris.len(),
        forall|i: int| 0 <= i < area_ok.len() ==> #[trigger] area_ok[i],
    ensures
        mesh_fault((nx * ny) as nat, true, tris, area_ok, true) is None,
{
    assert(nx * ny >= 4 && (nx - 1) * (ny - 1) >= 1) by (nonlinear_arith)
        requires
            nx >= 2,
            ny >= 2,
    ;
    assert(tris.len() >= 2) by (nonlinear_arith)
        requires
            tris.len() == 2 * (nx - 1) * (ny - 1),
            (nx - 1) * (ny - 1) >= 1,
    ;
    lemma_grid_prefix_accepted(nx, ny, tris, area_ok, tris.len() as int);
    assert(tris.take(tris.len() as int) =~= tris);
    assert(area_ok.take(tris.len() as int) =~= area_ok);
    assert forall|v: int| 0 <= v < nx * ny implies vertex_used(tris, v) by {
        lemma_grid_vertex_used(nx, ny, tris, v);
    }
}

} // verus!
