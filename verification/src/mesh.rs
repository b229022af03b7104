use vstd::prelude::*;
use vstd::arithmetic::power2::pow2;
use vstd::bits::{lemma_u32_shl_is_mul, lemma_u32_pow2_no_overflow};

use crate::bary_iterative::{BaryIterative, mesh_index, grid_point_count};

verus! {

/// Number of times a triangle mesh is subdivided
pub const MESH_SUBDIVISIONS: u32 = 2;

/// Number of triangles along one edge of the mesh
pub const MESH_STEPS: u32 = 4;

/// Index of the first slot of row `z` (the points whose third weight is `z`) in
/// the mesh of a grid of denominator `n`: rows `0..z` hold `n + 1`, `n`, ... points.
pub open spec fn row_start(n: int, z: int) -> int
    decreases z,
{
    if z <= 0 {
        0
    } else {
        row_start(n, z - 1) + (n + 2 - z)
    }
}

/// The closed form of the mesh index is the row start plus `x`.
pub proof fn lemma_row_start_closed_form(n: int, z: int)
    requires
        z >= 0,
    ensures
        (2 * (n + 1) + 1 - z) * z == 2 * row_start(n, z),
        mesh_index(0, z, n) == row_start(n, z),
    decreases z,
{
    if z > 0 {
        lemma_row_start_closed_form(n, z - 1);
        assert((2 * (n + 1) + 1 - z) * z == (2 * (n + 1) + 1 - (z - 1)) * (z - 1) + 2 * (n + 2
            - z)) by (nonlinear_arith);
    }
}

/// Row starts grow with the row, up to one past the last row.
pub proof fn lemma_row_start_monotone(n: int, z1: int, z2: int)
    requires
        0 <= z1 <= z2 <= n + 1,
    ensures
        row_start(n, z1) <= row_start(n, z2),
    decreases z2 - z1,
{
    if z1 < z2 {
        lemma_row_start_monotone(n, z1, z2 - 1);
    }
}

/// One past the last row starts at the number of grid points.
pub proof fn lemma_row_start_total(n: int)
    requires
        n >= 0,
    ensures
        row_start(n, n + 1) == grid_point_count(n),
        (n + 1) * (n + 2) == 2 * grid_point_count(n),
{
    lemma_row_start_closed_form(n, n + 1);
    assert((2 * (n + 1) + 1 - (n + 1)) * (n + 1) == (n + 1) * (n + 2)) by (nonlinear_arith);
}

/// Every grid point of denominator `n` gets a mesh slot below the number of grid points.
pub proof fn lemma_mesh_index_in_range(x: int, y: int, z: int, n: int)
    requires
        0 <= x,
        0 <= y,
        0 <= z,
        x + y + z == n,
    ensures
        row_start(n, z) <= mesh_index(x, z, n) < row_start(n, z + 1),
        0 <= mesh_index(x, z, n) < grid_point_count(n),
{
    lemma_row_start_closed_form(n, z);
    lemma_row_start_monotone(n, 0, z);
    lemma_row_start_monotone(n, z + 1, n + 1);
    lemma_row_start_total(n);
}

/// Distinct grid points of the same denominator get distinct mesh slots.
pub proof fn lemma_mesh_index_injective(
    x1: int,
    y1: int,
    z1: int,
    x2: int,
    y2: int,
    z2: int,
    n: int,
)
    requires
        0 <= x1,
        0 <= y1,
        0 <= z1,
        x1 + y1 + z1 == n,
        0 <= x2,
        0 <= y2,
        0 <= z2,
        x2 + y2 + z2 == n,
        mesh_index(x1, z1, n) == mesh_index(x2, z2, n),
    ensures
        x1 == x2 && y1 == y2 && z1 == z2,
{
    lemma_mesh_index_in_range(x1, y1, z1, n);
    lemma_mesh_index_in_range(x2, y2, z2, n);
    if z1 < z2 {
        lemma_row_start_monotone(n, z1 + 1, z2);
    } else if z2 < z1 {
        lemma_row_start_monotone(n, z2 + 1, z1);
    }
    lemma_row_start_closed_form(n, z1);
    lemma_row_start_closed_form(n, z2);
}

/// Every mesh slot below the number of grid points belongs to some grid point
/// `(x, n - x - z, z)`.
pub proof fn lemma_mesh_index_surjective(n: int, k: int)
    requires
        n >= 0,
        0 <= k < grid_point_count(n),
    ensures
        exists|x: int, z: int|
            0 <= x && 0 <= z && x + z <= n && #[trigger] mesh_index(x, z, n) == k,
{
    lemma_row_start_total(n);
    let z = row_of_slot(n, k, 0);
    let x = k - row_start(n, z);
    lemma_row_start_closed_form(n, z);
    assert(mesh_index(x, z, n) == k);
}

/// The row holding slot `k`, searching from row `z` on.
proof fn row_of_slot(n: int, k: int, z: int) -> (r: int)
    requires
        n >= 0,
        0 <= z <= n,
        row_start(n, z) <= k < row_start(n, n + 1),
    ensures
        z <= r <= n,
        row_start(n, r) <= k < row_start(n, r + 1),
    decreases n - z,
{
    if k < row_start(n, z + 1) {
        z
    } else {
        if z == n {
            assert(false);
        }
        row_of_slot(n, k, z + 1)
    }
}


/// Vertex slots of one triangle of the mesh of a grid of denominator `n`.
/// An upward triangle (`upward`) with base point `(x, y, n - 1 - x - y)` has the
/// corners base + `[1, 0, 0]`, `[0, 1, 0]`, `[0, 0, 1]`; a downward one with base point
/// `(x, y, n - 2 - x - y)` has the corners base + `[0, 1, 1]`, `[1, 0, 1]`, `[1, 1, 0]`.
pub open spec fn mesh_triangle(n: int, x: int, y: int, upward: bool) -> Seq<u32> {
    if upward {
        let z = n - 1 - x - y;
        seq![
            mesh_index(x + 1, z, n) as u32,
            mesh_index(x, z, n) as u32,
            mesh_index(x, z + 1, n) as u32,
        ]
    } else {
        let z = n - 2 - x - y;
        seq![
            mesh_index(x, z + 1, n) as u32,
            mesh_index(x + 1, z + 1, n) as u32,
            mesh_index(x + 1, z, n) as u32,
        ]
    }
}

/// The first `y` triangles of row `x`, for bases summing to `m`.
pub open spec fn mesh_row(n: int, x: int, y: int, upward: bool) -> Seq<u32>
    decreases y,
{
    if y <= 0 {
        Seq::empty()
    } else {
        mesh_row(n, x, y - 1, upward) + mesh_triangle(n, x, y - 1, upward)
    }
}

/// Rows `0..x` of triangles whose bases sum to `m` (`m - x'` triangles in row `x'`).
pub open spec fn mesh_rows(n: int, m: int, x: int, upward: bool) -> Seq<u32>
    decreases x,
{
    if x <= 0 {
        Seq::empty()
    } else {
        mesh_rows(n, m, x - 1, upward) + mesh_row(n, x - 1, m - (x - 1), upward)
    }
}

/// Triangle-list indices of the mesh of a grid of denominator `n`: all upward
/// triangles row by row, then all downward ones.
pub open spec fn bary_mesh_triangles_spec(n: int) -> Seq<u32> {
    mesh_rows(n, n, n, true) + mesh_rows(n, n - 1, n - 1, false)
}

/// Mesh slot of the grid point `(x, y, z)`, through [`BaryIterative::to_mesh_index`].
fn grid_slot(x: u32, y: u32, z: u32) -> (i: u32)
    requires
        x + y + z <= 32768,
    ensures
        i == mesh_index(x as int, z as int, x + y + z),
        i < grid_point_count(x + y + z),
{
    let ghost n = x + y + z;
    proof {
        lemma_mesh_index_in_range(x as int, y as int, z as int, n);
        assert((2 * (n + 1) + 1 - z) * z <= (2 * n + 3) * n) by (nonlinear_arith)
            requires 0 <= z <= n;
        assert((2 * n + 3) * n <= 65539 * 32768) by (nonlinear_arith)
            requires 0 <= n <= 32768;
        assert(grid_point_count(n) <= 32769 * 32770 / 2) by (nonlinear_arith)
            requires 0 <= n <= 32768, grid_point_count(n) == (n + 1) * (n + 2) / 2;
    }
    BaryIterative::new([x, y, z]).to_mesh_index()
}

/// Side length `2^s` of the grid of a mesh subdivided `s` times.
fn grid_side(subdivisions: u32) -> (n: u32)
    requires
        subdivisions <= 15,
    ensures
        n == pow2(subdivisions as nat),
        1 <= n <= 32768,
{
    proof {
        lemma_u32_pow2_no_overflow(subdivisions as nat);
        vstd::arithmetic::power2::lemma_pow2_pos(subdivisions as nat);
        if subdivisions < 15 {
            vstd::arithmetic::power2::lemma_pow2_strictly_increases(subdivisions as nat, 15);
        }
        vstd::arithmetic::power2::lemma2_to64();
    }
    let n = 1u32 << subdivisions;
    proof {
        lemma_u32_shl_is_mul(1, subdivisions);
    }
    n
}

/// Triangle-list indices of a base mesh whose vertices are the grid points of a
/// triangle subdivided `subdivisions` times (grid side `2^subdivisions`).
pub fn bary_mesh_triangles(subdivisions: u32) -> (indices: Vec<u32>)
    requires
        subdivisions <= 15,
    ensures
        indices@ == bary_mesh_triangles_spec(pow2(subdivisions as nat) as int),
{
    let n = grid_side(subdivisions);
    let mut indices: Vec<u32> = Vec::new();
    // Upward triangles
    let mut x: u32 = 0;
    while x < n
        invariant
            1 <= n <= 32768,
            x <= n,
            indices@ == mesh_rows(n as int, n as int, x as int, true),
        decreases n - x,
    {
        let mut y: u32 = 0;
        while y < n - x
            invariant
                1 <= n <= 32768,
                x < n,
                y <= n - x,
                indices@ == mesh_rows(n as int, n as int, x as int, true) + mesh_row(
                    n as int,
                    x as int,
                    y as int,
                    true,
                ),
            decreases n - x - y,
        {
            let z = n - x - y - 1;
            let a = grid_slot(x + 1, y, z);
            let b = grid_slot(x, y + 1, z);
            let c = grid_slot(x, y, z + 1);
            indices.push(a);
            indices.push(b);
            indices.push(c);
            proof {
                assert(mesh_row(n as int, x as int, y + 1, true) == mesh_row(
                    n as int,
                    x as int,
                    y as int,
                    true,
                ) + mesh_triangle(n as int, x as int, y as int, true));
                assert(indices@ == mesh_rows(n as int, n as int, x as int, true) + mesh_row(
                    n as int,
                    x as int,
                    y + 1,
                    true,
                ));
            }
            y = y + 1;
        }
        x = x + 1;
    }
    // Downward triangles
    let ghost ups = indices@;
    let m = n - 1;
    let mut x: u32 = 0;
    while x < m
        invariant
            1 <= n <= 32768,
            m == n - 1,
            x <= m,
            ups == mesh_rows(n as int, n as int, n as int, true),
            indices@ == ups + mesh_rows(n as int, m as int, x as int, false),
        decreases m - x,
    {
        let mut y: u32 = 0;
        while y < m - x
            invariant
                1 <= n <= 32768,
                m == n - 1,
                x < m,
                y <= m - x,
                ups == mesh_rows(n as int, n as int, n as int, true),
                indices@ == ups + mesh_rows(n as int, m as int, x as int, false) + mesh_row(
                    n as int,
                    x as int,
                    y as int,
                    false,
                ),
            decreases m - x - y,
        {
            let z = m - x - y - 1;
            let a = grid_slot(x, y + 1, z + 1);
            let b = grid_slot(x + 1, y, z + 1);
            let c = grid_slot(x + 1, y + 1, z);
            indices.push(a);
            indices.push(b);
            indices.push(c);
            proof {
                assert(mesh_row(n as int, x as int, y + 1, false) == mesh_row(
                    n as int,
                    x as int,
                    y as int,
                    false,
                ) + mesh_triangle(n as int, x as int, y as int, false));
                assert(indices@ == ups + mesh_rows(n as int, m as int, x as int, false) + mesh_row(
                    n as int,
                    x as int,
                    y + 1,
                    false,
                ));
            }
            y = y + 1;
        }
        x = x + 1;
    }
    indices
}


/// The corners of every triangle of a row are valid mesh slots.
proof fn lemma_mesh_row_valid(n: int, m: int, x: int, y: int, upward: bool)
    requires
        1 <= n <= 32768,
        m == (if upward { n } else { n - 1 }),
        0 <= x < m,
        0 <= y <= m - x,
    ensures
        mesh_row(n, x, y, upward).len() == 3 * y,
        forall|i: int|
            0 <= i < mesh_row(n, x, y, upward).len() ==> #[trigger] mesh_row(n, x, y, upward)[i]
                < grid_point_count(n),
    decreases y,
{
    if y > 0 {
        lemma_mesh_row_valid(n, m, x, y - 1, upward);
        let yy = y - 1;
        let t = mesh_triangle(n, x, yy, upward);
        if upward {
            let z = n - 1 - x - yy;
            lemma_mesh_index_in_range(x + 1, yy, z, n);
            lemma_mesh_index_in_range(x, yy + 1, z, n);
            lemma_mesh_index_in_range(x, yy, z + 1, n);
        } else {
            let z = n - 2 - x - yy;
            lemma_mesh_index_in_range(x, yy + 1, z + 1, n);
            lemma_mesh_index_in_range(x + 1, yy, z + 1, n);
            lemma_mesh_index_in_range(x + 1, yy + 1, z, n);
        }
        assert forall|i: int| 0 <= i < t.len() implies #[trigger] t[i] < grid_point_count(n) by {}
        let r = mesh_row(n, x, y, upward);
        let p = mesh_row(n, x, yy, upward);
        assert(r == p + t);
        assert forall|i: int| 0 <= i < r.len() implies #[trigger] r[i] < grid_point_count(n) by {
            if i < p.len() {
                assert(r[i] == p[i]);
            } else {
                assert(r[i] == t[i - p.len()]);
            }
        }
    }
}

/// The corners of every triangle in rows `0..x` are valid mesh slots.
proof fn lemma_mesh_rows_valid(n: int, m: int, x: int, upward: bool)
    requires
        1 <= n <= 32768,
        m == (if upward { n } else { n - 1 }),
        0 <= x <= m,
    ensures
        2 * mesh_rows(n, m, x, upward).len() == 3 * x * (2 * m - x + 1),
        forall|i: int|
            0 <= i < mesh_rows(n, m, x, upward).len() ==> #[trigger] mesh_rows(
                n,
                m,
                x,
                upward,
            )[i] < grid_point_count(n),
    decreases x,
{
    if x == 0 {
        assert(3 * x * (2 * m - x + 1) == 0) by (nonlinear_arith)
            requires x == 0;
    }
    if x > 0 {
        lemma_mesh_rows_valid(n, m, x - 1, upward);
        lemma_mesh_row_valid(n, m, x - 1, m - (x - 1), upward);
        let p = mesh_rows(n, m, x - 1, upward);
        let t = mesh_row(n, x - 1, m - (x - 1), upward);
        let r = mesh_rows(n, m, x, upward);
        assert(r == p + t);
        assert(r.len() == p.len() + t.len());
        assert(t.len() == 3 * (m - (x - 1)));
        assert(2 * p.len() == 3 * (x - 1) * (2 * m - (x - 1) + 1));
        assert(3 * x * (2 * m - x + 1) == 3 * (x - 1) * (2 * m - (x - 1) + 1) + 2 * (3 * (m - (x
            - 1)))) by (nonlinear_arith);
        assert forall|i: int| 0 <= i < r.len() implies #[trigger] r[i] < grid_point_count(n) by {
            if i < p.len() {
                assert(r[i] == p[i]);
            } else {
                assert(r[i] == t[i - p.len()]);
            }
        }
    }
}

/// The base mesh of a grid of side `n` has `n * n` triangles, and every corner of
/// every triangle is a valid vertex slot (below the number of grid points).
pub proof fn lemma_bary_mesh_triangles_valid(n: int)
    requires
        1 <= n <= 32768,
    ensures
        bary_mesh_triangles_spec(n).len() == 3 * n * n,
        forall|i: int|
            0 <= i < bary_mesh_triangles_spec(n).len() ==> #[trigger] bary_mesh_triangles_spec(
                n,
            )[i] < grid_point_count(n),
{
    lemma_mesh_rows_valid(n, n, n, true);
    lemma_mesh_rows_valid(n, n - 1, n - 1, false);
    let p = mesh_rows(n, n, n, true);
    let t = mesh_rows(n, n - 1, n - 1, false);
    let r = bary_mesh_triangles_spec(n);
    assert(3 * n * (2 * n - n + 1) + 3 * (n - 1) * (2 * (n - 1) - (n - 1) + 1) == 2 * (3 * n
        * n)) by (nonlinear_arith);
    assert forall|i: int| 0 <= i < r.len() implies #[trigger] r[i] < grid_point_count(n) by {
        if i < p.len() {
            assert(r[i] == p[i]);
        } else {
            assert(r[i] == t[i - p.len()]);
        }
    }
}


/// Grid weights of the base mesh vertices: slot `mesh_index(x, z, n)` holds the grid
/// point `[x, n - x - z, z]` of a triangle subdivided `subdivisions` times
/// (`n == 2^subdivisions`). With the slot laws above, every slot holds a grid point.
pub fn bary_mesh_vertex_weights(subdivisions: u32) -> (vertices: Vec<[u32; 3]>)
    requires
        subdivisions <= 15,
    ensures
        vertices.len() == grid_point_count(pow2(subdivisions as nat) as int),
        forall|x: int, z: int|
            0 <= x && 0 <= z && x + z <= pow2(subdivisions as nat) ==> vertices@[#[trigger] mesh_index(
                x,
                z,
                pow2(subdivisions as nat) as int,
            )] == [x as u32, (pow2(subdivisions as nat) - x - z) as u32, z as u32],
{
    let n = grid_side(subdivisions);
    proof {
        lemma_row_start_total(n as int);
        assert(grid_point_count(n as int) <= 32769 * 32770 / 2) by (nonlinear_arith)
            requires 1 <= n <= 32768, (n + 1) * (n + 2) == 2 * grid_point_count(n as int);
    }
    let num_vertices = ((n + 1) * (n + 2) / 2) as usize;
    let mut vertices: Vec<[u32; 3]> = vec![[0u32, 0, 0]; num_vertices];
    let mut x: u32 = 0;
    while x < n + 1
        invariant
            1 <= n <= 32768,
            x <= n + 1,
            vertices.len() == grid_point_count(n as int),
            forall|x1: int, z1: int|
                0 <= x1 < x && 0 <= z1 && x1 + z1 <= n ==> vertices@[#[trigger] mesh_index(
                    x1,
                    z1,
                    n as int,
                )] == [x1 as u32, (n - x1 - z1) as u32, z1 as u32],
        decreases n + 1 - x,
    {
        let mut y: u32 = 0;
        while y < n + 1 - x
            invariant
                1 <= n <= 32768,
                x < n + 1,
                y <= n + 1 - x,
                vertices.len() == grid_point_count(n as int),
                forall|x1: int, z1: int|
                    0 <= x1 && 0 <= z1 && x1 + z1 <= n && (x1 < x || (x1 == x && n - x - z1
                        < y)) ==> vertices@[#[trigger] mesh_index(x1, z1, n as int)] == [
                        x1 as u32,
                        (n - x1 - z1) as u32,
                        z1 as u32,
                    ],
            decreases n + 1 - x - y,
        {
            let z = n - x - y;
            let index = grid_slot(x, y, z);
            let ghost old_vertices = vertices@;
            vertices.set(index as usize, [x, y, z]);
            proof {
                assert forall|x1: int, z1: int|
                    0 <= x1 && 0 <= z1 && x1 + z1 <= n && (x1 < x || (x1 == x && n - x - z1 < y
                        + 1)) implies vertices@[#[trigger] mesh_index(x1, z1, n as int)] == [
                    x1 as u32,
                    (n - x1 - z1) as u32,
                    z1 as u32,
                ] by {
                    lemma_mesh_index_in_range(x1, n - x1 - z1, z1, n as int);
                    if mesh_index(x1, z1, n as int) == index {
                        lemma_mesh_index_injective(
                            x1,
                            n - x1 - z1,
                            z1,
                            x as int,
                            y as int,
                            z as int,
                            n as int,
                        );
                    } else {
                        assert(vertices@[mesh_index(x1, z1, n as int)] == old_vertices[mesh_index(
                            x1,
                            z1,
                            n as int,
                        )]);
                    }
                }
            }
            y = y + 1;
        }
        x = x + 1;
    }
    vertices
}

} // verus!
