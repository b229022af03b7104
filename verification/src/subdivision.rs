use vstd::prelude::*;
use vstd::arithmetic::power2::pow2;
use vstd::bits::{lemma_u32_shl_is_mul, lemma_u32_pow2_no_overflow};

use crate::bary_iterative::{BaryIterative, weight_sum};

verus! {

/// Side of a great-circle plane through one triangle edge on which a point lies,
/// as far as a tolerance tells: behind it, on it, or in front (towards the inside).
#[derive(Clone, Copy, Debug, PartialEq, Eq, Structural)]
pub enum PlaneCmp {
    Neg,
    Zero,
    Pos,
}

/// Where a point lies relative to a triangle, from its sides of the three edge planes
/// (plane `i` runs through corners `i` and `i + 1`).
#[derive(Clone, Copy, Debug, PartialEq, Eq, Structural)]
pub enum PointLocation {
    /// Strictly inside: look further in a sub-triangle.
    Inside,
    /// On the given corner.
    Corner(usize),
    /// On the edge from the first corner to the second.
    Edge(usize, usize),
    /// Outside the triangle.
    Outside,
}

/// The location table: two planes at zero and the third positive is a corner,
/// one plane at zero and the others positive is an edge, all positive is inside,
/// anything else is outside.
pub open spec fn location_of(c: [PlaneCmp; 3]) -> PointLocation {
    match (c[0], c[1], c[2]) {
        (PlaneCmp::Pos, PlaneCmp::Pos, PlaneCmp::Pos) => PointLocation::Inside,
        (PlaneCmp::Zero, PlaneCmp::Pos, PlaneCmp::Zero) => PointLocation::Corner(0),
        (PlaneCmp::Zero, PlaneCmp::Zero, PlaneCmp::Pos) => PointLocation::Corner(1),
        (PlaneCmp::Pos, PlaneCmp::Zero, PlaneCmp::Zero) => PointLocation::Corner(2),
        (PlaneCmp::Zero, PlaneCmp::Pos, PlaneCmp::Pos) => PointLocation::Edge(0, 1),
        (PlaneCmp::Pos, PlaneCmp::Zero, PlaneCmp::Pos) => PointLocation::Edge(1, 2),
        (PlaneCmp::Pos, PlaneCmp::Pos, PlaneCmp::Zero) => PointLocation::Edge(2, 0),
        _ => PointLocation::Outside,
    }
}

/// Locates a point from its sides of the three edge planes of a triangle.
pub fn locate(cmps: [PlaneCmp; 3]) -> (r: PointLocation)
    ensures
        r == location_of(cmps),
{
    match (cmps[0], cmps[1], cmps[2]) {
        (PlaneCmp::Pos, PlaneCmp::Pos, PlaneCmp::Pos) => PointLocation::Inside,
        (PlaneCmp::Zero, PlaneCmp::Pos, PlaneCmp::Zero) => PointLocation::Corner(0),
        (PlaneCmp::Zero, PlaneCmp::Zero, PlaneCmp::Pos) => PointLocation::Corner(1),
        (PlaneCmp::Pos, PlaneCmp::Zero, PlaneCmp::Zero) => PointLocation::Corner(2),
        (PlaneCmp::Zero, PlaneCmp::Pos, PlaneCmp::Pos) => PointLocation::Edge(0, 1),
        (PlaneCmp::Pos, PlaneCmp::Zero, PlaneCmp::Pos) => PointLocation::Edge(1, 2),
        (PlaneCmp::Pos, PlaneCmp::Pos, PlaneCmp::Zero) => PointLocation::Edge(2, 0),
        _ => PointLocation::Outside,
    }
}

/// A location never names a corner or edge index outside `0..3`, and an edge joins
/// two different corners.
pub proof fn lemma_location_indices(cmps: [PlaneCmp; 3])
    ensures
        location_of(cmps) matches PointLocation::Corner(i) ==> i < 3,
        location_of(cmps) matches PointLocation::Edge(i0, i1) ==> i0 < 3 && i1 < 3 && i0 != i1,
{
}

/// What the three plane tests say about a point: it is strictly inside exactly when it
/// is in front of all three edge planes; behind any plane it is outside; it is on
/// corner `i` exactly when it lies on the two planes through that corner (planes `i`
/// and `i + 2`) and in front of the third; it is on the edge from `i0` to `i1`
/// exactly when `i1` follows `i0`, the point lies on that edge's plane `i0` and in
/// front of the other two.
pub proof fn lemma_location_meaning(c: [PlaneCmp; 3])
    ensures
        location_of(c) == PointLocation::Inside <==> (c[0] == PlaneCmp::Pos && c[1] == PlaneCmp::Pos
            && c[2] == PlaneCmp::Pos),
        (exists|k: int| 0 <= k < 3 && #[trigger] c[k] == PlaneCmp::Neg) ==> location_of(c)
            == PointLocation::Outside,
        forall|i: usize|
            i < 3 ==> (#[trigger] location_of(c) == PointLocation::Corner(i) <==> (c[i as int]
                == PlaneCmp::Zero && c[((i + 2) % 3) as int] == PlaneCmp::Zero && c[((i + 1)
                % 3) as int] == PlaneCmp::Pos)),
        forall|i: usize|
            i >= 3 ==> #[trigger] location_of(c) != PointLocation::Corner(i),
        forall|i0: usize, i1: usize|
            #[trigger] location_of(c) == PointLocation::Edge(i0, i1) <==> (i0 < 3 && i1 == (i0 + 1)
                % 3 && c[i0 as int] == PlaneCmp::Zero && c[i1 as int] == PlaneCmp::Pos && c[((i0
                + 2) % 3) as int] == PlaneCmp::Pos),
{
}

/// `2^s` as a `u32`.
pub(crate) fn grid_size(subdivisions: u32) -> (n: u32)
    requires
        subdivisions < 32,
    ensures
        n == pow2(subdivisions as nat),
        n > 0,
{
    proof {
        lemma_u32_pow2_no_overflow(subdivisions as nat);
        lemma_u32_shl_is_mul(1, subdivisions);
    }
    1u32 << subdivisions
}

/// Grid weights of corner `i` at `subdivisions` levels: `2^subdivisions` on that corner.
pub fn corner_weights(i: usize, subdivisions: u32) -> (w: [u32; 3])
    requires
        i < 3,
        subdivisions < 32,
    ensures
        forall|k: int| 0 <= k < 3 ==> w[k] == (if k == i { pow2(subdivisions as nat) } else { 0 }),
        weight_sum(w) == pow2(subdivisions as nat),
{
    let mut weights = [0u32; 3];
    weights[i] = grid_size(subdivisions);
    weights
}

/// Grid weights of a point on the edge from corner `i0` to corner `i1`, `wi1` grid
/// steps away from `i0` out of `2^subdivisions`.
pub fn edge_weights(i0: usize, i1: usize, wi1: u32, subdivisions: u32) -> (w: [u32; 3])
    requires
        i0 < 3,
        i1 < 3,
        i0 != i1,
        subdivisions < 32,
        wi1 <= pow2(subdivisions as nat),
    ensures
        w[i0 as int] == pow2(subdivisions as nat) - wi1,
        w[i1 as int] == wi1,
        forall|k: int| 0 <= k < 3 && k != i0 && k != i1 ==> w[k] == 0,
        weight_sum(w) == pow2(subdivisions as nat),
{
    let wi0 = grid_size(subdivisions) - wi1;
    let mut weights = [0u32; 3];
    weights[i0] = wi0;
    weights[i1] = wi1;
    weights
}

/// Corners of the four sub-triangles of a triangle split at its edge midpoints, as
/// weights on the parent grid at twice the resolution: the three outer triangles
/// keep one parent corner each, the inner one joins the three midpoints.
pub const SUB_TRIANGLE_CORNERS: [[[u32; 3]; 3]; 4] = [
    [[2, 0, 0], [1, 1, 0], [1, 0, 1]],
    [[0, 2, 0], [0, 1, 1], [1, 1, 0]],
    [[0, 0, 2], [1, 0, 1], [0, 1, 1]],
    [[1, 1, 0], [0, 1, 1], [1, 0, 1]],
];

/// Weight `j` on the parent grid of the point with weights `child` on sub-triangle `t`.
pub open spec fn parent_weight(child: [u32; 3], t: int, j: int) -> int {
    child[0] * SUB_TRIANGLE_CORNERS[t][0][j] + child[1] * SUB_TRIANGLE_CORNERS[t][1][j]
        + child[2] * SUB_TRIANGLE_CORNERS[t][2][j]
}

/// Converts weights on sub-triangle `sub_triangle` back to the parent grid.
pub fn to_parent_weights(child: [u32; 3], sub_triangle: usize) -> (w: [u32; 3])
    requires
        sub_triangle < 4,
        2 * weight_sum(child) <= u32::MAX,
    ensures
        forall|j: int| 0 <= j < 3 ==> w[j] == parent_weight(child, sub_triangle as int, j),
        weight_sum(w) == 2 * weight_sum(child),
{
    let relative = SUB_TRIANGLE_CORNERS[sub_triangle];
    let mut weights = [0u32; 3];
    let mut k: usize = 0;
    while k < 3
        invariant
            k <= 3,
            sub_triangle < 4,
            2 * weight_sum(child) <= u32::MAX,
            relative == SUB_TRIANGLE_CORNERS[sub_triangle as int],
            forall|j: int|
                0 <= j < 3 ==> weights[j] == (if k > 0 {
                    child[0] * relative[0][j]
                } else {
                    0
                }) + (if k > 1 {
                    child[1] * relative[1][j]
                } else {
                    0
                }) + (if k > 2 {
                    child[2] * relative[2][j]
                } else {
                    0
                }),
        decreases 3 - k,
    {
        let cw = child[k];
        let r = relative[k];
        let mut j: usize = 0;
        while j < 3
            invariant
                k < 3,
                j <= 3,
                sub_triangle < 4,
                2 * weight_sum(child) <= u32::MAX,
                relative == SUB_TRIANGLE_CORNERS[sub_triangle as int],
                cw == child[k as int],
                r == relative[k as int],
                forall|jj: int|
                    0 <= jj < 3 ==> weights[jj] == (if k > 0 {
                        child[0] * relative[0][jj]
                    } else {
                        0
                    }) + (if k > 1 {
                        child[1] * relative[1][jj]
                    } else {
                        0
                    }) + (if k > 2 {
                        child[2] * relative[2][jj]
                    } else {
                        0
                    }) + (if jj < j {
                        child[k as int] * relative[k as int][jj]
                    } else {
                        0
                    }),
            decreases 3 - j,
        {
            proof {
                lemma_sub_triangle_entries(sub_triangle as int);
                lemma_partial_parent_bound(child, sub_triangle as int, k as int, j as int);
            }
            weights[j] = weights[j] + cw * r[j];
            j = j + 1;
        }
        k = k + 1;
    }
    proof {
        lemma_parent_sum(child, sub_triangle as int);
    }
    weights
}

/// The corner table holds only `0`, `1` and `2`, and each sub-triangle corner sums to `2`.
proof fn lemma_sub_triangle_entries(t: int)
    requires
        0 <= t < 4,
    ensures
        forall|k: int, j: int|
            0 <= k < 3 && 0 <= j < 3 ==> #[trigger] SUB_TRIANGLE_CORNERS[t][k][j] <= 2,
        forall|k: int|
            0 <= k < 3 ==> #[trigger] SUB_TRIANGLE_CORNERS[t][k][0] + SUB_TRIANGLE_CORNERS[t][k][1]
                + SUB_TRIANGLE_CORNERS[t][k][2] == 2,
{
}

/// Partial parent weights stay within `2 * weight_sum(child)`.
proof fn lemma_partial_parent_bound(child: [u32; 3], t: int, k: int, j: int)
    requires
        0 <= t < 4,
        0 <= k < 3,
        0 <= j < 3,
    ensures
        (if k > 0 {
            child[0] * SUB_TRIANGLE_CORNERS[t][0][j]
        } else {
            0
        }) + (if k > 1 {
            child[1] * SUB_TRIANGLE_CORNERS[t][1][j]
        } else {
            0
        }) + child[k] * SUB_TRIANGLE_CORNERS[t][k][j] <= 2 * weight_sum(child),
{
    lemma_sub_triangle_entries(t);
    let a = SUB_TRIANGLE_CORNERS[t][0][j];
    let b = SUB_TRIANGLE_CORNERS[t][1][j];
    let c = SUB_TRIANGLE_CORNERS[t][2][j];
    assert(child[0] * a <= 2 * child[0]) by (nonlinear_arith)
        requires a <= 2;
    assert(child[1] * b <= 2 * child[1]) by (nonlinear_arith)
        requires b <= 2;
    assert(child[2] * c <= 2 * child[2]) by (nonlinear_arith)
        requires c <= 2;
}

/// The parent weights of a sub-triangle point sum to twice its child weights.
proof fn lemma_parent_sum(child: [u32; 3], t: int)
    requires
        0 <= t < 4,
    ensures
        parent_weight(child, t, 0) + parent_weight(child, t, 1) + parent_weight(child, t, 2) == 2
            * weight_sum(child),
{
    lemma_sub_triangle_entries(t);
    let r = SUB_TRIANGLE_CORNERS[t];
    assert(r[0][0] + r[0][1] + r[0][2] == 2);
    assert(r[1][0] + r[1][1] + r[1][2] == 2);
    assert(r[2][0] + r[2][1] + r[2][2] == 2);
    assert(child[0] * r[0][0] + child[0] * r[0][1] + child[0] * r[0][2] == child[0] * 2)
        by (nonlinear_arith)
        requires r[0][0] + r[0][1] + r[0][2] == 2;
    assert(child[1] * r[1][0] + child[1] * r[1][1] + child[1] * r[1][2] == child[1] * 2)
        by (nonlinear_arith)
        requires r[1][0] + r[1][1] + r[1][2] == 2;
    assert(child[2] * r[2][0] + child[2] * r[2][1] + child[2] * r[2][2] == child[2] * 2)
        by (nonlinear_arith)
        requires r[2][0] + r[2][1] + r[2][2] == 2;
}

/// `child` on sub-triangle `t` is the parent grid point `parent`.
pub open spec fn maps_to_parent(child: [u32; 3], t: int, parent: [u32; 3]) -> bool {
    forall|j: int| 0 <= j < 3 ==> #[trigger] parent_weight(child, t, j) == parent[j]
}

/// The four sub-triangles cover the parent grid: every parent grid point whose
/// weights sum to `2 * m` is the image of a point of sub-triangle `t` whose weights
/// sum to `m` (an outer triangle when one weight is at least `m`, the inner one
/// otherwise).
pub proof fn lemma_sub_triangles_cover(parent: [u32; 3], m: int)
    requires
        weight_sum(parent) == 2 * m,
    ensures
        exists|t: int, child: [u32; 3]|
            0 <= t < 4 && weight_sum(child) == m && #[trigger] maps_to_parent(child, t, parent),
{
    let (a, b, c) = (parent[0] as int, parent[1] as int, parent[2] as int);
    if a >= m {
        let child = [(a - m) as u32, b as u32, c as u32];
        assert(parent_weight(child, 0, 0) == parent[0]);
        assert(parent_weight(child, 0, 1) == parent[1]);
        assert(parent_weight(child, 0, 2) == parent[2]);
        assert(maps_to_parent(child, 0, parent));
    } else if b >= m {
        let child = [(b - m) as u32, c as u32, a as u32];
        assert(parent_weight(child, 1, 0) == parent[0]);
        assert(parent_weight(child, 1, 1) == parent[1]);
        assert(parent_weight(child, 1, 2) == parent[2]);
        assert(maps_to_parent(child, 1, parent));
    } else if c >= m {
        let child = [(c - m) as u32, a as u32, b as u32];
        assert(parent_weight(child, 2, 0) == parent[0]);
        assert(parent_weight(child, 2, 1) == parent[1]);
        assert(parent_weight(child, 2, 2) == parent[2]);
        assert(maps_to_parent(child, 2, parent));
    } else {
        let child = [(m - c) as u32, (m - a) as u32, (m - b) as u32];
        assert(parent_weight(child, 3, 0) == parent[0]);
        assert(parent_weight(child, 3, 1) == parent[1]);
        assert(parent_weight(child, 3, 2) == parent[2]);
        assert(maps_to_parent(child, 3, parent));
    }
}

/// Snaps rounded grid numerators (each distance times `2^subdivisions`, rounded) to
/// the grid of a triangle subdivided `subdivisions` times: `None` when one of them is
/// outside `0..=2^subdivisions`. When all are inside they must sum to `2^subdivisions`.
pub fn snap_numerators(numerators: [i32; 3], subdivisions: u32) -> (r: Option<[u32; 3]>)
    requires
        subdivisions <= 30,
        (forall|k: int| 0 <= k < 3 ==> 0 <= #[trigger] numerators[k] <= pow2(subdivisions as nat))
            ==> numerators[0] + numerators[1] + numerators[2] == pow2(subdivisions as nat),
    ensures
        (forall|k: int| 0 <= k < 3 ==> 0 <= #[trigger] numerators[k] <= pow2(subdivisions as nat))
            ==> r == Some([numerators[0] as u32, numerators[1] as u32, numerators[2] as u32]),
        !(forall|k: int| 0 <= k < 3 ==> 0 <= #[trigger] numerators[k] <= pow2(subdivisions as nat))
            ==> r is None,
{
    proof {
        if subdivisions < 30 {
            vstd::arithmetic::power2::lemma_pow2_strictly_increases(subdivisions as nat, 30);
        }
        vstd::arithmetic::power2::lemma2_to64();
    }
    let denom = grid_size(subdivisions) as i32;
    let mut k: usize = 0;
    while k < 3
        invariant
            k <= 3,
            denom == pow2(subdivisions as nat),
            forall|j: int| 0 <= j < k ==> 0 <= #[trigger] numerators[j] <= denom,
        decreases 3 - k,
    {
        if numerators[k] < 0 || numerators[k] > denom {
            return None;
        }
        k = k + 1;
    }
    Some([numerators[0] as u32, numerators[1] as u32, numerators[2] as u32])
}

impl BaryIterative {
    /// The coordinate with the given weights on the grid of a triangle subdivided
    /// `subdivisions` times (denominator `2^subdivisions`).
    pub fn on_subdivision_grid(weights: [u32; 3], subdivisions: u32) -> (b: Self)
        requires
            subdivisions < 32,
        ensures
            b.weights == weights,
            b.denominator == pow2(subdivisions as nat),
            weight_sum(weights) == pow2(subdivisions as nat) ==> b.on_grid(),
    {
        BaryIterative { weights, denominator: grid_size(subdivisions) }
    }
}

/// Where the descent through ever smaller sub-triangles stops: on a corner of the
/// last triangle, or on its edge from `i0` to `i1`, `wi1` grid steps away from `i0`.
#[derive(Clone, Copy, Debug, PartialEq, Eq, Structural)]
pub enum DescentEnd {
    Corner(usize),
    Edge(usize, usize, u32),
}

/// The end is a real corner or edge of a triangle whose grid has `2^level` steps.
pub open spec fn end_valid(end: DescentEnd, level: nat) -> bool {
    match end {
        DescentEnd::Corner(i) => i < 3,
        DescentEnd::Edge(i0, i1, wi1) => i0 < 3 && i1 < 3 && i0 != i1 && wi1 <= pow2(level),
    }
}

/// Weights of the end point on the grid of its own triangle, `2^level` steps a side.
pub open spec fn end_weights(end: DescentEnd, level: nat) -> [u32; 3] {
    match end {
        DescentEnd::Corner(i) => [
            (if i == 0 { pow2(level) } else { 0 }) as u32,
            (if i == 1 { pow2(level) } else { 0 }) as u32,
            (if i == 2 { pow2(level) } else { 0 }) as u32,
        ],
        DescentEnd::Edge(i0, i1, wi1) => [
            (if i0 == 0 { pow2(level) - wi1 } else if i1 == 0 { wi1 as int } else { 0 }) as u32,
            (if i0 == 1 { pow2(level) - wi1 } else if i1 == 1 { wi1 as int } else { 0 }) as u32,
            (if i0 == 2 { pow2(level) - wi1 } else if i1 == 2 { wi1 as int } else { 0 }) as u32,
        ],
    }
}

/// A descent from a triangle subdivided `subdivisions` times: each step of `path` picks
/// one of the four sub-triangles, at most `subdivisions` of them, and the end lies on
/// the last triangle, whose grid has `2^(subdivisions - path.len())` steps.
pub open spec fn descent_valid(path: Seq<usize>, end: DescentEnd, subdivisions: nat) -> bool {
    &&& subdivisions < 32
    &&& path.len() <= subdivisions
    &&& forall|k: int| 0 <= k < path.len() ==> #[trigger] path[k] < 4
    &&& end_valid(end, (subdivisions - path.len()) as nat)
}

/// The parent grid point of `child` on sub-triangle `t`.
pub open spec fn parent_point(child: [u32; 3], t: int) -> [u32; 3] {
    [
        parent_weight(child, t, 0) as u32,
        parent_weight(child, t, 1) as u32,
        parent_weight(child, t, 2) as u32,
    ]
}

/// Weights, on the grid of the top triangle, of the point the descent ends on: the end
/// point taken back up through each sub-triangle of the path, innermost first.
pub open spec fn descent_weights(path: Seq<usize>, end: DescentEnd, subdivisions: nat) -> [u32; 3]
    decreases path.len(),
{
    if path.len() == 0 {
        end_weights(end, subdivisions)
    } else {
        parent_point(
            descent_weights(path.drop_first(), end, (subdivisions - 1) as nat),
            path[0] as int,
        )
    }
}

/// The end point of a descent is a point of the top triangle's grid: its weights sum
/// to `2^subdivisions`.
pub proof fn lemma_descent_on_grid(path: Seq<usize>, end: DescentEnd, subdivisions: nat)
    requires
        descent_valid(path, end, subdivisions),
    ensures
        weight_sum(descent_weights(path, end, subdivisions)) == pow2(subdivisions),
    decreases path.len(),
{
    if path.len() == 0 {
        vstd::arithmetic::power2::lemma_pow2_strictly_increases(subdivisions, 32);
        vstd::arithmetic::power2::lemma2_to64();
    } else {
        let rest = path.drop_first();
        let s1 = (subdivisions - 1) as nat;
        assert(descent_valid(rest, end, s1)) by {
            assert forall|k: int| 0 <= k < rest.len() implies #[trigger] rest[k] < 4 by {
                assert(path[k + 1] < 4);
            }
        }
        lemma_descent_on_grid(rest, end, s1);
        let child = descent_weights(rest, end, s1);
        vstd::arithmetic::power2::lemma_pow2_unfold(subdivisions);
        vstd::arithmetic::power2::lemma_pow2_strictly_increases(subdivisions, 32);
        vstd::arithmetic::power2::lemma2_to64();
        assert(path[0] < 4);
        lemma_parent_sum(child, path[0] as int);
        lemma_parent_bounds(child, path[0] as int);
    }
}

/// Each parent weight is nonnegative and at most twice the child sum.
proof fn lemma_parent_bounds(child: [u32; 3], t: int)
    requires
        0 <= t < 4,
    ensures
        forall|j: int| 0 <= j < 3 ==> 0 <= #[trigger] parent_weight(child, t, j) <= 2 * weight_sum(child),
{
    assert forall|j: int| 0 <= j < 3 implies 0 <= #[trigger] parent_weight(child, t, j) <= 2
        * weight_sum(child) by {
        lemma_partial_parent_bound(child, t, 2, j);
        lemma_sub_triangle_entries(t);
        let a = SUB_TRIANGLE_CORNERS[t][0][j];
        let b = SUB_TRIANGLE_CORNERS[t][1][j];
        let c = SUB_TRIANGLE_CORNERS[t][2][j];
        assert(0 <= child[0] * a) by (nonlinear_arith);
        assert(0 <= child[1] * b) by (nonlinear_arith);
        assert(0 <= child[2] * c) by (nonlinear_arith);
    }
}

/// The grid point a descent ends on, on the grid of the top triangle (denominator
/// `2^subdivisions`): the end point's weights on the last triangle, taken back up
/// through the path's sub-triangles.
pub fn descend(path: &Vec<usize>, end: DescentEnd, subdivisions: u32) -> (b: BaryIterative)
    requires
        descent_valid(path@, end, subdivisions as nat),
    ensures
        b.weights == descent_weights(path@, end, subdivisions as nat),
        b.denominator == pow2(subdivisions as nat),
        b.on_grid(),
{
    let n = path.len();
    let bottom = subdivisions - n as u32;
    let mut w = match end {
        DescentEnd::Corner(i) => corner_weights(i, bottom),
        DescentEnd::Edge(i0, i1, wi1) => edge_weights(i0, i1, wi1, bottom),
    };
    proof {
        assert(w == end_weights(end, bottom as nat));
        assert(path@.subrange(n as int, n as int) =~= Seq::<usize>::empty());
        lemma_descent_on_grid(path@.subrange(n as int, n as int), end, bottom as nat);
    }
    let mut k: usize = n;
    while k > 0
        invariant
            k <= n,
            n == path@.len(),
            bottom == subdivisions - n,
            descent_valid(path@, end, subdivisions as nat),
            w == descent_weights(path@.subrange(k as int, n as int), end, (bottom + (n - k)) as nat),
            weight_sum(w) == pow2((bottom + (n - k)) as nat),
        decreases k,
    {
        let ghost level = (bottom + (n - k) + 1) as nat;
        let ghost above = path@.subrange(k - 1, n as int);
        proof {
            assert(path[k - 1] < 4);
            assert(above.drop_first() =~= path@.subrange(k as int, n as int));
            assert(descent_valid(above, end, level)) by {
                assert forall|j: int| 0 <= j < above.len() implies #[trigger] above[j] < 4 by {
                    assert(path[k - 1 + j] < 4);
                }
            }
            vstd::arithmetic::power2::lemma_pow2_unfold(level);
            vstd::arithmetic::power2::lemma_pow2_strictly_increases(level, 32);
            vstd::arithmetic::power2::lemma2_to64();
            lemma_parent_bounds(w, path[k - 1] as int);
        }
        w = to_parent_weights(w, path[k - 1]);
        k = k - 1;
        proof {
            assert(w == parent_point(descent_weights(above.drop_first(), end, (level - 1) as nat), above[0] as int));
        }
    }
    proof {
        assert(path@.subrange(0, n as int) =~= path@);
    }
    BaryIterative::on_subdivision_grid(w, subdivisions)
}

} // verus!
