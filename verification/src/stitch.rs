use vstd::prelude::*;
use vstd::arithmetic::power2::pow2;

use crate::bary_iterative::{
    BaryIterative, weight_sum, mesh_index, grid_point_count, lerp_bary, lerp_on_grid,
    lemma_lerp_stays_on_grid,
};
use crate::mesh::{MESH_STEPS, lemma_mesh_index_in_range};
use crate::ratio::{GridRatio, lemma_reduced_value};

verus! {

/// Where an overridden mesh vertex takes its position from, on the base mesh of an
/// adjacent chunk at a lower level of detail.
#[derive(Clone, Copy, Debug, PartialEq, Eq, Structural)]
pub enum VertexSource {
    /// The adjacent mesh vertex at this slot.
    Vertex(u32),
    /// The point `t` of the way from the vertex at slot `from` to the one at `to`.
    Blend { from: u32, to: u32, t: GridRatio },
}

/// Replace the vertex at mesh slot `index` with the position given by `source`.
#[derive(Clone, Copy, Debug, PartialEq, Eq, Structural)]
pub struct MeshOverride {
    pub index: u32,
    pub source: VertexSource,
}

/// The weights of `b` moved `n` times by `step`.
pub open spec fn walked(b: BaryIterative, step: [i32; 3], n: int) -> Seq<int> {
    seq![b.weights[0] + step[0] * n, b.weights[1] + step[1] * n, b.weights[2] + step[2] * n]
}

/// After `n` steps the point is still inside the triangle and lies on the grid that
/// is `2^r` times coarser.
pub open spec fn lands_on_coarse_grid(b: BaryIterative, step: [i32; 3], n: int, r: u32) -> bool {
    &&& forall|k: int| 0 <= k < 3 ==> 0 <= #[trigger] walked(b, step, n)[k] <= b.denominator
    &&& forall|k: int| 0 <= k < 3 ==> #[trigger] walked(b, step, n)[k] % pow2(r as nat) as int == 0
}

/// The least number of steps in `n..limit` after which the point lands on the
/// coarse grid, if any.
pub open spec fn first_landing(b: BaryIterative, step: [i32; 3], r: u32, n: int, limit: int) -> Option<
    int,
>
    decreases limit - n,
{
    if n >= limit {
        None
    } else if lands_on_coarse_grid(b, step, n, r) {
        Some(n)
    } else {
        first_landing(b, step, r, n + 1, limit)
    }
}

/// `|d[k]| <= bound` for every component.
pub open spec fn step_bounded(d: [i32; 3], bound: int) -> bool {
    -bound <= d[0] <= bound && -bound <= d[1] <= bound && -bound <= d[2] <= bound
}

/// The weights of `b` moved `n` times by `step`, as a grid coordinate.
pub open spec fn walked_bary(b: BaryIterative, step: [i32; 3], n: int) -> BaryIterative {
    BaryIterative {
        weights: [
            walked(b, step, n)[0] as u32,
            walked(b, step, n)[1] as u32,
            walked(b, step, n)[2] as u32,
        ],
        denominator: b.denominator,
    }
}

/// Walks from `b` by `step` until the point lands on the grid `2^r` times coarser,
/// trying `0..limit` steps, and returns the number of steps.
pub fn find_landing(b: BaryIterative, step: [i32; 3], r: u32, limit: u32) -> (res: Option<u32>)
    requires
        b.on_grid(),
        r < 32,
        step[0] + step[1] + step[2] == 0,
        step_bounded(step, b.denominator as int),
        b.denominator * (limit + 1) <= i32::MAX,
        limit <= 0x8000_0000u32,
    ensures
        match first_landing(b, step, r, 0, limit as int) {
            Some(n) => res == Some(n as u32),
            None => res is None,
        },
{
    let mut n: u32 = 0;
    while n < limit
        invariant
            b.on_grid(),
            r < 32,
            step[0] + step[1] + step[2] == 0,
            step_bounded(step, b.denominator as int),
            b.denominator * (limit + 1) <= i32::MAX,
            limit <= 0x8000_0000u32,
            n <= limit,
            first_landing(b, step, r, 0, limit as int) == first_landing(
                b,
                step,
                r,
                n as int,
                limit as int,
            ),
        decreases limit - n,
    {
        let moved = scale_step(step, n, b.denominator, limit);
        proof {
            assert(BaryIterative::moved(b.weights, moved) =~= walked(b, step, n as int));
            assert(b.denominator + b.denominator * limit == b.denominator * (limit + 1))
                by (nonlinear_arith);
            assert(walked(b, step, n as int)[0] <= i32::MAX);
            assert(walked(b, step, n as int)[1] <= i32::MAX);
            assert(walked(b, step, n as int)[2] <= i32::MAX);
        }
        if let Some(c) = b.checked_add(moved) {
            proof {
                assert(walked(b, step, n as int)[0] == c.weights[0]);
                assert(walked(b, step, n as int)[1] == c.weights[1]);
                assert(walked(b, step, n as int)[2] == c.weights[2]);
                assert(weight_sum(BaryIterative::div_weights(c.weights, r)) <= weight_sum(c.weights))
                    by {
                    vstd::arithmetic::power2::lemma_pow2_pos(r as nat);
                    vstd::arithmetic::div_mod::lemma_div_is_ordered_by_denominator(
                        c.weights[0] as int,
                        1,
                        pow2(r as nat) as int,
                    );
                    vstd::arithmetic::div_mod::lemma_div_is_ordered_by_denominator(
                        c.weights[1] as int,
                        1,
                        pow2(r as nat) as int,
                    );
                    vstd::arithmetic::div_mod::lemma_div_is_ordered_by_denominator(
                        c.weights[2] as int,
                        1,
                        pow2(r as nat) as int,
                    );
                }
            }
            if c.downsample(r).is_some() {
                return Some(n);
            }
        }
        n = n + 1;
    }
    None
}

/// `step * n`, componentwise.
fn scale_step(step: [i32; 3], n: u32, bound: u32, limit: u32) -> (moved: [i32; 3])
    requires
        step_bounded(step, bound as int),
        n < limit,
        limit <= 0x8000_0000u32,
        bound * (limit + 1) <= i32::MAX,
    ensures
        moved[0] == step[0] * n && moved[1] == step[1] * n && moved[2] == step[2] * n,
        moved[0] + moved[1] + moved[2] == (step[0] + step[1] + step[2]) * n,
        step_bounded(moved, bound * limit),
{
    proof {
        assert forall|k: int| 0 <= k < 3 implies -(bound * limit) <= #[trigger] step[k] * n <= bound
            * limit by {
            let s = step[k] as int;
            assert(-(bound * limit) <= s * n <= bound * limit) by (nonlinear_arith)
                requires -bound <= s <= bound, 0 <= n < limit, bound >= 0;
        }
        assert(bound * limit <= bound * (limit + 1)) by (nonlinear_arith)
            requires bound >= 0;
        assert(step[0] * n + step[1] * n + step[2] * n == (step[0] + step[1] + step[2]) * n)
            by (nonlinear_arith);
    }
    let n = n as i32;
    [step[0] * n, step[1] * n, step[2] * n]
}


/// Mesh slot of `b` on the grid `2^r` times coarser, if it lies on that grid.
pub open spec fn coarse_slot(b: BaryIterative, r: u32) -> Option<u32> {
    if BaryIterative::divisible_by_pow2(b.weights, r) {
        let w = BaryIterative::div_weights(b.weights, r);
        Some(mesh_index(w[0] as int, w[2] as int, weight_sum(w)) as u32)
    } else {
        None
    }
}

/// Mesh slot, on the grid `2^r` times coarser, of the point `top / bot` of the way
/// from `e0` to `e1`; `None` when that point is not on the line segment's grid or
/// not on the coarse grid.
pub open spec fn sample_slot_spec(
    e0: BaryIterative,
    e1: BaryIterative,
    top: u32,
    bot: u32,
    r: u32,
) -> Option<u32> {
    let q = GridRatio::reduced(top, bot);
    if lerp_on_grid(e0, e1, q) {
        coarse_slot(lerp_bary(e0, e1, q), r)
    } else {
        None
    }
}

/// `x` is a multiple of `d` exactly when `-x` is.
proof fn lemma_neg_divisible(x: int, d: int)
    requires
        d > 0,
    ensures
        x % d == 0 <==> (-x) % d == 0,
{
    vstd::arithmetic::div_mod::lemma_fundamental_div_mod(x, d);
    vstd::arithmetic::div_mod::lemma_fundamental_div_mod(-x, d);
    if x % d == 0 {
        let q = x / d;
        assert(-x == (-q) * d) by (nonlinear_arith)
            requires x == d * q;
        vstd::arithmetic::div_mod::lemma_mod_multiples_basic(-q, d);
    }
    if (-x) % d == 0 {
        let q = (-x) / d;
        assert(x == (-q) * d) by (nonlinear_arith)
            requires -x == d * q;
        vstd::arithmetic::div_mod::lemma_mod_multiples_basic(-q, d);
    }
}

/// Mesh slot, on the grid `2^r` times coarser, of the point `top / bot` of the way
/// from `e0` to `e1` (a sample along an edge of an adjacent mesh).
pub fn sample_slot(e0: BaryIterative, e1: BaryIterative, top: u32, bot: u32, r: u32) -> (slot:
    Option<u32>)
    requires
        e0.on_grid(),
        e1.on_grid(),
        e0.denominator == e1.denominator,
        e0.denominator <= 32768,
        e0.denominator * bot <= i32::MAX,
        0 < bot <= i32::MAX,
        r < 32,
    ensures
        slot == sample_slot_spec(e0, e1, top, bot, r),
{
    let q = GridRatio::new(top, bot);
    proof {
        lemma_reduced_value(top, bot);
    }
    if q.numer > q.denom {
        return None;
    }
    let mut k: usize = 0;
    while k < 3
        invariant
            k <= 3,
            q.denom > 0,
            q == GridRatio::reduced(top, bot),
            forall|j: int|
                0 <= j < k ==> (#[trigger] e1.weights[j] - e0.weights[j]) % (q.denom as int) == 0,
        decreases 3 - k,
    {
        let a = e0.weights[k];
        let b = e1.weights[k];
        let dist = if a <= b {
            b - a
        } else {
            a - b
        };
        proof {
            lemma_neg_divisible(b - a, q.denom as int);
        }
        if dist % q.denom != 0 {
            assert((e1.weights[k as int] - e0.weights[k as int]) % (q.denom as int) != 0);
            assert(!lerp_on_grid(e0, e1, q));
            return None;
        }
        k = k + 1;
    }
    proof {
        lemma_lerp_stays_on_grid(e0, e1, q);
        assert forall|j: int| 0 <= j < 3 implies -i32::MAX <= (#[trigger] e1.weights[j]
            - e0.weights[j]) * q.numer <= i32::MAX by {
            let x = e1.weights[j] - e0.weights[j];
            let n = q.numer as int;
            let dd = e0.denominator as int;
            assert(-i32::MAX <= x * n <= i32::MAX) by (nonlinear_arith)
                requires -dd <= x <= dd, 0 <= n <= bot, dd * bot <= i32::MAX;
        }
    }
    let l = e0.lerp(&e1, q);
    assert(l.weights =~= lerp_bary(e0, e1, q).weights);
    assert(l == lerp_bary(e0, e1, q));
    proof {
        assert(weight_sum(BaryIterative::div_weights(l.weights, r)) <= weight_sum(l.weights)) by {
            vstd::arithmetic::power2::lemma_pow2_pos(r as nat);
            vstd::arithmetic::div_mod::lemma_div_is_ordered_by_denominator(
                l.weights[0] as int,
                1,
                pow2(r as nat) as int,
            );
            vstd::arithmetic::div_mod::lemma_div_is_ordered_by_denominator(
                l.weights[1] as int,
                1,
                pow2(r as nat) as int,
            );
            vstd::arithmetic::div_mod::lemma_div_is_ordered_by_denominator(
                l.weights[2] as int,
                1,
                pow2(r as nat) as int,
            );
        }
    }
    match l.downsample(r) {
        None => None,
        Some(c) => {
            let index = coarse_index(c);
            Some(index)
        },
    }
}

/// Mesh slot of a grid point whose weights sum to at most `32768`.
fn coarse_index(c: BaryIterative) -> (i: u32)
    requires
        c.on_grid(),
        c.denominator <= 32768,
    ensures
        i == mesh_index(c.weights[0] as int, c.weights[2] as int, weight_sum(c.weights)),
{
    proof {
        let (x, y, z) = (c.weights[0] as int, c.weights[1] as int, c.weights[2] as int);
        let n = weight_sum(c.weights);
        lemma_mesh_index_in_range(x, y, z, n);
        crate::mesh::lemma_row_start_total(n);
        assert((2 * (n + 1) + 1 - z) * z <= (2 * n + 3) * n) by (nonlinear_arith)
            requires 0 <= z <= n;
        assert((2 * n + 3) * n <= 65539 * 32768) by (nonlinear_arith)
            requires 0 <= n <= 32768;
        assert((n + 1) * (n + 2) <= 32769 * 32770) by (nonlinear_arith)
            requires 0 <= n <= 32768;
    }
    c.to_mesh_index()
}


/// Slot, in a chunk's own mesh, of the point `i / MESH_STEPS` of the way along its
/// edge from `e0` to `e1`.
pub open spec fn own_slot(e0: BaryIterative, e1: BaryIterative, i: int) -> u32 {
    let b = lerp_bary(e0, e1, GridRatio::reduced(i as u32, MESH_STEPS));
    mesh_index(b.weights[0] as int, b.weights[2] as int, b.denominator as int) as u32
}

/// The override for step `i` along an edge whose ends, walked out to the adjacent
/// (coarser) mesh, are `ext0` and `ext1`, `bot` own steps apart, the start having been
/// walked `n0` own edges back. A step that lands on a coarse vertex takes it; one that
/// falls between two takes the blend of the two around it.
pub open spec fn edge_entry(
    self_e0: BaryIterative,
    self_e1: BaryIterative,
    ext0: BaryIterative,
    ext1: BaryIterative,
    n0: int,
    bot: u32,
    r: u32,
    i: int,
) -> Option<MeshOverride> {
    let ratio = pow2(r as nat) as int;
    let index = own_slot(self_e0, self_e1, i);
    let i_adj = i + n0 * MESH_STEPS;
    let d = i_adj / ratio;
    let rem = i_adj % ratio;
    if rem == 0 {
        match sample_slot_spec(ext0, ext1, (d * ratio) as u32, bot, r) {
            Some(slot) => Some(MeshOverride { index, source: VertexSource::Vertex(slot) }),
            None => None,
        }
    } else {
        match (
            sample_slot_spec(ext0, ext1, (d * ratio) as u32, bot, r),
            sample_slot_spec(ext0, ext1, ((d + 1) * ratio) as u32, bot, r),
        ) {
            (Some(from), Some(to)) => Some(
                MeshOverride {
                    index,
                    source: VertexSource::Blend {
                        from,
                        to,
                        t: GridRatio { numer: rem as u32, denom: ratio as u32 },
                    },
                },
            ),
            _ => None,
        }
    }
}

/// The overrides for steps `0..m`, or `None` if one of them has none.
pub open spec fn edge_entries(
    self_e0: BaryIterative,
    self_e1: BaryIterative,
    ext0: BaryIterative,
    ext1: BaryIterative,
    n0: int,
    bot: u32,
    r: u32,
    m: int,
) -> Option<Seq<MeshOverride>>
    decreases m,
{
    if m <= 0 {
        Some(Seq::empty())
    } else {
        match edge_entries(self_e0, self_e1, ext0, ext1, n0, bot, r, m - 1) {
            None => None,
            Some(p) => match edge_entry(self_e0, self_e1, ext0, ext1, n0, bot, r, m - 1) {
                None => None,
                Some(e) => Some(p.push(e)),
            },
        }
    }
}

/// The weight differences `b - a`, as `i32`.
pub open spec fn weight_diff(b: BaryIterative, a: BaryIterative) -> [i32; 3] {
    [
        (b.weights[0] - a.weights[0]) as i32,
        (b.weights[1] - a.weights[1]) as i32,
        (b.weights[2] - a.weights[2]) as i32,
    ]
}

/// Componentwise negation.
pub open spec fn negated(d: [i32; 3]) -> [i32; 3] {
    [(-d[0]) as i32, (-d[1]) as i32, (-d[2]) as i32]
}

/// How a chunk's edge from `self_e0` to `self_e1` (own grid) is stitched onto an
/// adjacent chunk `2^r` times coarser, on which the same corners are `sib_e0` and
/// `sib_e1` (on its grid refined `r` more times): both ends are walked outwards along
/// the edge until they reach a vertex of the coarse mesh, then every own step takes
/// its position from the coarse mesh. `None` when an end reaches no coarse vertex
/// within `2^r` steps, the edge is too long for its ends, or a sample falls off the
/// grid.
pub open spec fn edge_plan(
    self_e0: BaryIterative,
    self_e1: BaryIterative,
    sib_e0: BaryIterative,
    sib_e1: BaryIterative,
    r: u32,
) -> Option<Seq<MeshOverride>> {
    let ratio = pow2(r as nat) as int;
    let diff = weight_diff(sib_e1, sib_e0);
    let back = negated(diff);
    match (first_landing(sib_e0, back, r, 0, ratio), first_landing(sib_e1, diff, r, 0, ratio)) {
        (Some(n0), Some(n1)) => {
            let ext0 = walked_bary(sib_e0, back, n0);
            let ext1 = walked_bary(sib_e1, diff, n1);
            if (1 + n0 + n1) * MESH_STEPS > u32::MAX {
                None
            } else {
                let bot = ((1 + n0 + n1) * MESH_STEPS) as u32;
                edge_entries(self_e0, self_e1, ext0, ext1, n0, bot, r, MESH_STEPS + 1)
            }
        },
        _ => None,
    }
}

/// Once a step has no override, no longer prefix has one either.
proof fn lemma_edge_entries_none_stays(
    self_e0: BaryIterative,
    self_e1: BaryIterative,
    ext0: BaryIterative,
    ext1: BaryIterative,
    n0: int,
    bot: u32,
    r: u32,
    m: int,
    m2: int,
)
    requires
        m <= m2,
        edge_entries(self_e0, self_e1, ext0, ext1, n0, bot, r, m) is None,
    ensures
        edge_entries(self_e0, self_e1, ext0, ext1, n0, bot, r, m2) is None,
    decreases m2 - m,
{
    if m < m2 {
        lemma_edge_entries_none_stays(self_e0, self_e1, ext0, ext1, n0, bot, r, m, m2 - 1);
    }
}


/// A landing found by the search is within range and does land on the coarse grid.
proof fn lemma_first_landing_some(b: BaryIterative, step: [i32; 3], r: u32, n: int, limit: int)
    requires
        first_landing(b, step, r, n, limit) is Some,
    ensures
        n <= first_landing(b, step, r, n, limit)->0 < limit,
        lands_on_coarse_grid(b, step, first_landing(b, step, r, n, limit)->0, r),
    decreases limit - n,
{
    if n < limit && !lands_on_coarse_grid(b, step, n, r) {
        lemma_first_landing_some(b, step, r, n + 1, limit);
    }
}

/// The first landing is the least: no earlier step count lands.
proof fn lemma_first_landing_least(b: BaryIterative, step: [i32; 3], r: u32, n: int, limit: int, j: int)
    requires
        first_landing(b, step, r, n, limit) is Some,
        n <= j < first_landing(b, step, r, n, limit)->0,
    ensures
        !lands_on_coarse_grid(b, step, j, r),
    decreases limit - n,
{
    if n < limit && !lands_on_coarse_grid(b, step, n, r) && j > n {
        lemma_first_landing_least(b, step, r, n + 1, limit, j);
    }
}

/// The denominator of a reduced fraction divides the denominator it was reduced from.
proof fn lemma_reduced_denom_divides(n: u32, d: u32, x: int)
    requires
        d > 0,
        x % (d as int) == 0,
    ensures
        x % (GridRatio::reduced(n, d).denom as int) == 0,
{
    let g = crate::ratio::gcd(n as nat, d as nat);
    crate::ratio::lemma_gcd_divides(n as nat, d as nat);
    vstd::arithmetic::div_mod::lemma_fundamental_div_mod(d as int, g as int);
    vstd::arithmetic::div_mod::lemma_fundamental_div_mod(x, d as int);
    let q = GridRatio::reduced(n, d).denom as int;
    lemma_reduced_value(n, d);
    let k = x / (d as int);
    assert(d as int == g * q);
    assert(x == q * (g * k)) by (nonlinear_arith)
        requires x == (d as int) * k, d as int == g * q;
    vstd::arithmetic::div_mod::lemma_mod_multiples_basic(g * k, q);
    assert(q * (g * k) == (g * k) * q) by (nonlinear_arith);
}

/// Walking out from a grid point by a step that sums to zero keeps the weight sum.
proof fn lemma_walked_on_grid(b: BaryIterative, step: [i32; 3], n: int, r: u32)
    requires
        b.on_grid(),
        step[0] + step[1] + step[2] == 0,
        lands_on_coarse_grid(b, step, n, r),
    ensures
        walked_bary(b, step, n).on_grid(),
        walked_bary(b, step, n).denominator == b.denominator,
        forall|k: int| 0 <= k < 3 ==> walked_bary(b, step, n).weights[k] == #[trigger] walked(b, step, n)[k],
{
    let w = walked(b, step, n);
    assert(0 <= w[0] <= b.denominator && 0 <= w[1] <= b.denominator && 0 <= w[2] <= b.denominator);
    assert(step[0] * n + step[1] * n + step[2] * n == (step[0] + step[1] + step[2]) * n)
        by (nonlinear_arith);
    assert(0 * n == 0) by (nonlinear_arith);
}

/// How a chunk's edge is stitched onto an adjacent, coarser chunk: see [`edge_plan`].
/// `self_e0`/`self_e1` are the edge corners on the chunk's own grid, `sib_e0`/`sib_e1`
/// the same corners on the adjacent chunk's grid refined `subdivision_ratio` more
/// times.
///
/// The bounds on the denominators are those of a chunk world: a chunk's mesh grid has
/// denominator `2^MESH_SUBDIVISIONS` (4), and the adjacent grid `2^subdivision_ratio`
/// times that, where `subdivision_ratio` is the difference of the two chunks' levels.
/// Levels stop at six, so that denominator is at most `2^8` and the ratio at most `2^6`,
/// well inside `32768` (which keeps every mesh slot, about `n * n / 2` for weight sum
/// `n`, within `u32`). The edge is extended by `n0` and `n1` steps at its two ends,
/// each below the ratio, so the fraction along the extended edge has denominator
/// `(1 + n0 + n1) * MESH_STEPS`, at most `8 * ratio - 4`; the signed weight differences
/// (up to the denominator) times that fraction must fit in an `i32`, which is the last
/// bound. It also covers the walk out to the landing points, at most `ratio + 1` times
/// the denominator.
pub fn edge_overrides(
    self_e0: BaryIterative,
    self_e1: BaryIterative,
    sib_e0: BaryIterative,
    sib_e1: BaryIterative,
    subdivision_ratio: u32,
) -> (overrides: Option<Vec<MeshOverride>>)
    requires
        subdivision_ratio < 32,
        sib_e0.on_grid(),
        sib_e1.on_grid(),
        sib_e0.denominator == sib_e1.denominator,
        0 < sib_e0.denominator <= 32768,
        sib_e0.denominator * (8 * pow2(subdivision_ratio as nat) - 4) <= i32::MAX,
        self_e0.on_grid(),
        self_e1.on_grid(),
        self_e0.denominator == self_e1.denominator,
        self_e0.denominator <= 32768,
        forall|k: int|
            0 <= k < 3 ==> (#[trigger] self_e1.weights[k] - self_e0.weights[k]) % (MESH_STEPS as int)
                == 0,
    ensures
        match edge_plan(self_e0, self_e1, sib_e0, sib_e1, subdivision_ratio) {
            Some(p) => overrides matches Some(v) && v@ == p,
            None => overrides is None,
        },
{
    let r = subdivision_ratio;
    let ratio = crate::subdivision::grid_size(r);
    let ghost dd = sib_e0.denominator as int;
    proof {
        assert(ratio <= 0x1000_0000) by (nonlinear_arith)
            requires dd * (8 * ratio - 4) <= i32::MAX, dd >= 1;
        assert(dd * (ratio + 1) <= dd * (8 * ratio - 4)) by (nonlinear_arith)
            requires dd >= 1, ratio >= 1;
    }
    let diff = sib_e1.difference(sib_e0);
    let back = [-diff[0], -diff[1], -diff[2]];
    assert(diff == weight_diff(sib_e1, sib_e0));
    assert(back == negated(diff));
    let n0 = match find_landing(sib_e0, back, r, ratio) {
        Some(n) => n,
        None => return None,
    };
    let n1 = match find_landing(sib_e1, diff, r, ratio) {
        Some(n) => n,
        None => return None,
    };
    proof {
        lemma_first_landing_some(sib_e0, back, r, 0, ratio as int);
        lemma_first_landing_some(sib_e1, diff, r, 0, ratio as int);
        lemma_walked_on_grid(sib_e0, back, n0 as int, r);
        lemma_walked_on_grid(sib_e1, diff, n1 as int, r);
    }
    let ghost ext0_spec = walked_bary(sib_e0, back, n0 as int);
    let ghost ext1_spec = walked_bary(sib_e1, diff, n1 as int);
    let ext0 = walk(sib_e0, back, n0, ratio, r);
    let ext1 = walk(sib_e1, diff, n1, ratio, r);
    let bot = (1 + n0 + n1) * MESH_STEPS;
    proof {
        assert(bot <= 8 * ratio - 4);
        assert(dd * bot <= dd * (8 * ratio - 4)) by (nonlinear_arith)
            requires dd >= 0, bot <= 8 * ratio - 4;
    }
    assert(edge_plan(self_e0, self_e1, sib_e0, sib_e1, r) == edge_entries(
        self_e0,
        self_e1,
        ext0,
        ext1,
        n0 as int,
        bot,
        r,
        MESH_STEPS + 1,
    ));
    let mut overrides: Vec<MeshOverride> = Vec::new();
    let mut i: u32 = 0;
    while i <= MESH_STEPS
        invariant
            i <= MESH_STEPS + 1,
            ratio == pow2(r as nat),
            1 <= ratio <= 0x1000_0000,
            r < 32,
            r == subdivision_ratio,
            n0 < ratio,
            bot == (1 + n0 + n1) * MESH_STEPS,
            0 < bot < 8 * ratio,
            ext0.on_grid(),
            ext1.on_grid(),
            ext0.denominator == ext1.denominator,
            0 < ext0.denominator <= 32768,
            ext0.denominator * bot <= i32::MAX,
            self_e0.on_grid(),
            self_e1.on_grid(),
            self_e0.denominator == self_e1.denominator,
            self_e0.denominator <= 32768,
            forall|k: int|
                0 <= k < 3 ==> (#[trigger] self_e1.weights[k] - self_e0.weights[k]) % (
                MESH_STEPS as int) == 0,
            edge_entries(self_e0, self_e1, ext0, ext1, n0 as int, bot, r, i as int) == Some(
                overrides@,
            ),
            edge_plan(self_e0, self_e1, sib_e0, sib_e1, r) == edge_entries(
                self_e0,
                self_e1,
                ext0,
                ext1,
                n0 as int,
                bot,
                r,
                MESH_STEPS + 1,
            ),
        decreases MESH_STEPS + 1 - i,
    {
        match edge_step(self_e0, self_e1, ext0, ext1, n0, bot, ratio, r, i) {
            Some(entry) => {
                overrides.push(entry);
            },
            None => {
                proof {
                    assert(edge_entries(self_e0, self_e1, ext0, ext1, n0 as int, bot, r, i + 1)
                        is None);
                    lemma_edge_entries_none_stays(
                        self_e0,
                        self_e1,
                        ext0,
                        ext1,
                        n0 as int,
                        bot,
                        r,
                        i + 1,
                        MESH_STEPS + 1,
                    );
                }
                return None;
            },
        }
        i = i + 1;
    }
    Some(overrides)
}

/// The override for step `i` of [`edge_overrides`]: see [`edge_entry`].
fn edge_step(
    self_e0: BaryIterative,
    self_e1: BaryIterative,
    ext0: BaryIterative,
    ext1: BaryIterative,
    n0: u32,
    bot: u32,
    ratio: u32,
    r: u32,
    i: u32,
) -> (entry: Option<MeshOverride>)
    requires
        i <= MESH_STEPS,
        ratio == pow2(r as nat),
        1 <= ratio <= 0x1000_0000,
        r < 32,
        n0 < ratio,
        0 < bot <= i32::MAX,
        ext0.on_grid(),
        ext1.on_grid(),
        ext0.denominator == ext1.denominator,
        0 < ext0.denominator <= 32768,
        ext0.denominator * bot <= i32::MAX,
        self_e0.on_grid(),
        self_e1.on_grid(),
        self_e0.denominator == self_e1.denominator,
        self_e0.denominator <= 32768,
        forall|k: int|
            0 <= k < 3 ==> (#[trigger] self_e1.weights[k] - self_e0.weights[k]) % (MESH_STEPS as int)
                == 0,
    ensures
        entry == edge_entry(self_e0, self_e1, ext0, ext1, n0 as int, bot, r, i as int),
{
    let index = own_step_slot(self_e0, self_e1, i);
    let i_adj = i + n0 * MESH_STEPS;
    let d = i_adj / ratio;
    let rem = i_adj % ratio;
    proof {
        assert(d * ratio <= i_adj) by (nonlinear_arith)
            requires d == i_adj / ratio, ratio > 0;
        assert((d + 1) * ratio <= i_adj + ratio) by (nonlinear_arith)
            requires d * ratio <= i_adj;
    }
    if rem == 0 {
        match sample_slot(ext0, ext1, d * ratio, bot, r) {
            Some(slot) => Some(MeshOverride { index, source: VertexSource::Vertex(slot) }),
            None => None,
        }
    } else {
        let from = sample_slot(ext0, ext1, d * ratio, bot, r);
        let to = sample_slot(ext0, ext1, (d + 1) * ratio, bot, r);
        match (from, to) {
            (Some(from), Some(to)) => Some(
                MeshOverride {
                    index,
                    source: VertexSource::Blend { from, to, t: GridRatio { numer: rem, denom: ratio } },
                },
            ),
            _ => None,
        }
    }
}

/// Own mesh slot of step `i` along the edge from `e0` to `e1`: see [`own_slot`].
fn own_step_slot(e0: BaryIterative, e1: BaryIterative, i: u32) -> (index: u32)
    requires
        i <= MESH_STEPS,
        e0.on_grid(),
        e1.on_grid(),
        e0.denominator == e1.denominator,
        e0.denominator <= 32768,
        forall|k: int|
            0 <= k < 3 ==> (#[trigger] e1.weights[k] - e0.weights[k]) % (MESH_STEPS as int) == 0,
    ensures
        index == own_slot(e0, e1, i as int),
{
    let q = GridRatio::new(i, MESH_STEPS);
    proof {
        crate::ratio::lemma_reduced_value(i, MESH_STEPS);
        assert(q.numer <= q.denom) by (nonlinear_arith)
            requires q.numer * 4 == i * q.denom, i <= 4, q.denom > 0;
        assert forall|k: int| 0 <= k < 3 implies (#[trigger] e1.weights[k] - e0.weights[k]) % (
        q.denom as int) == 0 by {
            lemma_reduced_denom_divides(i, MESH_STEPS, e1.weights[k] - e0.weights[k]);
        }
        assert forall|k: int| 0 <= k < 3 implies -i32::MAX <= (#[trigger] e1.weights[k]
            - e0.weights[k]) * q.numer <= i32::MAX by {
            let x = e1.weights[k] - e0.weights[k];
            let nn = q.numer as int;
            assert(-i32::MAX <= x * nn <= i32::MAX) by (nonlinear_arith)
                requires -32768 <= x <= 32768, 0 <= nn <= 4;
        }
        lemma_lerp_stays_on_grid(e0, e1, q);
    }
    let own = e0.lerp(&e1, q);
    assert(own.weights =~= lerp_bary(e0, e1, q).weights);
    coarse_index(own)
}

/// The grid point `b` walked `n` times by `step`, through [`BaryIterative::checked_add`].
fn walk(b: BaryIterative, step: [i32; 3], n: u32, ratio: u32, r: u32) -> (c: BaryIterative)
    requires
        b.on_grid(),
        0 < b.denominator,
        step[0] + step[1] + step[2] == 0,
        step_bounded(step, b.denominator as int),
        n < ratio,
        ratio <= 0x8000_0000u32,
        b.denominator * (ratio + 1) <= i32::MAX,
        lands_on_coarse_grid(b, step, n as int, r),
    ensures
        c == walked_bary(b, step, n as int),
{
    let moved = scale_step(step, n, b.denominator, ratio);
    proof {
        assert(BaryIterative::moved(b.weights, moved) =~= walked(b, step, n as int));
        assert(b.denominator + b.denominator * ratio == b.denominator * (ratio + 1))
            by (nonlinear_arith);
        lemma_walked_on_grid(b, step, n as int, r);
    }
    let c = b.checked_add(moved).expect("the walk lands inside the triangle");
    assert(c.weights =~= walked_bary(b, step, n as int).weights);
    c
}


/// The two positions of positive weights, in order, when exactly two are positive.
pub open spec fn positive_pair(w: [u32; 3]) -> Option<(int, int)> {
    if w[0] > 0 && w[1] > 0 && w[2] == 0 {
        Some((0, 1))
    } else if w[0] > 0 && w[1] == 0 && w[2] > 0 {
        Some((0, 2))
    } else if w[0] == 0 && w[1] > 0 && w[2] > 0 {
        Some((1, 2))
    } else {
        None
    }
}

/// One grid step from corner `i0` towards corner `i1`.
pub open spec fn unit_step(i0: int, i1: int) -> [i32; 3] {
    [
        if i1 == 0 { 1i32 } else if i0 == 0 { -1i32 } else { 0i32 },
        if i1 == 1 { 1i32 } else if i0 == 1 { -1i32 } else { 0i32 },
        if i1 == 2 { 1i32 } else if i0 == 2 { -1i32 } else { 0i32 },
    ]
}

/// Slot of `b` in a mesh of its own grid.
pub open spec fn own_vertex_slot(b: BaryIterative) -> u32 {
    mesh_index(b.weights[0] as int, b.weights[2] as int, b.denominator as int) as u32
}

/// How a chunk's corner `self_v` (own grid) is pinned onto an adjacent chunk `2^r`
/// times coarser, on which it is `v` (its grid refined `r` more times): a corner on a
/// coarse vertex takes it; a corner on a coarse edge between two vertices takes the
/// blend of the nearest coarse vertices on either side, found by walking along that
/// edge. `None` when the corner is on no edge of the adjacent chunk, or a walk reaches
/// no coarse vertex within `2^r` steps.
pub open spec fn vertex_plan(self_v: BaryIterative, v: BaryIterative, r: u32) -> Option<MeshOverride> {
    let index = own_vertex_slot(self_v);
    let ratio = pow2(r as nat) as int;
    match coarse_slot(v, r) {
        Some(slot) => Some(MeshOverride { index, source: VertexSource::Vertex(slot) }),
        None => match positive_pair(v.weights) {
            None => None,
            Some((i0, i1)) => {
                let step = unit_step(i0, i1);
                let back = negated(step);
                match (first_landing(v, back, r, 0, ratio), first_landing(v, step, r, 0, ratio)) {
                    (Some(a), Some(b)) => match (
                        coarse_slot(walked_bary(v, back, a), r),
                        coarse_slot(walked_bary(v, step, b), r),
                    ) {
                        (Some(from), Some(to)) => Some(
                            MeshOverride {
                                index,
                                source: VertexSource::Blend {
                                    from,
                                    to,
                                    t: GridRatio::reduced(a as u32, ratio as u32),
                                },
                            },
                        ),
                        _ => None,
                    },
                    _ => None,
                }
            },
        },
    }
}

/// Where the override `o` for own step `i` reads its position, on an edge extended to
/// `ext0`..`ext1` (`bot` own steps long, the own edge starting `n0` own edges in):
/// the own vertex is `i + n0 * MESH_STEPS` own steps from `ext0`. Taking a coarse
/// vertex, it sits on that coarse vertex. Taking a blend, `from` is the coarse vertex
/// `t * 2^r` own steps before it and `to` the next one, `2^r` steps further, with `t`
/// strictly between `0` and `1`: the blend puts the vertex back where it is.
pub open spec fn override_sits_at_step(
    ext0: BaryIterative,
    ext1: BaryIterative,
    n0: int,
    bot: u32,
    r: u32,
    i: int,
    o: MeshOverride,
) -> bool {
    let ratio = pow2(r as nat) as int;
    let at = i + n0 * MESH_STEPS;
    match o.source {
        VertexSource::Vertex(s) => at % ratio == 0 && sample_slot_spec(ext0, ext1, at as u32, bot, r)
            == Some(s),
        VertexSource::Blend { from, to, t } => {
            &&& t.denom == ratio
            &&& 0 < t.numer < t.denom
            &&& (at - t.numer) % ratio == 0
            &&& sample_slot_spec(ext0, ext1, (at - t.numer) as u32, bot, r) == Some(from)
            &&& sample_slot_spec(ext0, ext1, (at - t.numer + ratio) as u32, bot, r) == Some(to)
        },
    }
}

/// The overrides of a prefix are the entries of its steps, one per step.
proof fn lemma_edge_entries_each(
    self_e0: BaryIterative,
    self_e1: BaryIterative,
    ext0: BaryIterative,
    ext1: BaryIterative,
    n0: int,
    bot: u32,
    r: u32,
    m: int,
)
    requires
        m >= 0,
        edge_entries(self_e0, self_e1, ext0, ext1, n0, bot, r, m) is Some,
    ensures
        edge_entries(self_e0, self_e1, ext0, ext1, n0, bot, r, m)->0.len() == m,
        forall|j: int|
            0 <= j < m ==> edge_entry(self_e0, self_e1, ext0, ext1, n0, bot, r, j) == Some(
                #[trigger] edge_entries(self_e0, self_e1, ext0, ext1, n0, bot, r, m)->0[j],
            ),
    decreases m,
{
    if m > 0 {
        lemma_edge_entries_each(self_e0, self_e1, ext0, ext1, n0, bot, r, m - 1);
    }
}

/// Stitching an edge puts every own vertex where it is on the adjacent chunk's edge:
/// the plan has one override per own step, the override for step `i` writes the own
/// slot of that step, and it reads the coarse vertex the step sits on, or blends the
/// two coarse vertices around it by the step's distance from the first of them (see
/// [`override_sits_at_step`]), both ends having been walked out to the first coarse
/// vertices.
pub proof fn lemma_edge_overrides_sit(
    self_e0: BaryIterative,
    self_e1: BaryIterative,
    sib_e0: BaryIterative,
    sib_e1: BaryIterative,
    r: u32,
)
    requires
        r < 32,
    ensures
        edge_plan(self_e0, self_e1, sib_e0, sib_e1, r) matches Some(p) ==> {
            let ratio = pow2(r as nat) as int;
            let diff = weight_diff(sib_e1, sib_e0);
            let back = negated(diff);
            let n0 = first_landing(sib_e0, back, r, 0, ratio)->0;
            let n1 = first_landing(sib_e1, diff, r, 0, ratio)->0;
            let ext0 = walked_bary(sib_e0, back, n0);
            let ext1 = walked_bary(sib_e1, diff, n1);
            let bot = ((1 + n0 + n1) * MESH_STEPS) as u32;
            &&& p.len() == MESH_STEPS + 1
            &&& forall|i: int|
                0 <= i < p.len() ==> (#[trigger] p[i]).index == own_slot(self_e0, self_e1, i)
                    && override_sits_at_step(ext0, ext1, n0, bot, r, i, p[i])
        },
{
    let ratio = pow2(r as nat) as int;
    vstd::arithmetic::power2::lemma_pow2_pos(r as nat);
    vstd::arithmetic::power2::lemma_pow2_strictly_increases(r as nat, 32);
    vstd::arithmetic::power2::lemma2_to64();
    if let Some(p) = edge_plan(self_e0, self_e1, sib_e0, sib_e1, r) {
        let diff = weight_diff(sib_e1, sib_e0);
        let back = negated(diff);
        let n0 = first_landing(sib_e0, back, r, 0, ratio)->0;
        let n1 = first_landing(sib_e1, diff, r, 0, ratio)->0;
        let ext0 = walked_bary(sib_e0, back, n0);
        let ext1 = walked_bary(sib_e1, diff, n1);
        let bot = ((1 + n0 + n1) * MESH_STEPS) as u32;
        lemma_first_landing_some(sib_e0, back, r, 0, ratio);
        lemma_edge_entries_each(self_e0, self_e1, ext0, ext1, n0, bot, r, MESH_STEPS + 1);
        assert forall|i: int| 0 <= i < p.len() implies (#[trigger] p[i]).index == own_slot(
            self_e0,
            self_e1,
            i,
        ) && override_sits_at_step(ext0, ext1, n0, bot, r, i, p[i]) by {
            assert(edge_entry(self_e0, self_e1, ext0, ext1, n0, bot, r, i) == Some(p[i]));
            let at = i + n0 * MESH_STEPS;
            let d = at / ratio;
            let rem = at % ratio;
            vstd::arithmetic::div_mod::lemma_fundamental_div_mod(at, ratio);
            assert(at == d * ratio + rem) by (nonlinear_arith)
                requires at == ratio * d + rem;
            assert(0 <= rem < ratio);
            assert(p[i].index == own_slot(self_e0, self_e1, i));
            if rem != 0 {
                assert(at - rem == d * ratio);
                assert(at - rem + ratio == (d + 1) * ratio) by (nonlinear_arith)
                    requires at - rem == d * ratio;
                vstd::arithmetic::div_mod::lemma_mod_multiples_basic(d, ratio);
                assert(p[i].source == VertexSource::Blend {
                    from: sample_slot_spec(ext0, ext1, (d * ratio) as u32, bot, r)->0,
                    to: sample_slot_spec(ext0, ext1, ((d + 1) * ratio) as u32, bot, r)->0,
                    t: GridRatio { numer: rem as u32, denom: ratio as u32 },
                });
            } else {
                assert(at == d * ratio);
            }
        }
    }
}

/// Weight `k` of a walk, for a symbolic `k`.
proof fn lemma_walked_at(b: BaryIterative, step: [i32; 3], n: int)
    ensures
        forall|k: int| 0 <= k < 3 ==> #[trigger] walked(b, step, n)[k] == b.weights[k] + step[k] * n,
{
}

/// A corner pinned between two coarse vertices stays where it is: the blend `t` of the
/// way from the coarse vertex `from` towards `to` is the corner's own grid point. That
/// is, there are grid points `f` and `g` of the adjacent (fine) grid whose coarse slots
/// are `from` and `to`, and `v = (1 - t) f + t g` weight for weight, with `t` strictly
/// between `0` and `1`. (The adjacent grid's denominator is a multiple of `2^r`, as the
/// grid of a chunk refined `r` more times always is.)
pub proof fn lemma_vertex_blend_reproduces_corner(self_v: BaryIterative, v: BaryIterative, r: u32)
    requires
        r < 32,
        v.on_grid(),
        (v.denominator as int) % (pow2(r as nat) as int) == 0,
    ensures
        vertex_plan(self_v, v, r) matches Some(o) ==> (o.source matches VertexSource::Blend {
            from,
            to,
            t,
        } ==> {
            &&& 0 < t.numer < t.denom
            &&& exists|f: BaryIterative, g: BaryIterative|
                #![trigger coarse_slot(f, r), coarse_slot(g, r)]
                {
                    &&& f.denominator == v.denominator && g.denominator == v.denominator
                    &&& coarse_slot(f, r) == Some(from) && coarse_slot(g, r) == Some(to)
                    &&& forall|k: int|
                        0 <= k < 3 ==> v.weights[k] * t.denom == f.weights[k] * (t.denom - t.numer)
                            + #[trigger] g.weights[k] * t.numer
                }
        }),
{
    let ratio = pow2(r as nat) as int;
    vstd::arithmetic::power2::lemma_pow2_pos(r as nat);
    if let Some(o) = vertex_plan(self_v, v, r) {
        if let VertexSource::Blend { from, to, t } = o.source {
            let w = v.weights;
            let dd = v.denominator as int;
            assert(coarse_slot(v, r) is None);
            let (i0, i1) = positive_pair(w)->0;
            let step = unit_step(i0, i1);
            let back = negated(step);
            let a = first_landing(v, back, r, 0, ratio)->0;
            let b = first_landing(v, step, r, 0, ratio)->0;
            let f = walked_bary(v, back, a);
            let g = walked_bary(v, step, b);
            assert(coarse_slot(f, r) == Some(from) && coarse_slot(g, r) == Some(to));
            assert(t == GridRatio::reduced(a as u32, ratio as u32));
            lemma_first_landing_some(v, back, r, 0, ratio);
            lemma_first_landing_some(v, step, r, 0, ratio);
            let i2 = 3 - i0 - i1;
            assert(w[i2] == 0 && w[i0] > 0 && w[i1] > 0);
            assert(back[i0] == 1 && back[i1] == -1 && back[i2] == 0);
            assert(step[i0] == -1 && step[i1] == 1 && step[i2] == 0);
            // the walk back lands a > 0 steps away: v itself is off the coarse grid
            lemma_walked_at(v, back, a);
            lemma_walked_at(v, back, 0);
            lemma_walked_at(v, step, ratio - a);
            lemma_walked_at(v, step, b);
            assert(back[i0] * a == a && back[i1] * a == -a) by (nonlinear_arith)
                requires back[i0] == 1, back[i1] == -1;
            assert(walked(v, back, a)[i0] == w[i0] + a);
            assert(walked(v, back, a)[i1] == w[i1] - a);
            assert((w[i0] + a) % ratio == 0);
            if a == 0 {
                assert(walked(v, back, 0)[0] == w[0]);
                assert(walked(v, back, 0)[1] == w[1]);
                assert(walked(v, back, 0)[2] == w[2]);
                assert(BaryIterative::divisible_by_pow2(w, r));
                assert(false);
            }
            // the walk forward lands exactly ratio - a steps away
            let m = ratio - a;
            let q = (w[i0] + a) / ratio;
            vstd::arithmetic::div_mod::lemma_fundamental_div_mod(w[i0] + a, ratio);
            assert(w[i0] + a == ratio * q);
            assert(q >= 1) by (nonlinear_arith)
                requires w[i0] + a == ratio * q, w[i0] + a > 0, ratio > 0;
            let qd = dd / ratio;
            vstd::arithmetic::div_mod::lemma_fundamental_div_mod(dd, ratio);
            assert(dd == ratio * qd);
            assert(w[i0] + w[i1] == dd);
            assert(step[i0] * m == -m && step[i1] * m == m) by (nonlinear_arith)
                requires step[i0] == -1, step[i1] == 1;
            assert(step[i0] * b == -b && step[i1] * b == b) by (nonlinear_arith)
                requires step[i0] == -1, step[i1] == 1;
            assert(walked(v, step, m)[i0] == w[i0] - m);
            assert(walked(v, step, m)[i1] == w[i1] + m);
            assert(walked(v, step, m)[i2] == 0) by (nonlinear_arith)
                requires walked(v, step, m)[i2] == w[i2] + step[i2] * m, w[i2] == 0, step[i2] == 0;
            assert(ratio * q >= ratio) by (nonlinear_arith)
                requires q >= 1, ratio > 0;
            assert(w[i0] - m == (q - 1) * ratio) by (nonlinear_arith)
                requires w[i0] + a == ratio * q, m == ratio - a;
            assert(w[i1] + m == (qd - q + 1) * ratio) by (nonlinear_arith)
                requires w[i0] + a == ratio * q, m == ratio - a, w[i0] + w[i1] == dd, dd == ratio * qd;
            vstd::arithmetic::div_mod::lemma_mod_multiples_basic(q - 1, ratio);
            vstd::arithmetic::div_mod::lemma_mod_multiples_basic(qd - q + 1, ratio);
            vstd::arithmetic::div_mod::lemma_mod_multiples_basic(0, ratio);
            assert(walked(v, step, m)[i0] % ratio == 0);
            assert(walked(v, step, m)[i1] % ratio == 0);
            assert(walked(v, step, m)[i2] % ratio == 0);
            assert(lands_on_coarse_grid(v, step, m, r));
            if b < m {
                // b steps forward: w[i0] - b = ratio * q - (a + b), with 0 < a + b < ratio
                assert(walked(v, step, b)[i0] == w[i0] - b);
                assert(walked(v, step, b)[i0] % ratio == 0);
                let q2 = walked(v, step, b)[i0] / ratio;
                vstd::arithmetic::div_mod::lemma_fundamental_div_mod(walked(v, step, b)[i0], ratio);
                assert(false) by (nonlinear_arith)
                    requires
                        w[i0] - b == ratio * q2,
                        w[i0] + a == ratio * q,
                        0 < a + b < ratio,
                ;
            }
            if b > m {
                lemma_first_landing_least(v, step, r, 0, ratio, m);
            }
            assert(b == m);
            // the blend weight
            crate::ratio::lemma_reduced_value(a as u32, ratio as u32);
            let num = t.numer as int;
            let den = t.denom as int;
            assert(num * ratio == a * den);
            assert(0 < num < den) by (nonlinear_arith)
                requires num * ratio == a * den, 0 < a < ratio, den > 0, num >= 0;
            assert forall|k: int| 0 <= k < 3 implies w[k] * den == f.weights[k] * (den - num)
                + #[trigger] g.weights[k] * num by {
                let s = step[k] as int;
                assert(back[k] == -s);
                assert(back[k] * a == -(s * a)) by (nonlinear_arith)
                    requires back[k] == -s;
                assert(0 <= walked(v, back, a)[k] <= dd);
                assert(0 <= walked(v, step, b)[k] <= dd);
                assert(f.weights[k] == w[k] - s * a);
                assert(g.weights[k] == w[k] + s * b);
                assert(w[k] * den == (w[k] - s * a) * (den - num) + (w[k] + s * b) * num)
                    by (nonlinear_arith)
                    requires num * ratio == a * den, a + b == ratio;
            }
            assert(coarse_slot(f, r) == Some(from));
        }
    }
}

/// Candidate `k` is the first adjacent chunk on whose grid both corners of an edge lie.
pub open spec fn is_first_edge_candidate(
    c: Seq<(Option<BaryIterative>, Option<BaryIterative>)>,
    k: int,
) -> bool {
    &&& 0 <= k < c.len()
    &&& c[k].0 is Some && c[k].1 is Some
    &&& forall|j: int| 0 <= j < k ==> !(#[trigger] c[j].0 is Some && c[j].1 is Some)
}

/// Picks, for an edge, the adjacent chunk it is stitched onto: the first candidate on
/// whose grid both corners of the edge lie (each candidate gives the corners' grid
/// points there, where it has them). `None` when there is none.
pub fn first_edge_candidate(c: &Vec<(Option<BaryIterative>, Option<BaryIterative>)>) -> (r: Option<
    usize,
>)
    ensures
        r matches Some(k) ==> is_first_edge_candidate(c@, k as int),
        r is None <==> forall|j: int| 0 <= j < c.len() ==> !(#[trigger] c@[j].0 is Some && c@[j].1 is Some),
{
    let mut k: usize = 0;
    while k < c.len()
        invariant
            k <= c.len(),
            forall|j: int| 0 <= j < k ==> !(#[trigger] c@[j].0 is Some && c@[j].1 is Some),
        decreases c.len() - k,
    {
        if c[k].0.is_some() && c[k].1.is_some() {
            return Some(k);
        }
        k = k + 1;
    }
    None
}

/// The bounds [`vertex_override`] needs of an adjacent grid point `v`, `r` levels coarser.
pub open spec fn corner_bounds(v: BaryIterative, r: u32) -> bool {
    &&& r < 32
    &&& v.on_grid()
    &&& 0 < v.denominator <= 32768
    &&& v.denominator * (pow2(r as nat) + 1) <= i32::MAX
}

/// The overrides pinning a chunk's corner onto the adjacent chunks, tried in order
/// (each candidate gives the corner's grid point on its grid, where it has one, and
/// the level difference): every adjacent chunk that has the corner adds its
/// [`vertex_plan`], and the first one that places the corner inside an edge (a blend)
/// ends the list. `None` when one that has the corner gives no plan.
pub open spec fn corner_plan(self_v: BaryIterative, c: Seq<(Option<BaryIterative>, u32)>) -> Option<
    Seq<MeshOverride>,
>
    decreases c.len(),
{
    if c.len() == 0 {
        Some(Seq::empty())
    } else {
        let rest = c.drop_first();
        match c[0].0 {
            None => corner_plan(self_v, rest),
            Some(v) => match vertex_plan(self_v, v, c[0].1) {
                None => None,
                Some(o) => if o.source is Blend {
                    Some(seq![o])
                } else {
                    match corner_plan(self_v, rest) {
                        Some(t) => Some(seq![o] + t),
                        None => None,
                    }
                },
            },
        }
    }
}

/// The overrides of a chunk's corner: see [`corner_plan`].
pub fn corner_overrides(self_v: BaryIterative, c: &Vec<(Option<BaryIterative>, u32)>) -> (overrides:
    Option<Vec<MeshOverride>>)
    requires
        self_v.on_grid(),
        self_v.denominator <= 32768,
        forall|k: int|
            0 <= k < c.len() && (#[trigger] c@[k]).0 is Some ==> corner_bounds(c@[k].0.unwrap(), c@[k].1),
    ensures
        match corner_plan(self_v, c@) {
            Some(p) => overrides matches Some(v) && v@ == p,
            None => overrides is None,
        },
{
    let mut out: Vec<MeshOverride> = Vec::new();
    let mut k: usize = 0;
    assert(c@.skip(0) =~= c@);
    proof {
        match corner_plan(self_v, c@) {
            Some(t) => {
                assert(out@ + t =~= t);
            },
            None => {},
        }
    }
    while k < c.len()
        invariant
            k <= c.len(),
            self_v.on_grid(),
            self_v.denominator <= 32768,
            forall|j: int|
                0 <= j < c.len() && (#[trigger] c@[j]).0 is Some ==> corner_bounds(c@[j].0.unwrap(), c@[j].1),
            corner_plan(self_v, c@) == match corner_plan(self_v, c@.skip(k as int)) {
                Some(t) => Some(out@ + t),
                None => None,
            },
        decreases c.len() - k,
    {
        let ghost tail = c@.skip(k as int);
        assert(tail.drop_first() =~= c@.skip(k + 1));
        assert(tail[0] == c@[k as int]);
        let (cand, r) = c[k];
        match cand {
            None => {},
            Some(v) => {
                assert(corner_bounds(v, r));
                match vertex_override(self_v, v, r) {
                    None => return None,
                    Some(o) => {
                        let ghost before = out@;
                        out.push(o);
                        match o.source {
                            VertexSource::Blend { .. } => {
                                assert(out@ =~= before + seq![o]);
                                return Some(out);
                            },
                            VertexSource::Vertex(_) => {
                                proof {
                                    match corner_plan(self_v, c@.skip(k + 1)) {
                                        Some(t) => {
                                            assert(out@ + t =~= before + (seq![o] + t));
                                        },
                                        None => {},
                                    }
                                }
                            },
                        }
                    },
                }
            },
        }
        k = k + 1;
    }
    assert(c@.skip(c.len() as int) =~= Seq::<(Option<BaryIterative>, u32)>::empty());
    assert(out@ + Seq::<MeshOverride>::empty() =~= out@);
    Some(out)
}

/// The override pinning a chunk's corner onto an adjacent coarser chunk: see
/// [`vertex_plan`].
///
/// The bounds are those of [`edge_overrides`]: in a chunk world the adjacent grid's
/// denominator is at most `2^8` and the ratio `2^subdivision_ratio` at most `2^6`, so
/// the denominator stays within `32768` and `denominator * (ratio + 1)` within
/// `i32::MAX`.
pub fn vertex_override(self_v: BaryIterative, v: BaryIterative, subdivision_ratio: u32) -> (entry:
    Option<MeshOverride>)
    requires
        subdivision_ratio < 32,
        v.on_grid(),
        0 < v.denominator <= 32768,
        v.denominator * (pow2(subdivision_ratio as nat) + 1) <= i32::MAX,
        self_v.on_grid(),
        self_v.denominator <= 32768,
    ensures
        entry == vertex_plan(self_v, v, subdivision_ratio),
{
    let r = subdivision_ratio;
    let ratio = crate::subdivision::grid_size(r);
    let ghost dd = v.denominator as int;
    proof {
        assert(ratio <= 0x8000_0000u32) by (nonlinear_arith)
            requires dd * (ratio + 1) <= i32::MAX, dd >= 1;
        assert(weight_sum(BaryIterative::div_weights(v.weights, r)) <= weight_sum(v.weights)) by {
            lemma_div_weights_le(v.weights, r);
        }
    }
    let index = coarse_index(self_v);
    if let Some(sib) = v.downsample(r) {
        let slot = coarse_index(sib);
        return Some(MeshOverride { index, source: VertexSource::Vertex(slot) });
    }
    let w = v.weights;
    let (i0, i1): (usize, usize) = if w[0] > 0 && w[1] > 0 && w[2] == 0 {
        (0, 1)
    } else if w[0] > 0 && w[1] == 0 && w[2] > 0 {
        (0, 2)
    } else if w[0] == 0 && w[1] > 0 && w[2] > 0 {
        (1, 2)
    } else {
        return None;
    };
    let mut step = [0i32; 3];
    step[i0] = -1;
    step[i1] = 1;
    assert(step =~= unit_step(i0 as int, i1 as int));
    let back = [-step[0], -step[1], -step[2]];
    assert(back == negated(step));
    let a = match find_landing(v, back, r, ratio) {
        Some(n) => n,
        None => return None,
    };
    let b = match find_landing(v, step, r, ratio) {
        Some(n) => n,
        None => return None,
    };
    proof {
        lemma_first_landing_some(v, back, r, 0, ratio as int);
        lemma_first_landing_some(v, step, r, 0, ratio as int);
        lemma_walked_on_grid(v, back, a as int, r);
        lemma_walked_on_grid(v, step, b as int, r);
    }
    let from_bary = walk(v, back, a, ratio, r);
    let to_bary = walk(v, step, b, ratio, r);
    let from = coarse_slot_of(from_bary, r);
    let to = coarse_slot_of(to_bary, r);
    match (from, to) {
        (Some(from), Some(to)) => Some(
            MeshOverride {
                index,
                source: VertexSource::Blend { from, to, t: GridRatio::new(a, ratio) },
            },
        ),
        _ => None,
    }
}

/// Dividing the weights by `2^s` does not increase their sum.
proof fn lemma_div_weights_le(w: [u32; 3], s: u32)
    ensures
        weight_sum(BaryIterative::div_weights(w, s)) <= weight_sum(w),
{
    vstd::arithmetic::power2::lemma_pow2_pos(s as nat);
    vstd::arithmetic::div_mod::lemma_div_is_ordered_by_denominator(w[0] as int, 1, pow2(s as nat) as int);
    vstd::arithmetic::div_mod::lemma_div_is_ordered_by_denominator(w[1] as int, 1, pow2(s as nat) as int);
    vstd::arithmetic::div_mod::lemma_div_is_ordered_by_denominator(w[2] as int, 1, pow2(s as nat) as int);
}

/// Mesh slot of `b` on the grid `2^r` times coarser, through
/// [`BaryIterative::downsample`]: see [`coarse_slot`].
fn coarse_slot_of(b: BaryIterative, r: u32) -> (slot: Option<u32>)
    requires
        b.on_grid(),
        b.denominator <= 32768,
        r < 32,
    ensures
        slot == coarse_slot(b, r),
{
    proof {
        lemma_div_weights_le(b.weights, r);
    }
    match b.downsample(r) {
        Some(c) => Some(coarse_index(c)),
        None => None,
    }
}


/// The override writes a slot below `own_count` and reads slots below `coarse_count`.
pub open spec fn override_in_range(o: MeshOverride, own_count: int, coarse_count: int) -> bool {
    &&& o.index < own_count
    &&& match o.source {
        VertexSource::Vertex(slot) => slot < coarse_count,
        VertexSource::Blend { from, to, .. } => from < coarse_count && to < coarse_count,
    }
}

/// A coarse slot of a grid point of denominator `d` lies below the number of points
/// of the coarse grid, whose denominator is `d / 2^r`.
proof fn lemma_coarse_slot_in_range(b: BaryIterative, r: u32)
    requires
        b.on_grid(),
        b.denominator <= 32768,
        coarse_slot(b, r) is Some,
    ensures
        coarse_slot(b, r)->0 < grid_point_count(b.denominator as int / pow2(r as nat) as int),
{
    let p = pow2(r as nat) as int;
    vstd::arithmetic::power2::lemma_pow2_pos(r as nat);
    let w = BaryIterative::div_weights(b.weights, r);
    let (x, y, z) = (w[0] as int, w[1] as int, w[2] as int);
    assert forall|k: int| 0 <= k < 3 implies #[trigger] b.weights[k] == p * (b.weights[k] as int / p) by {
        vstd::arithmetic::div_mod::lemma_fundamental_div_mod(b.weights[k] as int, p);
    }
    assert(b.weights[0] == p * x && b.weights[1] == p * y && b.weights[2] == p * z);
    assert(b.denominator as int == p * (x + y + z)) by (nonlinear_arith)
        requires
            b.weights[0] == p * x,
            b.weights[1] == p * y,
            b.weights[2] == p * z,
            b.denominator == b.weights[0] + b.weights[1] + b.weights[2];
    vstd::arithmetic::div_mod::lemma_div_multiples_vanish(x + y + z, p);
    assert((x + y + z) <= 32768) by {
        lemma_div_weights_le(b.weights, r);
    }
    lemma_mesh_index_in_range(x, y, z, x + y + z);
    crate::mesh::lemma_row_start_total(x + y + z);
    assert(grid_point_count(x + y + z) <= 32769 * 32770 / 2) by (nonlinear_arith)
        requires 0 <= x + y + z <= 32768, (x + y + z + 1) * (x + y + z + 2) == 2 * grid_point_count(x + y + z);
}

/// A slot of a grid point of denominator `d <= 32768` lies below the number of grid points.
proof fn lemma_own_vertex_slot_in_range(b: BaryIterative)
    requires
        b.on_grid(),
        b.denominator <= 32768,
    ensures
        own_vertex_slot(b) < grid_point_count(b.denominator as int),
{
    let n = b.denominator as int;
    lemma_mesh_index_in_range(b.weights[0] as int, b.weights[1] as int, b.weights[2] as int, n);
    crate::mesh::lemma_row_start_total(n);
    assert(grid_point_count(n) <= 32769 * 32770 / 2) by (nonlinear_arith)
        requires 0 <= n <= 32768, (n + 1) * (n + 2) == 2 * grid_point_count(n);
}

/// A sample that exists lies on the coarse grid of the interpolated ends.
proof fn lemma_sample_in_range(e0: BaryIterative, e1: BaryIterative, top: u32, bot: u32, r: u32)
    requires
        e0.on_grid(),
        e1.on_grid(),
        e0.denominator == e1.denominator,
        e0.denominator <= 32768,
        bot > 0,
        sample_slot_spec(e0, e1, top, bot, r) is Some,
    ensures
        sample_slot_spec(e0, e1, top, bot, r)->0 < grid_point_count(
            e0.denominator as int / pow2(r as nat) as int,
        ),
{
    let q = GridRatio::reduced(top, bot);
    lemma_reduced_value(top, bot);
    lemma_lerp_stays_on_grid(e0, e1, q);
    lemma_coarse_slot_in_range(lerp_bary(e0, e1, q), r);
}

/// Every entry of a stitched edge prefix writes an own slot and reads coarse slots
/// that exist.
proof fn lemma_edge_entries_in_range(
    self_e0: BaryIterative,
    self_e1: BaryIterative,
    ext0: BaryIterative,
    ext1: BaryIterative,
    n0: int,
    bot: u32,
    r: u32,
    m: int,
)
    requires
        m <= MESH_STEPS + 1,
        ext0.on_grid(),
        ext1.on_grid(),
        ext0.denominator == ext1.denominator,
        ext0.denominator <= 32768,
        bot > 0,
        self_e0.on_grid(),
        self_e1.on_grid(),
        self_e0.denominator == self_e1.denominator,
        self_e0.denominator <= 32768,
        forall|k: int|
            0 <= k < 3 ==> (#[trigger] self_e1.weights[k] - self_e0.weights[k]) % (MESH_STEPS as int)
                == 0,
        edge_entries(self_e0, self_e1, ext0, ext1, n0, bot, r, m) is Some,
    ensures
        forall|j: int|
            0 <= j < edge_entries(self_e0, self_e1, ext0, ext1, n0, bot, r, m)->0.len()
                ==> override_in_range(
                #[trigger] edge_entries(self_e0, self_e1, ext0, ext1, n0, bot, r, m)->0[j],
                grid_point_count(self_e0.denominator as int),
                grid_point_count(ext0.denominator as int / pow2(r as nat) as int),
            ),
    decreases m,
{
    if m > 0 {
        lemma_edge_entries_in_range(self_e0, self_e1, ext0, ext1, n0, bot, r, m - 1);
        let i = m - 1;
        let p = edge_entries(self_e0, self_e1, ext0, ext1, n0, bot, r, m - 1)->0;
        let e = edge_entry(self_e0, self_e1, ext0, ext1, n0, bot, r, i)->0;
        let own = grid_point_count(self_e0.denominator as int);
        let coarse = grid_point_count(ext0.denominator as int / pow2(r as nat) as int);
        // the own slot
        let q = GridRatio::reduced(i as u32, MESH_STEPS);
        lemma_reduced_value(i as u32, MESH_STEPS);
        assert(q.numer <= q.denom) by (nonlinear_arith)
            requires q.numer * 4 == i * q.denom, 0 <= i <= 4, q.denom > 0;
        assert forall|k: int| 0 <= k < 3 implies (#[trigger] self_e1.weights[k] - self_e0.weights[k])
            % (q.denom as int) == 0 by {
            lemma_reduced_denom_divides(i as u32, MESH_STEPS, self_e1.weights[k] - self_e0.weights[k]);
        }
        lemma_lerp_stays_on_grid(self_e0, self_e1, q);
        lemma_own_vertex_slot_in_range(lerp_bary(self_e0, self_e1, q));
        assert(e.index < own);
        // the sources
        let ratio = pow2(r as nat) as int;
        let i_adj = i + n0 * MESH_STEPS;
        let d = i_adj / ratio;
        if sample_slot_spec(ext0, ext1, (d * ratio) as u32, bot, r) is Some {
            lemma_sample_in_range(ext0, ext1, (d * ratio) as u32, bot, r);
        }
        if sample_slot_spec(ext0, ext1, ((d + 1) * ratio) as u32, bot, r) is Some {
            lemma_sample_in_range(ext0, ext1, ((d + 1) * ratio) as u32, bot, r);
        }
        assert(override_in_range(e, own, coarse));
        let full = edge_entries(self_e0, self_e1, ext0, ext1, n0, bot, r, m)->0;
        assert(full == p.push(e));
        assert forall|j: int| 0 <= j < full.len() implies override_in_range(
            #[trigger] full[j],
            own,
            coarse,
        ) by {
            if j < p.len() {
                assert(full[j] == p[j]);
            }
        }
    }
}

/// Every override of a stitched edge writes a slot of the chunk's own mesh and reads
/// slots of the adjacent mesh: the plan never indexes past either vertex buffer.
pub proof fn lemma_edge_plan_in_range(
    self_e0: BaryIterative,
    self_e1: BaryIterative,
    sib_e0: BaryIterative,
    sib_e1: BaryIterative,
    r: u32,
)
    requires
        r < 32,
        sib_e0.on_grid(),
        sib_e1.on_grid(),
        sib_e0.denominator == sib_e1.denominator,
        0 < sib_e0.denominator <= 32768,
        self_e0.on_grid(),
        self_e1.on_grid(),
        self_e0.denominator == self_e1.denominator,
        self_e0.denominator <= 32768,
        forall|k: int|
            0 <= k < 3 ==> (#[trigger] self_e1.weights[k] - self_e0.weights[k]) % (MESH_STEPS as int)
                == 0,
        edge_plan(self_e0, self_e1, sib_e0, sib_e1, r) is Some,
    ensures
        forall|j: int|
            0 <= j < edge_plan(self_e0, self_e1, sib_e0, sib_e1, r)->0.len() ==> override_in_range(
                #[trigger] edge_plan(self_e0, self_e1, sib_e0, sib_e1, r)->0[j],
                grid_point_count(self_e0.denominator as int),
                grid_point_count(sib_e0.denominator as int / pow2(r as nat) as int),
            ),
{
    let ratio = pow2(r as nat) as int;
    let diff = weight_diff(sib_e1, sib_e0);
    let back = negated(diff);
    let n0 = first_landing(sib_e0, back, r, 0, ratio)->0;
    let n1 = first_landing(sib_e1, diff, r, 0, ratio)->0;
    lemma_first_landing_some(sib_e0, back, r, 0, ratio);
    lemma_first_landing_some(sib_e1, diff, r, 0, ratio);
    assert(back[0] + back[1] + back[2] == 0);
    assert(diff[0] + diff[1] + diff[2] == 0);
    lemma_walked_on_grid(sib_e0, back, n0, r);
    lemma_walked_on_grid(sib_e1, diff, n1, r);
    let ext0 = walked_bary(sib_e0, back, n0);
    let ext1 = walked_bary(sib_e1, diff, n1);
    let bot = ((1 + n0 + n1) * MESH_STEPS) as u32;
    lemma_edge_entries_in_range(self_e0, self_e1, ext0, ext1, n0, bot, r, MESH_STEPS + 1);
}

/// A pinned corner writes a slot of the chunk's own mesh and reads slots of the
/// adjacent mesh.
pub proof fn lemma_vertex_plan_in_range(self_v: BaryIterative, v: BaryIterative, r: u32)
    requires
        r < 32,
        v.on_grid(),
        0 < v.denominator <= 32768,
        self_v.on_grid(),
        self_v.denominator <= 32768,
        vertex_plan(self_v, v, r) is Some,
    ensures
        override_in_range(
            vertex_plan(self_v, v, r)->0,
            grid_point_count(self_v.denominator as int),
            grid_point_count(v.denominator as int / pow2(r as nat) as int),
        ),
{
    lemma_own_vertex_slot_in_range(self_v);
    let ratio = pow2(r as nat) as int;
    if coarse_slot(v, r) is Some {
        lemma_coarse_slot_in_range(v, r);
    } else {
        let (i0, i1) = positive_pair(v.weights)->0;
        let step = unit_step(i0, i1);
        let back = negated(step);
        let a = first_landing(v, back, r, 0, ratio)->0;
        let b = first_landing(v, step, r, 0, ratio)->0;
        lemma_first_landing_some(v, back, r, 0, ratio);
        lemma_first_landing_some(v, step, r, 0, ratio);
        lemma_walked_on_grid(v, back, a, r);
        lemma_walked_on_grid(v, step, b, r);
        lemma_coarse_slot_in_range(walked_bary(v, back, a), r);
        lemma_coarse_slot_in_range(walked_bary(v, step, b), r);
    }
}

} // verus!
