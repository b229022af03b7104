use vstd::prelude::*;
use vstd::arithmetic::power2::{pow2, lemma_pow2_pos};
use vstd::arithmetic::div_mod::{lemma_fundamental_div_mod, lemma_div_multiples_vanish};
use vstd::bits::{lemma_u32_shl_is_mul, lemma_u32_shr_is_div, lemma_u32_pow2_no_overflow};

use crate::ratio::{GridRatio, lemma_reduced_value};

verus! {

/// Sum of three grid weights.
pub open spec fn weight_sum(w: [u32; 3]) -> int {
    w[0] + w[1] + w[2]
}

/// Slot of grid point `(x, _, z)` in the triangular mesh of a grid whose
/// weights sum to `d`: the rows of constant `z` are laid out one after the other,
/// row `z` holding `d + 1 - z` points ordered by `x`.
pub open spec fn mesh_index(x: int, z: int, d: int) -> int {
    ((2 * (d + 1) + 1 - z) * z) / 2 + x
}

/// Number of grid points (mesh vertices) whose three weights sum to `d`.
pub open spec fn grid_point_count(d: int) -> int {
    (d + 1) * (d + 2) / 2
}

/// One weight of a linear interpolation from `a` to `b` by `n / d`.
pub open spec fn lerp_weight(a: u32, b: u32, n: u32, d: u32) -> int {
    a + (b - a) * n / (d as int)
}

/// A point of the triangular grid over a geodesic triangle: three weights over
/// a common denominator (the corners of the triangle are `[d, 0, 0]`,
/// `[0, d, 0]` and `[0, 0, d]`).
#[derive(Clone, Copy, Debug, PartialEq, Eq)]
pub struct BaryIterative {
    /// Barycentric-style weights over the geodesic triangle grid
    pub weights: [u32; 3],
    /// Sum of weights
    pub denominator: u32,
}

impl BaryIterative {
    /// The weights sum to the denominator.
    pub open spec fn on_grid(self) -> bool {
        weight_sum(self.weights) == self.denominator
    }

    /// No weight exceeds what an `i32` holds.
    pub open spec fn fits_i32(self) -> bool {
        self.weights[0] <= i32::MAX && self.weights[1] <= i32::MAX && self.weights[2] <= i32::MAX
    }

    /// The coordinate with the given weights; the denominator is their sum.
    pub fn new(weights: [u32; 3]) -> (b: Self)
        requires
            weight_sum(weights) <= u32::MAX,
        ensures
            b.weights == weights,
            b.denominator == weight_sum(weights),
            b.on_grid(),
    {
        BaryIterative { weights, denominator: weights[0] + weights[1] + weights[2] }
    }

    /// If this coordinate is on a corner, return its index: the first weight
    /// equal to the denominator.
    pub fn corner(self) -> (r: Option<usize>)
        ensures
            match r {
                Some(i) => i < 3 && self.weights[i as int] == self.denominator && forall|j: int|
                    0 <= j < i ==> self.weights[j] != self.denominator,
                None => forall|j: int| 0 <= j < 3 ==> self.weights[j] != self.denominator,
            },
    {
        let mut i: usize = 0;
        while i < 3
            invariant
                i <= 3,
                forall|j: int| 0 <= j < i ==> self.weights[j] != self.denominator,
            decreases 3 - i,
        {
            if self.weights[i] == self.denominator {
                return Some(i);
            }
            i = i + 1;
        }
        None
    }

    /// Index of the first zero weight, if any.
    pub open spec fn first_zero(self) -> Option<int> {
        if self.weights[0] == 0 {
            Some(0)
        } else if self.weights[1] == 0 {
            Some(1)
        } else if self.weights[2] == 0 {
            Some(2)
        } else {
            None
        }
    }

    /// If this coordinate lies along an edge, return the indices of the two corners and the
    /// relative position along the edge: with `i` the first zero weight, the edge runs
    /// from corner `(i + 1) % 3` to corner `(i + 2) % 3`, and the position is the weight
    /// of the latter over the denominator, in lowest terms.
    pub fn edge(self) -> (r: Option<(usize, usize, GridRatio)>)
        requires
            self.first_zero() is Some ==> self.denominator > 0,
        ensures
            match self.first_zero() {
                Some(i) => r == Some(
                    (
                        ((i + 1) % 3) as usize,
                        ((i + 2) % 3) as usize,
                        GridRatio::reduced(self.weights[(i + 2) % 3], self.denominator),
                    ),
                ),
                None => r is None,
            },
    {
        let mut i: usize = 0;
        while i < 3
            invariant
                i <= 3,
                forall|j: int| 0 <= j < i ==> self.weights[j] != 0,
                self.first_zero() is Some ==> self.denominator > 0,
            decreases 3 - i,
        {
            if self.weights[i] == 0 {
                let i0 = (i + 1) % 3;
                let i1 = (i + 2) % 3;
                let w = GridRatio::new(self.weights[i1], self.denominator);
                return Some((i0, i1, w));
            }
            i = i + 1;
        }
        None
    }

    /// Linearly interpolate between the two coordinates by `ratio`, which must lie in
    /// `0..=1` and land on the grid (every weight difference is a multiple of its
    /// denominator). The denominator is kept.
    pub fn lerp(&self, other: &Self, ratio: GridRatio) -> (r: Self)
        requires
            ratio.denom > 0,
            ratio.denom <= i32::MAX,
            ratio.numer <= ratio.denom,
            self.denominator == other.denominator,
            self.fits_i32(),
            other.fits_i32(),
            forall|k: int|
                0 <= k < 3 ==> (#[trigger] other.weights[k] - self.weights[k]) % (ratio.denom as int) == 0,
            forall|k: int|
                0 <= k < 3 ==> -i32::MAX <= (#[trigger] other.weights[k] - self.weights[k]) * ratio.numer
                    <= i32::MAX,
        ensures
            r.denominator == self.denominator,
            self.on_grid() && other.on_grid() ==> r.on_grid(),
            forall|k: int|
                0 <= k < 3 ==> r.weights[k] == lerp_weight(
                    self.weights[k],
                    other.weights[k],
                    ratio.numer,
                    ratio.denom,
                ),
    {
        let w0 = lerp_one(self.weights[0], other.weights[0], ratio.numer, ratio.denom);
        let w1 = lerp_one(self.weights[1], other.weights[1], ratio.numer, ratio.denom);
        let w2 = lerp_one(self.weights[2], other.weights[2], ratio.numer, ratio.denom);
        let r = BaryIterative { weights: [w0, w1, w2], denominator: self.denominator };
        proof {
            if self.on_grid() && other.on_grid() {
                lemma_lerp_stays_on_grid(*self, *other, ratio);
                assert(r.weights =~= lerp_bary(*self, *other, ratio).weights);
            }
        }
        r
    }

    /// Convert to a mesh index for the triangular grid
    pub fn to_mesh_index(self) -> (i: u32)
        requires
            self.weights[2] <= 2 * (self.denominator + 1) + 1,
            2 * (self.denominator + 1) + 1 <= u32::MAX,
            (2 * (self.denominator + 1) + 1 - self.weights[2]) * self.weights[2] <= u32::MAX,
            mesh_index(self.weights[0] as int, self.weights[2] as int, self.denominator as int)
                <= u32::MAX,
        ensures
            i == mesh_index(self.weights[0] as int, self.weights[2] as int, self.denominator as int),
    {
        let a = self.denominator + 1;
        let z = self.weights[2];
        let offset = ((2 * a + 1 - z) * z) / 2;
        offset + self.weights[0]
    }

    /// Upsample by doubling the resolution of the grid `subdivisions` times (bits shifted
    /// past the top of a weight are lost, as with `<<`).
    pub fn upsample(self, subdivisions: u32) -> (r: Self)
        requires
            subdivisions < 32,
            weight_sum(Self::shl_weights(self.weights, subdivisions)) <= u32::MAX,
        ensures
            r.weights == Self::shl_weights(self.weights, subdivisions),
            r.denominator == weight_sum(r.weights),
    {
        let w = self.weights;
        Self::new([w[0] << subdivisions, w[1] << subdivisions, w[2] << subdivisions])
    }

    /// Each weight shifted left by `s` bits.
    pub open spec fn shl_weights(w: [u32; 3], s: u32) -> [u32; 3] {
        [w[0] << s, w[1] << s, w[2] << s]
    }

    /// Each weight divided by `2^s`.
    pub open spec fn div_weights(w: [u32; 3], s: u32) -> [u32; 3] {
        [
            (w[0] as nat / pow2(s as nat)) as u32,
            (w[1] as nat / pow2(s as nat)) as u32,
            (w[2] as nat / pow2(s as nat)) as u32,
        ]
    }

    /// Every weight is a multiple of `2^s`, for `s` below the width of a weight.
    pub open spec fn divisible_by_pow2(w: [u32; 3], s: u32) -> bool {
        s < 32 && w[0] as nat % pow2(s as nat) == 0 && w[1] as nat % pow2(s as nat) == 0
            && w[2] as nat % pow2(s as nat) == 0
    }

    /// Downsample by halfing the resolution of the grid `subdivisions` times.
    /// Only when that loses no precision (every weight has at least `subdivisions`
    /// trailing zero bits) is a coordinate returned.
    pub fn downsample(self, subdivisions: u32) -> (r: Option<Self>)
        requires
            !(subdivisions == 32 && self.weights == [0u32, 0, 0]),
            Self::divisible_by_pow2(self.weights, subdivisions) ==> weight_sum(
                Self::div_weights(self.weights, subdivisions),
            ) <= u32::MAX,
        ensures
            Self::divisible_by_pow2(self.weights, subdivisions) ==> r == Some(
                Self {
                    weights: Self::div_weights(self.weights, subdivisions),
                    denominator: weight_sum(Self::div_weights(self.weights, subdivisions)) as u32,
                },
            ),
            !Self::divisible_by_pow2(self.weights, subdivisions) ==> r is None,
    {
        if subdivisions >= 32 {
            return None;
        }
        let unit: u32 = 1u32 << subdivisions;
        proof {
            lemma_u32_pow2_no_overflow(subdivisions as nat);
            lemma_u32_shl_is_mul(1, subdivisions);
        }
        let w = self.weights;
        if w[0] % unit != 0 || w[1] % unit != 0 || w[2] % unit != 0 {
            return None;
        }
        let s0 = w[0] >> subdivisions;
        let s1 = w[1] >> subdivisions;
        let s2 = w[2] >> subdivisions;
        proof {
            lemma_u32_shr_is_div(w[0], subdivisions);
            lemma_u32_shr_is_div(w[1], subdivisions);
            lemma_u32_shr_is_div(w[2], subdivisions);
        }
        Some(Self::new([s0, s1, s2]))
    }

    /// Weights moved by `diff`, as integers.
    pub open spec fn moved(w: [u32; 3], diff: [i32; 3]) -> Seq<int> {
        seq![w[0] + diff[0], w[1] + diff[1], w[2] + diff[2]]
    }

    /// Every moved weight lies in `0..=denominator`.
    pub open spec fn move_stays_inside(self, diff: [i32; 3]) -> bool {
        forall|k: int|
            0 <= k < 3 ==> 0 <= #[trigger] Self::moved(self.weights, diff)[k] <= self.denominator
    }

    /// Move the coordinate by the given difference, which must sum to 0.
    /// If shifting would result in the coordinate being outside the triangle (a weight
    /// below zero or above the denominator), `None` is returned.
    pub fn checked_add(self, diff: [i32; 3]) -> (r: Option<Self>)
        requires
            diff[0] + diff[1] + diff[2] == 0,
            i32::MIN <= diff[0] + diff[1] <= i32::MAX,
            self.fits_i32(),
            self.denominator <= i32::MAX,
            forall|k: int| 0 <= k < 3 ==> #[trigger] Self::moved(self.weights, diff)[k] <= i32::MAX,
            self.move_stays_inside(diff) ==> weight_sum(self.weights) <= u32::MAX,
        ensures
            self.move_stays_inside(diff) ==> (r matches Some(b) && b.denominator == weight_sum(
                self.weights,
            ) && b.on_grid() && forall|k: int|
                0 <= k < 3 ==> b.weights[k] == #[trigger] Self::moved(self.weights, diff)[k]),
            !self.move_stays_inside(diff) ==> r is None,
    {
        let ghost m = Self::moved(self.weights, diff);
        assert(m[0] <= i32::MAX && m[1] <= i32::MAX && m[2] <= i32::MAX);
        let d = self.denominator as i32;
        let n0 = self.weights[0] as i32 + diff[0];
        let n1 = self.weights[1] as i32 + diff[1];
        let n2 = self.weights[2] as i32 + diff[2];
        assert(m[0] == n0 && m[1] == n1 && m[2] == n2);
        if n0 < 0 || n0 > d || n1 < 0 || n1 > d || n2 < 0 || n2 > d {
            return None;
        }
        Some(Self::new([n0 as u32, n1 as u32, n2 as u32]))
    }

    /// Per-weight difference `self - other`.
    pub fn difference(self, other: Self) -> (d: [i32; 3])
        requires
            self.fits_i32(),
            other.fits_i32(),
        ensures
            forall|k: int| 0 <= k < 3 ==> d[k] == self.weights[k] - other.weights[k],
    {
        [
            self.weights[0] as i32 - other.weights[0] as i32,
            self.weights[1] as i32 - other.weights[1] as i32,
            self.weights[2] as i32 - other.weights[2] as i32,
        ]
    }

    /// The two slerp fractions (numerator, denominator) that place this coordinate on
    /// the sphere: first along the edge from corner 0 to corner 1 (and from corner 2 to
    /// corner 1) by `w1 / (d - w2)`, then between those two points by `w2 / (d - w1)`;
    /// a zero numerator gives `0 / 1`.
    pub fn slerp_fractions(self) -> (f: ((u32, u32), (u32, u32)))
        requires
            self.weights[1] != 0 ==> self.weights[2] <= self.denominator,
            self.weights[2] != 0 ==> self.weights[1] <= self.denominator,
        ensures
            f.0 == (if self.weights[1] == 0 {
                (0u32, 1u32)
            } else {
                (self.weights[1], (self.denominator - self.weights[2]) as u32)
            }),
            f.1 == (if self.weights[2] == 0 {
                (0u32, 1u32)
            } else {
                (self.weights[2], (self.denominator - self.weights[1]) as u32)
            }),
    {
        let edge = if self.weights[1] == 0 {
            (0, 1)
        } else {
            (self.weights[1], self.denominator - self.weights[2])
        };
        let mid = if self.weights[2] == 0 {
            (0, 1)
        } else {
            (self.weights[2], self.denominator - self.weights[1])
        };
        (edge, mid)
    }

    /// Convert to ratios that sum to 1: each weight over the denominator, in lowest terms.
    pub fn as_ratios(&self) -> (r: [GridRatio; 3])
        requires
            self.denominator > 0,
        ensures
            forall|k: int|
                0 <= k < 3 ==> r[k] == GridRatio::reduced(self.weights[k], self.denominator),
    {
        grid_ratios(self.weights, self.denominator)
    }
}

/// Linear interpolation from `e0` to `e1` by `q`, as [`BaryIterative::lerp`] computes it.
pub open spec fn lerp_bary(e0: BaryIterative, e1: BaryIterative, q: GridRatio) -> BaryIterative {
    BaryIterative {
        weights: [
            lerp_weight(e0.weights[0], e1.weights[0], q.numer, q.denom) as u32,
            lerp_weight(e0.weights[1], e1.weights[1], q.numer, q.denom) as u32,
            lerp_weight(e0.weights[2], e1.weights[2], q.numer, q.denom) as u32,
        ],
        denominator: e0.denominator,
    }
}

/// Interpolating from `e0` to `e1` by `q` stays in `0..=1` and on the grid.
pub open spec fn lerp_on_grid(e0: BaryIterative, e1: BaryIterative, q: GridRatio) -> bool {
    &&& q.numer <= q.denom
    &&& forall|k: int|
        0 <= k < 3 ==> (#[trigger] e1.weights[k] - e0.weights[k]) % (q.denom as int) == 0
}

/// One interpolated weight: the step `x = b - a` is `d * (x / d)`, the weight is
/// `a + (x / d) * n`, and it stays within `0..=den`.
proof fn lemma_lerp_one_weight(a: u32, b: u32, n: u32, d: u32, den: u32)
    requires
        d > 0,
        n <= d,
        (b - a) % (d as int) == 0,
        a <= den,
        b <= den,
    ensures
        b - a == d * ((b - a) / (d as int)),
        lerp_weight(a, b, n, d) == a + ((b - a) / (d as int)) * n,
        0 <= lerp_weight(a, b, n, d) <= den,
{
    let x = b - a;
    let dd = d as int;
    let nn = n as int;
    lemma_fundamental_div_mod(x, dd);
    let qk = x / dd;
    assert(x * nn == dd * (qk * nn)) by (nonlinear_arith)
        requires x == dd * qk;
    lemma_div_multiples_vanish(qk * nn, dd);
    assert(0 <= a + qk * nn <= den) by (nonlinear_arith)
        requires
            x == dd * qk,
            x == b - a,
            0 <= nn <= dd,
            dd > 0,
            0 <= a <= den,
            0 <= b <= den,
    {
        if qk >= 0 {
            assert(qk * nn <= qk * dd);
        } else {
            assert(qk * nn >= qk * dd);
        }
    }
}

/// Interpolating between two grid points of the same denominator, by a fraction in
/// `0..=1` that lands on the grid, gives a grid point of that denominator.
pub proof fn lemma_lerp_stays_on_grid(e0: BaryIterative, e1: BaryIterative, q: GridRatio)
    requires
        e0.on_grid(),
        e1.on_grid(),
        e0.denominator == e1.denominator,
        q.denom > 0,
        lerp_on_grid(e0, e1, q),
    ensures
        lerp_bary(e0, e1, q).on_grid(),
        forall|k: int|
            0 <= k < 3 ==> 0 <= #[trigger] lerp_weight(e0.weights[k], e1.weights[k], q.numer, q.denom)
                <= e0.denominator,
{
    let d = q.denom as int;
    let n = q.numer as int;
    let den = e0.denominator;
    assert((e1.weights[0] - e0.weights[0]) % d == 0);
    assert((e1.weights[1] - e0.weights[1]) % d == 0);
    assert((e1.weights[2] - e0.weights[2]) % d == 0);
    lemma_lerp_one_weight(e0.weights[0], e1.weights[0], q.numer, q.denom, den);
    lemma_lerp_one_weight(e0.weights[1], e1.weights[1], q.numer, q.denom, den);
    lemma_lerp_one_weight(e0.weights[2], e1.weights[2], q.numer, q.denom, den);
    let x0 = e1.weights[0] - e0.weights[0];
    let x1 = e1.weights[1] - e0.weights[1];
    let x2 = e1.weights[2] - e0.weights[2];
    assert(x0 + x1 + x2 == 0);
    assert((x0 / d) + (x1 / d) + (x2 / d) == 0) by (nonlinear_arith)
        requires d * (x0 / d) + d * (x1 / d) + d * (x2 / d) == 0, d > 0;
    assert((x0 / d) * n + (x1 / d) * n + (x2 / d) * n == 0) by (nonlinear_arith)
        requires (x0 / d) + (x1 / d) + (x2 / d) == 0;
}

/// Upsampling by `s` steps and then downsampling by `s` steps gives back the weights,
/// when no bit is shifted past the top of a weight.
pub proof fn lemma_upsample_then_downsample(w: [u32; 3], s: u32)
    requires
        s < 32,
        w[0] * pow2(s as nat) <= u32::MAX,
        w[1] * pow2(s as nat) <= u32::MAX,
        w[2] * pow2(s as nat) <= u32::MAX,
    ensures
        BaryIterative::divisible_by_pow2(BaryIterative::shl_weights(w, s), s),
        BaryIterative::div_weights(BaryIterative::shl_weights(w, s), s) == w,
        weight_sum(BaryIterative::shl_weights(w, s)) == weight_sum(w) * pow2(s as nat),
{
    lemma_u32_shl_is_mul(w[0], s);
    lemma_u32_shl_is_mul(w[1], s);
    lemma_u32_shl_is_mul(w[2], s);
    lemma_pow2_pos(s as nat);
    let p = pow2(s as nat) as int;
    assert forall|k: int| 0 <= k < 3 implies (w[k] * p) % p == 0 && (w[k] * p) / p == w[k] by {
        vstd::arithmetic::div_mod::lemma_mod_multiples_basic(w[k] as int, p);
        lemma_div_multiples_vanish(w[k] as int, p);
        assert(p * w[k] == w[k] * p) by (nonlinear_arith);
    }
    let u = BaryIterative::shl_weights(w, s);
    assert(u[0] == w[0] * p && u[1] == w[1] * p && u[2] == w[2] * p);
    assert(BaryIterative::div_weights(u, s) =~= w);
    assert(w[0] * p + w[1] * p + w[2] * p == (w[0] + w[1] + w[2]) * p) by (nonlinear_arith);
}

/// Interpolating by `0 / d` stays at the start and by `d / d` reaches the end.
pub proof fn lemma_lerp_endpoints(a: u32, b: u32, d: u32)
    requires
        d > 0,
    ensures
        lerp_weight(a, b, 0, d) == a,
        lerp_weight(a, b, d, d) == b,
{
    assert((b - a) * 0 == 0) by (nonlinear_arith);
    assert(((b - a) * d) / (d as int) == b - a) by {
        lemma_div_multiples_vanish(b - a, d as int);
        assert((b - a) * d == d * (b - a)) by (nonlinear_arith);
    }
}

/// Moving a grid point by its difference to another grid point of the same
/// denominator lands exactly on that point, and stays inside the triangle.
pub proof fn lemma_difference_then_checked_add(a: BaryIterative, b: BaryIterative)
    requires
        a.on_grid(),
        b.on_grid(),
        a.denominator == b.denominator,
        a.fits_i32(),
        b.fits_i32(),
    ensures
        ({
            let diff = [
                (b.weights[0] - a.weights[0]) as i32,
                (b.weights[1] - a.weights[1]) as i32,
                (b.weights[2] - a.weights[2]) as i32,
            ];
            &&& diff[0] + diff[1] + diff[2] == 0
            &&& a.move_stays_inside(diff)
            &&& forall|k: int| 0 <= k < 3 ==> #[trigger] BaryIterative::moved(a.weights, diff)[k] == b.weights[k]
        }),
{
    let diff = [
        (b.weights[0] - a.weights[0]) as i32,
        (b.weights[1] - a.weights[1]) as i32,
        (b.weights[2] - a.weights[2]) as i32,
    ];
    let m = BaryIterative::moved(a.weights, diff);
    assert(m[0] == b.weights[0] && m[1] == b.weights[1] && m[2] == b.weights[2]);
}

/// The ratios of a grid point (weights over a positive denominator they sum to) add
/// up to one: `n0/e0 + n1/e1 + n2/e2 == 1` for the reduced fractions `nk/ek`.
pub proof fn lemma_ratios_sum_to_one(b: BaryIterative)
    requires
        b.on_grid(),
        b.denominator > 0,
    ensures
        ({
            let r0 = GridRatio::reduced(b.weights[0], b.denominator);
            let r1 = GridRatio::reduced(b.weights[1], b.denominator);
            let r2 = GridRatio::reduced(b.weights[2], b.denominator);
            r0.numer * r1.denom * r2.denom + r1.numer * r0.denom * r2.denom + r2.numer * r0.denom
                * r1.denom == r0.denom * r1.denom * r2.denom
        }),
{
    let d = b.denominator as int;
    let r0 = GridRatio::reduced(b.weights[0], b.denominator);
    let r1 = GridRatio::reduced(b.weights[1], b.denominator);
    let r2 = GridRatio::reduced(b.weights[2], b.denominator);
    lemma_reduced_value(b.weights[0], b.denominator);
    lemma_reduced_value(b.weights[1], b.denominator);
    lemma_reduced_value(b.weights[2], b.denominator);
    let (n0, n1, n2) = (r0.numer as int, r1.numer as int, r2.numer as int);
    let (e0, e1, e2) = (r0.denom as int, r1.denom as int, r2.denom as int);
    let (w0, w1, w2) = (b.weights[0] as int, b.weights[1] as int, b.weights[2] as int);
    let e = e0 * e1 * e2;
    assert(d * (n0 * e1 * e2) == w0 * e) by (nonlinear_arith)
        requires n0 * d == w0 * e0, e == e0 * e1 * e2;
    assert(d * (n1 * e0 * e2) == w1 * e) by (nonlinear_arith)
        requires n1 * d == w1 * e1, e == e0 * e1 * e2;
    assert(d * (n2 * e0 * e1) == w2 * e) by (nonlinear_arith)
        requires n2 * d == w2 * e2, e == e0 * e1 * e2;
    assert(w0 * e + w1 * e + w2 * e == d * e) by (nonlinear_arith)
        requires w0 + w1 + w2 == d;
    let (x0, x1, x2) = (n0 * e1 * e2, n1 * e0 * e2, n2 * e0 * e1);
    assert(d * (x0 + x1 + x2) == d * x0 + d * x1 + d * x2) by (nonlinear_arith);
    assert(n0 * e1 * e2 + n1 * e0 * e2 + n2 * e0 * e1 == e0 * e1 * e2) by (nonlinear_arith)
        requires
            d * (n0 * e1 * e2 + n1 * e0 * e2 + n2 * e0 * e1) == d * (e0 * e1 * e2),
            d > 0,
    ;
}

/// Each of three weights over a common positive denominator, in lowest terms.
pub fn grid_ratios(weights: [u32; 3], denominator: u32) -> (r: [GridRatio; 3])
    requires
        denominator > 0,
    ensures
        forall|k: int| 0 <= k < 3 ==> r[k] == GridRatio::reduced(weights[k], denominator),
{
    [
        GridRatio::new(weights[0], denominator),
        GridRatio::new(weights[1], denominator),
        GridRatio::new(weights[2], denominator),
    ]
}

/// `a + (b - a) * n / d` for one weight, when `d` divides `b - a`.
fn lerp_one(a: u32, b: u32, n: u32, d: u32) -> (r: u32)
    requires
        d > 0,
        n <= d,
        (b - a) % (d as int) == 0,
        a <= i32::MAX,
        b <= i32::MAX,
    ensures
        r == lerp_weight(a, b, n, d),
{
    if a <= b {
        let diff = (b - a) as u64;
        assert(diff * n <= u64::MAX) by (nonlinear_arith)
            requires diff <= u32::MAX, n <= u32::MAX;
        let step = diff * (n as u64) / (d as u64);
        proof {
            assert(diff * n <= diff * d) by (nonlinear_arith)
                requires n <= d;
            assert(step <= diff) by (nonlinear_arith)
                requires step == diff * n / (d as int), diff * n <= diff * d, d > 0;
            assert(diff as int == b - a);
            assert(step == (b - a) * n / (d as int));
        }
        a + step as u32
    } else {
        let diff = (a - b) as u64;
        assert(diff * n <= u64::MAX) by (nonlinear_arith)
            requires diff <= u32::MAX, n <= u32::MAX;
        let step = diff * (n as u64) / (d as u64);
        proof {
            assert(diff * n <= diff * d) by (nonlinear_arith)
                requires n <= d;
            assert(step <= diff) by (nonlinear_arith)
                requires step == diff * n / (d as int), diff * n <= diff * d, d > 0;
            let q = (b - a) / (d as int);
            lemma_fundamental_div_mod(b - a, d as int);
            assert(b - a == d * q);
            assert(diff as int == d * (-q)) by (nonlinear_arith)
                requires b - a == d * q, diff as int == a - b;
            assert(diff * n == d * ((-q) * n)) by (nonlinear_arith)
                requires diff as int == d * (-q);
            assert((b - a) * n == d * (q * n)) by (nonlinear_arith)
                requires b - a == d * q;
            lemma_div_multiples_vanish((-q) * n, d as int);
            lemma_div_multiples_vanish(q * n, d as int);
            assert(step == (-q) * n);
            assert(lerp_weight(a, b, n, d) == a + q * n);
            assert(-((-q) * n) == q * n) by (nonlinear_arith);
            assert(a - step == a + q * n);
        }
        a - step as u32
    }
}

} // verus!
