use vstd::prelude::*;

use crate::bary_iterative::BaryIterative;
use crate::ratio::GridRatio;

verus! {

/// Where a point lies relative to a triangle, at some grid resolution.
#[derive(Clone, Copy, Debug, PartialEq, Eq, Structural)]
pub enum TrianglePointCmp {
    Outside,
    /// Index of triangle vertex
    Corner(usize),
    Edge {
        v0: usize,
        v1: usize,
        /// How far along V0-V1
        t: GridRatio,
    },
    Inside,
}

/// How one triangle of the subdivided sphere relates to another, judged from where
/// its three vertices lie on the other.
#[derive(Clone, Copy, Debug, PartialEq, Eq, Structural)]
pub enum TriangleTriangleCmp {
    Same,
    Unrelated,
    Sibling,
    Unc,
    Ancestor,
}

/// The point comparison given by a grid coordinate on the triangle (or its absence):
/// no coordinate is outside, a weight at the denominator is that corner, otherwise a
/// zero weight puts the point on an edge, and anything else is inside.
pub open spec fn point_position(bary: Option<BaryIterative>) -> TrianglePointCmp {
    match bary {
        None => TrianglePointCmp::Outside,
        Some(b) => if b.weights[0] == b.denominator {
            TrianglePointCmp::Corner(0)
        } else if b.weights[1] == b.denominator {
            TrianglePointCmp::Corner(1)
        } else if b.weights[2] == b.denominator {
            TrianglePointCmp::Corner(2)
        } else {
            match b.first_zero() {
                Some(i) => TrianglePointCmp::Edge {
                    v0: ((i + 1) % 3) as usize,
                    v1: ((i + 2) % 3) as usize,
                    t: GridRatio::reduced(b.weights[(i + 2) % 3], b.denominator),
                },
                None => TrianglePointCmp::Inside,
            }
        },
    }
}

/// Category of a point comparison: 0 outside, 1 corner, 2 edge, 3 inside.
pub open spec fn category(c: TrianglePointCmp) -> int {
    match c {
        TrianglePointCmp::Outside => 0,
        TrianglePointCmp::Corner(_) => 1,
        TrianglePointCmp::Edge { .. } => 2,
        TrianglePointCmp::Inside => 3,
    }
}

/// Number of the three comparisons in category `k`.
pub open spec fn count_category(cmps: [TrianglePointCmp; 3], k: int) -> int {
    (if category(cmps[0]) == k {
        1int
    } else {
        0
    }) + (if category(cmps[1]) == k {
        1int
    } else {
        0
    }) + (if category(cmps[2]) == k {
        1int
    } else {
        0
    })
}

/// The relation table over the counts `[outside, corner, edge, inside]` of a
/// triangle's vertices on another triangle, tried in order: any vertex inside, three
/// on edges, or a corner and two edges make the other an ancestor; one outside with
/// a corner and an edge, one outside with two edges, or two outside with one edge make
/// it an uncle; one outside with two corners a sibling; three corners the same
/// triangle; three outside, or two outside with one corner, unrelated. Two corners
/// with one edge fits no row.
pub open spec fn relation_of_counts(o: int, c: int, e: int, i: int) -> Option<TriangleTriangleCmp> {
    if i >= 1 || e >= 3 || (c == 1 && e == 2) {
        Some(TriangleTriangleCmp::Ancestor)
    } else if (o == 1 && c == 1 && e == 1) || (o == 1 && e == 2) || (o == 2 && e == 1) {
        Some(TriangleTriangleCmp::Unc)
    } else if o == 1 && c == 2 {
        Some(TriangleTriangleCmp::Sibling)
    } else if c >= 3 {
        Some(TriangleTriangleCmp::Same)
    } else if o >= 3 || (o == 2 && c == 1) {
        Some(TriangleTriangleCmp::Unrelated)
    } else {
        None
    }
}

/// The relation given by three point comparisons, if the table has a row for them.
pub open spec fn relation_of(cmps: [TrianglePointCmp; 3]) -> Option<TriangleTriangleCmp> {
    relation_of_counts(
        count_category(cmps, 0),
        count_category(cmps, 1),
        count_category(cmps, 2),
        count_category(cmps, 3),
    )
}

impl TrianglePointCmp {
    /// Compares a point with a triangle from the point's grid coordinate on the
    /// triangle, if it has one.
    pub fn from_bary(bary: Option<BaryIterative>) -> (r: TrianglePointCmp)
        requires
            bary matches Some(b) ==> (b.first_zero() is Some ==> b.denominator > 0),
        ensures
            r == point_position(bary),
    {
        match bary {
            None => TrianglePointCmp::Outside,
            Some(b) => {
                if let Some(i) = b.corner() {
                    return TrianglePointCmp::Corner(i);
                }
                if let Some((v0, v1, t)) = b.edge() {
                    return TrianglePointCmp::Edge { v0, v1, t };
                }
                TrianglePointCmp::Inside
            },
        }
    }
}

impl TriangleTriangleCmp {
    /// Relates a triangle to another from where its three vertices lie on the other.
    /// Two corners with one edge is no possible arrangement of the subdivided sphere.
    pub fn from_point_cmps(points: [TrianglePointCmp; 3]) -> (r: TriangleTriangleCmp)
        requires
            relation_of(points) is Some,
        ensures
            Some(r) == relation_of(points),
    {
        let mut counts = [0usize; 4];
        let mut k: usize = 0;
        while k < 3
            invariant
                k <= 3,
                forall|c: int|
                    0 <= c < 4 ==> counts[c] == (if k > 0 && category(points[0]) == c {
                        1int
                    } else {
                        0
                    }) + (if k > 1 && category(points[1]) == c {
                        1int
                    } else {
                        0
                    }) + (if k > 2 && category(points[2]) == c {
                        1int
                    } else {
                        0
                    }),
            decreases 3 - k,
        {
            let i: usize = match points[k] {
                TrianglePointCmp::Outside => 0,
                TrianglePointCmp::Corner(_) => 1,
                TrianglePointCmp::Edge { .. } => 2,
                TrianglePointCmp::Inside => 3,
            };
            counts[i] = counts[i] + 1;
            k = k + 1;
        }
        let (o, c, e, i) = (counts[0], counts[1], counts[2], counts[3]);
        assert(o == count_category(points, 0));
        assert(c == count_category(points, 1));
        assert(e == count_category(points, 2));
        assert(i == count_category(points, 3));
        if i >= 1 || e >= 3 || (c == 1 && e == 2) {
            TriangleTriangleCmp::Ancestor
        } else if (o == 1 && c == 1 && e == 1) || (o == 1 && e == 2) || (o == 2 && e == 1) {
            TriangleTriangleCmp::Unc
        } else if o == 1 && c == 2 {
            TriangleTriangleCmp::Sibling
        } else if c >= 3 {
            TriangleTriangleCmp::Same
        } else {
            TriangleTriangleCmp::Unrelated
        }
    }
}

/// The table has a row for every arrangement of three vertices except two corners
/// with one edge.
pub proof fn lemma_relation_total(cmps: [TrianglePointCmp; 3])
    ensures
        relation_of(cmps) is None <==> (count_category(cmps, 1) == 2 && count_category(cmps, 2)
            == 1),
{
}

/// A triangle is the same as another exactly when all three of its vertices are
/// corners of the other.
pub proof fn lemma_same_iff_three_corners(cmps: [TrianglePointCmp; 3])
    ensures
        relation_of(cmps) == Some(TriangleTriangleCmp::Same) <==> count_category(cmps, 1) == 3,
{
}

/// A vertex strictly inside the other triangle always makes the other an ancestor.
pub proof fn lemma_inside_means_ancestor(cmps: [TrianglePointCmp; 3])
    requires
        count_category(cmps, 3) >= 1,
    ensures
        relation_of(cmps) == Some(TriangleTriangleCmp::Ancestor),
{
}

/// On the grid, a corner comparison names the corner whose weight is the whole
/// denominator, and then the other two weights are zero.
pub proof fn lemma_corner_is_vertex(b: BaryIterative)
    requires
        b.on_grid(),
        point_position(Some(b)) matches TrianglePointCmp::Corner(_),
    ensures
        point_position(Some(b)) matches TrianglePointCmp::Corner(i) && i < 3 && b.weights[i as int]
            == b.denominator && forall|j: int| 0 <= j < 3 && j != i ==> b.weights[j] == 0,
{
}

} // verus!
