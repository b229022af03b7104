use sphere_world::bary_iterative::BaryIterative;
use sphere_world::subdivision::{
    corner_weights, descend, edge_weights, locate, snap_numerators, to_parent_weights, DescentEnd,
    PlaneCmp, PointLocation, SUB_TRIANGLE_CORNERS,
};

use PlaneCmp::{Neg, Pos, Zero};

#[test]
fn location_table() {
    assert_eq!(locate([Pos, Pos, Pos]), PointLocation::Inside);
    assert_eq!(locate([Zero, Pos, Zero]), PointLocation::Corner(0));
    assert_eq!(locate([Zero, Zero, Pos]), PointLocation::Corner(1));
    assert_eq!(locate([Pos, Zero, Zero]), PointLocation::Corner(2));
    assert_eq!(locate([Zero, Pos, Pos]), PointLocation::Edge(0, 1));
    assert_eq!(locate([Pos, Zero, Pos]), PointLocation::Edge(1, 2));
    assert_eq!(locate([Pos, Pos, Zero]), PointLocation::Edge(2, 0));
    assert_eq!(locate([Neg, Pos, Pos]), PointLocation::Outside);
    assert_eq!(locate([Zero, Zero, Zero]), PointLocation::Outside);
    assert_eq!(locate([Pos, Pos, Neg]), PointLocation::Outside);
}

#[test]
fn corner_and_edge_weights_at_four_subdivisions() {
    // a corner, an edge midpoint and an edge quarter at 16 sections
    assert_eq!(corner_weights(0, 4), [16, 0, 0]);
    assert_eq!(edge_weights(0, 1, 8, 4), [8, 8, 0]);
    assert_eq!(edge_weights(0, 1, 4, 4), [12, 4, 0]);
    assert_eq!(edge_weights(2, 0, 1, 2), [1, 0, 3]);
    assert_eq!(corner_weights(2, 0), [0, 0, 1]);
}

#[test]
fn sub_triangle_weights_back_to_parent() {
    // centre of the inner sub-triangle is the centre of the parent
    assert_eq!(to_parent_weights([1, 1, 1], 3), [2, 2, 2]);
    // a corner of outer sub-triangle 0
    assert_eq!(to_parent_weights([1, 0, 0], 0), [2, 0, 0]);
    assert_eq!(to_parent_weights([0, 1, 0], 0), [1, 1, 0]);
    assert_eq!(to_parent_weights([2, 1, 1], 1), [1, 6, 1]);
    for t in 0..4 {
        for k in 0..3 {
            let row = SUB_TRIANGLE_CORNERS[t][k];
            assert_eq!(row.iter().sum::<u32>(), 2);
        }
    }
}

#[test]
fn every_parent_point_has_a_child() {
    let m = 3u32;
    for a in 0..=2 * m {
        for b in 0..=2 * m - a {
            let parent = [a, b, 2 * m - a - b];
            let mut found = false;
            for t in 0..4 {
                for x in 0..=m {
                    for y in 0..=m - x {
                        if to_parent_weights([x, y, m - x - y], t) == parent {
                            found = true;
                        }
                    }
                }
            }
            assert!(found, "{parent:?}");
        }
    }
}

#[test]
fn snapping_numerators() {
    assert_eq!(snap_numerators([0, 1, 1], 1), Some([0, 1, 1]));
    assert_eq!(snap_numerators([-1, 2, 1], 1), None);
    assert_eq!(snap_numerators([3, 0, -1], 1), None);
    assert_eq!(snap_numerators([4, 0, 0], 2), Some([4, 0, 0]));
}

#[test]
fn grid_of_subdivisions() {
    let b = BaryIterative::on_subdivision_grid([8, 8, 0], 4);
    assert_eq!(b.denominator, 16);
    assert_eq!(b.weights, [8, 8, 0]);
}

#[test]
fn descent_lands_on_the_top_grid() {
    // no step: the corner of the top triangle itself
    let g = descend(&vec![], DescentEnd::Corner(0), 4);
    assert_eq!((g.weights, g.denominator), ([16, 0, 0], 16));
    // one step into the middle triangle, ending on its edge 0-1 at its far corner
    let g = descend(&vec![3], DescentEnd::Edge(0, 1, 1), 1);
    assert_eq!((g.weights, g.denominator), ([0, 1, 1], 2));
    // outer triangle 0, then the middle one, then corner 2 one level down
    let g = descend(&vec![0, 3], DescentEnd::Corner(2), 3);
    assert_eq!((g.weights, g.denominator), ([6, 0, 2], 8));
    assert_eq!(g.weights.iter().sum::<u32>(), g.denominator);
    // an edge point halfway, two levels below the top
    let g = descend(&vec![1, 2], DescentEnd::Edge(2, 0, 1), 3);
    assert_eq!(g.weights.iter().sum::<u32>(), 8);
}
