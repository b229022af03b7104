use sphere_world::bary_iterative::{grid_ratios, BaryIterative};
use sphere_world::ratio::GridRatio;

fn bary(w: [u32; 3]) -> BaryIterative {
    BaryIterative::new(w)
}

#[test]
fn ratio_is_reduced() {
    assert_eq!(GridRatio::new(2, 4), GridRatio { numer: 1, denom: 2 });
    assert_eq!(GridRatio::new(0, 5), GridRatio { numer: 0, denom: 1 });
    assert_eq!(GridRatio::new(6, 6), GridRatio { numer: 1, denom: 1 });
    assert_eq!(GridRatio::new(12, 18), GridRatio { numer: 2, denom: 3 });
    assert_eq!(GridRatio::new(7, 16), GridRatio { numer: 7, denom: 16 });
}

#[test]
fn new_sums_weights() {
    let b = bary([4, 0, 0]);
    assert_eq!(b.weights, [4, 0, 0]);
    assert_eq!(b.denominator, 4);
    assert_eq!(bary([3, 2, 1]).denominator, 6);
}

#[test]
fn corner_finds_full_weight() {
    assert_eq!(bary([16, 0, 0]).corner(), Some(0));
    assert_eq!(bary([0, 0, 16]).corner(), Some(2));
    assert_eq!(bary([8, 8, 0]).corner(), None);
    // denominator kept apart from the weights: first weight equal to it wins
    let odd = BaryIterative { weights: [2, 2, 0], denominator: 2 };
    assert_eq!(odd.corner(), Some(0));
}

#[test]
fn edge_from_first_zero_weight() {
    // [8, 8, 0]: weight 2 is zero, edge from corner 0 to corner 1, halfway
    assert_eq!(bary([8, 8, 0]).edge(), Some((0, 1, GridRatio { numer: 1, denom: 2 })));
    // [12, 4, 0] is a quarter of the way
    assert_eq!(bary([12, 4, 0]).edge(), Some((0, 1, GridRatio { numer: 1, denom: 4 })));
    // [0, 3, 1]: weight 0 is zero, edge from corner 1 to corner 2
    assert_eq!(bary([0, 3, 1]).edge(), Some((1, 2, GridRatio { numer: 1, denom: 4 })));
    // [2, 0, 2]: edge from corner 2 to corner 0, weight of corner 0
    assert_eq!(bary([2, 0, 2]).edge(), Some((2, 0, GridRatio { numer: 1, denom: 2 })));
    assert_eq!(bary([1, 1, 2]).edge(), None);
}

#[test]
fn lerp_moves_along_the_grid() {
    let a = bary([4, 0, 0]);
    let b = bary([0, 4, 0]);
    let half = a.lerp(&b, GridRatio::new(1, 2));
    assert_eq!(half.weights, [2, 2, 0]);
    assert_eq!(half.denominator, 4);
    let quarter = a.lerp(&b, GridRatio::new(1, 4));
    assert_eq!(quarter.weights, [3, 1, 0]);
    assert_eq!(a.lerp(&b, GridRatio::new(0, 4)).weights, [4, 0, 0]);
    assert_eq!(a.lerp(&b, GridRatio::new(4, 4)).weights, [0, 4, 0]);
}

#[test]
fn mesh_index_lays_out_rows() {
    // grid of denominator 2: row z = 0 holds x = 0, 1, 2 at 0, 1, 2
    assert_eq!(bary([0, 2, 0]).to_mesh_index(), 0);
    assert_eq!(bary([1, 1, 0]).to_mesh_index(), 1);
    assert_eq!(bary([2, 0, 0]).to_mesh_index(), 2);
    assert_eq!(bary([0, 1, 1]).to_mesh_index(), 3);
    assert_eq!(bary([1, 0, 1]).to_mesh_index(), 4);
    assert_eq!(bary([0, 0, 2]).to_mesh_index(), 5);
    // denominator 4: the top corner is the last of 15 slots
    assert_eq!(bary([0, 0, 4]).to_mesh_index(), 14);
}

#[test]
fn upsample_then_downsample_round_trips() {
    let b = bary([3, 1, 0]);
    let up = b.upsample(2);
    assert_eq!(up.weights, [12, 4, 0]);
    assert_eq!(up.denominator, 16);
    let down = up.downsample(2).unwrap();
    assert_eq!(down.weights, [3, 1, 0]);
    assert_eq!(down.denominator, 4);
}

#[test]
fn downsample_refuses_lost_precision() {
    assert_eq!(bary([6, 2, 0]).downsample(1).map(|b| b.weights), Some([3, 1, 0]));
    assert_eq!(bary([6, 2, 0]).downsample(2), None);
    assert_eq!(bary([5, 3, 0]).downsample(1), None);
    assert_eq!(bary([5, 3, 0]).downsample(0).map(|b| b.weights), Some([5, 3, 0]));
    assert_eq!(bary([4, 4, 0]).downsample(33), None);
    assert_eq!(bary([0, 0, 0]).downsample(31).map(|b| b.weights), Some([0, 0, 0]));
}

#[test]
fn checked_add_stays_inside() {
    let b = bary([2, 2, 0]);
    let moved = b.checked_add([1, -1, 0]).unwrap();
    assert_eq!(moved.weights, [3, 1, 0]);
    assert_eq!(moved.denominator, 4);
    assert_eq!(b.checked_add([-3, 3, 0]), None);
    assert_eq!(b.checked_add([3, -3, 0]), None);
    assert_eq!(b.checked_add([0, 0, 0]).map(|c| c.weights), Some([2, 2, 0]));
}

#[test]
fn difference_then_add_reaches_other_point() {
    let a = bary([4, 0, 4]);
    let b = bary([2, 6, 0]);
    let d = b.difference(a);
    assert_eq!(d, [-2, 6, -4]);
    assert_eq!(a.checked_add(d).map(|c| c.weights), Some([2, 6, 0]));
}

#[test]
fn ratios_over_denominator() {
    let r = bary([2, 1, 1]).as_ratios();
    assert_eq!(
        r,
        [
            GridRatio { numer: 1, denom: 2 },
            GridRatio { numer: 1, denom: 4 },
            GridRatio { numer: 1, denom: 4 },
        ]
    );
    assert_eq!(grid_ratios([0, 3, 3], 6)[0], GridRatio { numer: 0, denom: 1 });
}

#[test]
fn slerp_fractions_of_points() {
    // corner 0: both fractions zero
    assert_eq!(bary([4, 0, 0]).slerp_fractions(), ((0, 1), (0, 1)));
    // [1, 2, 1]: along 0-1 by 2/3, then towards the other side by 1/2
    assert_eq!(bary([1, 2, 1]).slerp_fractions(), ((2, 3), (1, 2)));
    assert_eq!(bary([0, 0, 4]).slerp_fractions(), ((0, 1), (4, 4)));
}
