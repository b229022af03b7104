use sphere_world::bary_iterative::BaryIterative;
use sphere_world::ratio::GridRatio;
use sphere_world::triangle::{TrianglePointCmp, TriangleTriangleCmp};

use TrianglePointCmp::{Corner, Inside, Outside};

fn edge(v0: usize, v1: usize, n: u32, d: u32) -> TrianglePointCmp {
    TrianglePointCmp::Edge { v0, v1, t: GridRatio { numer: n, denom: d } }
}

#[test]
fn point_from_bary() {
    assert_eq!(TrianglePointCmp::from_bary(None), Outside);
    assert_eq!(TrianglePointCmp::from_bary(Some(BaryIterative::new([4, 0, 0]))), Corner(0));
    assert_eq!(TrianglePointCmp::from_bary(Some(BaryIterative::new([0, 0, 4]))), Corner(2));
    assert_eq!(TrianglePointCmp::from_bary(Some(BaryIterative::new([2, 2, 0]))), edge(0, 1, 1, 2));
    assert_eq!(TrianglePointCmp::from_bary(Some(BaryIterative::new([1, 0, 3]))), edge(2, 0, 1, 4));
    assert_eq!(TrianglePointCmp::from_bary(Some(BaryIterative::new([1, 2, 1]))), Inside);
}

#[test]
fn triangle_relations() {
    let e = edge(0, 1, 1, 2);
    assert_eq!(TriangleTriangleCmp::from_point_cmps([Corner(0), Corner(1), Corner(2)]), TriangleTriangleCmp::Same);
    assert_eq!(TriangleTriangleCmp::from_point_cmps([Outside, Corner(1), Corner(2)]), TriangleTriangleCmp::Sibling);
    assert_eq!(TriangleTriangleCmp::from_point_cmps([Outside, Outside, Outside]), TriangleTriangleCmp::Unrelated);
    assert_eq!(TriangleTriangleCmp::from_point_cmps([Outside, Outside, Corner(0)]), TriangleTriangleCmp::Unrelated);
    assert_eq!(TriangleTriangleCmp::from_point_cmps([Outside, Corner(0), e]), TriangleTriangleCmp::Unc);
    assert_eq!(TriangleTriangleCmp::from_point_cmps([Outside, e, e]), TriangleTriangleCmp::Unc);
    assert_eq!(TriangleTriangleCmp::from_point_cmps([Outside, Outside, e]), TriangleTriangleCmp::Unc);
    assert_eq!(TriangleTriangleCmp::from_point_cmps([Inside, Outside, Outside]), TriangleTriangleCmp::Ancestor);
    assert_eq!(TriangleTriangleCmp::from_point_cmps([e, e, e]), TriangleTriangleCmp::Ancestor);
    assert_eq!(TriangleTriangleCmp::from_point_cmps([Corner(1), e, e]), TriangleTriangleCmp::Ancestor);
}
