use sphere_world::chunks::{
    add_unique, icosahedron_faces, lod_visibility, visible_chunks, AdjacencySearch, ChunkNode,
    WorldRoot,
};
use sphere_world::triangle::TriangleTriangleCmp;

fn roots() -> [u64; 20] {
    std::array::from_fn(|i| 100 + i as u64)
}

#[test]
fn icosahedron_has_twenty_faces() {
    let faces = icosahedron_faces();
    assert_eq!(faces.len(), 20);
    assert!(faces.iter().all(|f| f.iter().all(|&v| v < 12)));
}

#[test]
fn root_siblings_are_mutual() {
    let faces = icosahedron_faces();
    let world = WorldRoot::from_faces(roots(), &faces).expect("twenty faces, three siblings each");
    for i in 0..20u64 {
        let siblings = world.get_siblings(100 + i).unwrap();
        for s in siblings {
            assert_ne!(s, 100 + i);
            let back = world.get_siblings(s).unwrap();
            assert!(back.contains(&(100 + i)), "{i} -> {s}");
        }
        // siblings are distinct
        assert!(siblings[0] != siblings[1] && siblings[1] != siblings[2] && siblings[0] != siblings[2]);
    }
    assert_eq!(world.get_siblings(7), None);
}

#[test]
fn world_root_needs_twenty_faces() {
    let faces = icosahedron_faces();
    assert!(WorldRoot::from_faces(roots(), &faces[..19].to_vec()).is_none());
    // a face sharing edges with four others is refused
    let mut crowded: Vec<[u32; 3]> = vec![[0, 1, 2], [0, 1, 3], [1, 2, 4], [0, 2, 5], [0, 1, 6]];
    crowded.extend((0..15u32).map(|k| [100 + 3 * k, 101 + 3 * k, 102 + 3 * k]));
    assert!(WorldRoot::from_faces(roots(), &crowded).is_none());
}

#[test]
fn adjacency_search_walks_the_tree() {
    let mut search = AdjacencySearch::new(roots());
    let first = search.next_candidate();
    assert_eq!(first, Some(100));
    // 100 is an ancestor: its children are queued
    search.record(100, TriangleTriangleCmp::Ancestor, Some(&vec![200, 201]));
    for expect in 101..120u64 {
        let c = search.next_candidate().unwrap();
        assert_eq!(c, expect);
        search.record(c, TriangleTriangleCmp::Unrelated, None);
    }
    assert_eq!(search.next_candidate(), Some(200));
    search.record(200, TriangleTriangleCmp::Unc, Some(&vec![300]));
    assert_eq!(search.next_candidate(), Some(201));
    search.record(201, TriangleTriangleCmp::Unc, None);
    assert_eq!(search.next_candidate(), Some(300));
    search.record(300, TriangleTriangleCmp::Sibling, Some(&vec![400]));
    assert_eq!(search.next_candidate(), None);
    assert_eq!(search.into_adjacent(), vec![200, 201]);
}

#[test]
fn add_unique_skips_present() {
    let mut v = vec![1u64, 2];
    add_unique(&mut v, 2);
    assert_eq!(v, vec![1, 2]);
    add_unique(&mut v, 5);
    assert_eq!(v, vec![1, 2, 5]);
}

#[test]
fn icosahedron_faces_match_the_table() {
    let expected: Vec<[u32; 3]> = vec![
        [0, 2, 1], [0, 3, 2], [0, 4, 3], [0, 5, 4], [0, 1, 5],
        [5, 1, 6], [1, 2, 7], [2, 3, 8], [3, 4, 9], [4, 5, 10],
        [5, 6, 10], [1, 7, 6], [2, 8, 7], [3, 9, 8], [4, 10, 9],
        [10, 6, 11], [6, 7, 11], [7, 8, 11], [8, 9, 11], [9, 10, 11],
    ];
    assert_eq!(icosahedron_faces(), expected);
}

#[test]
fn root_world_has_three_siblings_per_face() {
    let world = WorldRoot::root(roots());
    for i in 0..20u64 {
        let siblings = world.get_siblings(100 + i).unwrap();
        assert!(siblings[0] != siblings[1] && siblings[1] != siblings[2] && siblings[0] != siblings[2]);
        for s in siblings {
            assert_ne!(s, 100 + i);
            assert!(world.get_siblings(s).unwrap().contains(&(100 + i)));
        }
    }
    // face 0 = [0, 2, 1] shares an edge with faces 1, 4 and 6, in that order
    assert_eq!(world.get_siblings(100), Some([101, 104, 106]));
    let built = WorldRoot::from_faces(roots(), &icosahedron_faces()).unwrap();
    for i in 0..20u64 {
        assert_eq!(world.get_siblings(100 + i), built.get_siblings(100 + i));
    }
}

fn node(visible: bool, children: Vec<usize>) -> ChunkNode {
    ChunkNode { visible, children }
}

#[test]
fn visible_chunks_pass_through_hidden_ones() {
    // 0 hidden with children 1, 2; 1 visible with hidden children 3, 4;
    // 2 hidden with children 5 (visible) and 6 (hidden, child 7 visible)
    let nodes = vec![
        node(false, vec![1, 2]),
        node(true, vec![3, 4]),
        node(false, vec![5, 6]),
        node(false, vec![]),
        node(false, vec![]),
        node(true, vec![]),
        node(false, vec![7]),
        node(true, vec![]),
    ];
    assert_eq!(visible_chunks(&nodes, &vec![0]), vec![1, 5, 7]);
    assert_eq!(visible_chunks(&nodes, &vec![2, 1]), vec![1, 5, 7]);
    // breadth first: a hidden chunk's children go behind the rest of the queue
    assert_eq!(visible_chunks(&nodes, &vec![6, 5]), vec![5, 7]);
    // a hidden leaf hands out nothing
    assert_eq!(visible_chunks(&nodes, &vec![3, 4]), Vec::<usize>::new());
    assert_eq!(visible_chunks(&nodes, &vec![]), Vec::<usize>::new());
}

#[test]
fn lod_shows_far_chunks_and_hides_below() {
    // 0 has children 1, 2; 1 has 3, 4; 2 has 5; 3 has 6; all start visible
    let nodes = vec![
        node(true, vec![1, 2]),
        node(true, vec![3, 4]),
        node(true, vec![5]),
        node(true, vec![6]),
        node(true, vec![]),
        node(true, vec![]),
        node(true, vec![]),
    ];
    // root far enough: shown, everything below hidden
    let show = vec![true, true, true, true, true, true, true];
    assert_eq!(lod_visibility(&nodes, &show, &vec![0]), vec![true, false, false, false, false, false, false]);
    // nothing far enough: the walk goes down to the leaves and shows them
    let show = vec![false; 7];
    assert_eq!(lod_visibility(&nodes, &show, &vec![0]), vec![false, false, false, false, true, true, true]);
    // 1 far enough, 2 not: 1 shown with its subtree hidden, 2 hidden, its leaf 5 shown
    let show = vec![false, true, false, true, true, false, false];
    assert_eq!(lod_visibility(&nodes, &show, &vec![0]), vec![false, true, false, false, false, true, false]);
    // chunks the walk does not reach keep their visibility
    let show = vec![false; 7];
    assert_eq!(lod_visibility(&nodes, &show, &vec![2]), vec![true, true, false, true, true, true, true]);
}
