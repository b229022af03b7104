use sphere_world::mesh::{bary_mesh_triangles, bary_mesh_vertex_weights, MESH_STEPS, MESH_SUBDIVISIONS};

#[test]
fn mesh_constants() {
    assert_eq!(MESH_SUBDIVISIONS, 2);
    assert_eq!(MESH_STEPS, 1 << MESH_SUBDIVISIONS);
}

#[test]
fn single_triangle_mesh() {
    assert_eq!(bary_mesh_triangles(0), vec![1, 0, 2]);
    assert_eq!(bary_mesh_vertex_weights(0), vec![[0, 1, 0], [1, 0, 0], [0, 0, 1]]);
}

#[test]
fn once_subdivided_mesh() {
    assert_eq!(
        bary_mesh_triangles(1),
        vec![4, 3, 5, 1, 0, 3, 2, 1, 4, 3, 4, 1]
    );
    assert_eq!(
        bary_mesh_vertex_weights(1),
        vec![[0, 2, 0], [1, 1, 0], [2, 0, 0], [0, 1, 1], [1, 0, 1], [0, 0, 2]]
    );
}

#[test]
fn mesh_triangles_use_every_slot_in_range() {
    for s in 0..5u32 {
        let n = 1usize << s;
        let count = (n + 1) * (n + 2) / 2;
        let tris = bary_mesh_triangles(s);
        assert_eq!(tris.len(), 3 * n * n);
        assert!(tris.iter().all(|&i| (i as usize) < count));
        let verts = bary_mesh_vertex_weights(s);
        assert_eq!(verts.len(), count);
        // every slot holds a distinct grid point of the right denominator
        for (k, v) in verts.iter().enumerate() {
            assert_eq!(v[0] + v[1] + v[2], n as u32, "slot {k}");
        }
        let mut sorted = verts.clone();
        sorted.sort();
        sorted.dedup();
        assert_eq!(sorted.len(), count);
    }
}
