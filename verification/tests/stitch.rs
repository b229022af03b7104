use sphere_world::bary_iterative::BaryIterative;
use sphere_world::ratio::GridRatio;
use sphere_world::stitch::{
    corner_overrides, edge_overrides, find_landing, first_edge_candidate, sample_slot, vertex_override,
    MeshOverride, VertexSource,
};

fn b(w: [u32; 3]) -> BaryIterative {
    BaryIterative::new(w)
}

fn half() -> GridRatio {
    GridRatio { numer: 1, denom: 2 }
}

#[test]
fn edge_half_the_length_of_the_adjacent_edge() {
    // The chunk's edge runs along the first half of the adjacent chunk's edge 0-1,
    // which is one level coarser.
    let plan = edge_overrides(b([4, 0, 0]), b([0, 4, 0]), b([8, 0, 0]), b([4, 4, 0]), 1).unwrap();
    assert_eq!(
        plan,
        vec![
            MeshOverride { index: 4, source: VertexSource::Vertex(4) },
            MeshOverride { index: 3, source: VertexSource::Blend { from: 4, to: 3, t: half() } },
            MeshOverride { index: 2, source: VertexSource::Vertex(3) },
            MeshOverride { index: 1, source: VertexSource::Blend { from: 3, to: 2, t: half() } },
            MeshOverride { index: 0, source: VertexSource::Vertex(2) },
        ]
    );
}

#[test]
fn edge_at_the_same_level() {
    let plan = edge_overrides(b([4, 0, 0]), b([0, 4, 0]), b([4, 0, 0]), b([0, 4, 0]), 0).unwrap();
    let sources: Vec<VertexSource> = plan.iter().map(|o| o.source).collect();
    assert_eq!(
        sources,
        vec![4, 3, 2, 1, 0].into_iter().map(VertexSource::Vertex).collect::<Vec<_>>()
    );
}

#[test]
fn edge_with_unreachable_end() {
    // the adjacent grid is not a refinement where a coarse vertex can be reached
    assert!(edge_overrides(b([4, 0, 0]), b([0, 4, 0]), b([7, 1, 0]), b([5, 3, 0]), 1).is_none());
}

#[test]
fn landing_searches() {
    assert_eq!(find_landing(b([5, 3, 0]), [1, -1, 0], 1, 2), Some(1));
    assert_eq!(find_landing(b([6, 2, 0]), [1, -1, 0], 1, 2), Some(0));
    assert_eq!(find_landing(b([5, 3, 0]), [0, 0, 0], 1, 2), None);
}

#[test]
fn samples_between_ends() {
    assert_eq!(sample_slot(b([8, 0, 0]), b([4, 4, 0]), 2, 4, 1), Some(3));
    assert_eq!(sample_slot(b([8, 0, 0]), b([4, 4, 0]), 1, 4, 1), None);
    assert_eq!(sample_slot(b([8, 0, 0]), b([4, 4, 0]), 5, 4, 1), None);
}

#[test]
fn corner_on_adjacent_vertex_or_edge() {
    assert_eq!(
        vertex_override(b([0, 0, 4]), b([4, 4, 0]), 1),
        Some(MeshOverride { index: 14, source: VertexSource::Vertex(2) })
    );
    assert_eq!(
        vertex_override(b([0, 0, 4]), b([5, 3, 0]), 1),
        Some(MeshOverride { index: 14, source: VertexSource::Blend { from: 3, to: 2, t: half() } })
    );
    // strictly inside the adjacent chunk: no edge to walk along
    assert_eq!(vertex_override(b([0, 0, 4]), b([5, 2, 1]), 1), None);
}

#[test]
fn plans_stay_inside_both_meshes() {
    // own mesh of denominator 4 has 15 slots; a coarse mesh of denominator 8 / 2 = 4 too
    let own = 15;
    let coarse = 15;
    let ends = [([8, 0, 0], [4, 4, 0]), ([4, 4, 0], [0, 8, 0]), ([6, 2, 0], [2, 6, 0]), ([0, 2, 6], [0, 6, 2])];
    for (a, c) in ends {
        if let Some(plan) = edge_overrides(b([4, 0, 0]), b([0, 4, 0]), b(a), b(c), 1) {
            for o in plan {
                assert!(o.index < own);
                match o.source {
                    VertexSource::Vertex(s) => assert!(s < coarse),
                    VertexSource::Blend { from, to, .. } => assert!(from < coarse && to < coarse),
                }
            }
        }
    }
}

#[test]
fn first_candidate_with_both_corners_wins() {
    let c = vec![
        (Some(b([4, 0, 0])), None),
        (None, None),
        (Some(b([8, 0, 0])), Some(b([4, 4, 0]))),
        (Some(b([4, 0, 0])), Some(b([0, 4, 0]))),
    ];
    assert_eq!(first_edge_candidate(&c), Some(2));
    assert_eq!(first_edge_candidate(&c[..2].to_vec()), None);
    assert_eq!(first_edge_candidate(&vec![]), None);
}

#[test]
fn corner_overrides_stop_at_the_first_blend() {
    let own = b([0, 0, 4]);
    let vertex = MeshOverride { index: 14, source: VertexSource::Vertex(2) };
    let blend = MeshOverride { index: 14, source: VertexSource::Blend { from: 3, to: 2, t: half() } };
    // a candidate without the corner is skipped; a vertex does not stop the list
    let c = vec![(None, 1), (Some(b([4, 4, 0])), 1), (Some(b([5, 3, 0])), 1), (Some(b([4, 4, 0])), 1)];
    assert_eq!(corner_overrides(own, &c), Some(vec![vertex, blend]));
    assert_eq!(corner_overrides(own, &vec![(None, 1)]), Some(vec![]));
    // a candidate that has the corner strictly inside gives no plan
    assert_eq!(corner_overrides(own, &vec![(Some(b([4, 4, 0])), 1), (Some(b([5, 2, 1])), 1)]), None);
}
