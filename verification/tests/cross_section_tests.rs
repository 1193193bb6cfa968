use bevy_extrude_mesh::cross_section::CrossSectionTopology;

#[test]
fn topology_of_square() {
    let indices: Vec<u32> = vec![0, 1, 2, 0, 2, 3];
    let topo = CrossSectionTopology::new(4, &indices);
    assert_eq!(topo.vertex_count, 4);
    assert_eq!(topo.face_index_count, 6);
    assert_eq!(topo.outline_edges, vec![0, 1, 1, 2, 2, 3, 3, 0]);
}

#[test]
fn topology_extrusion_matches_direct_build() {
    let indices: Vec<u32> = vec![0, 1, 2, 0, 2, 3];
    let topo = CrossSectionTopology::new(4, &indices);
    let out = topo.extrusion_indices(2);
    let direct = bevy_extrude_mesh::stitch::build_extrusion_indices(
        4,
        &vec![0, 1, 1, 2, 2, 3, 3, 0],
        6,
        2,
    );
    assert_eq!(out, direct);
}

#[test]
fn topology_indices_stay_in_range() {
    // Triangle cross-section over four path points: every populated index
    // must name one of the 3 * 4 swept vertices.
    let indices: Vec<u32> = vec![0, 1, 2];
    let topo = CrossSectionTopology::new(3, &indices);
    let out = topo.extrusion_indices(4);
    assert_eq!(out.len(), 3 * (6 * 3 + 2 * 3));
    for &ix in &out {
        assert!(ix < 12);
    }
}
