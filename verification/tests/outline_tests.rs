use bevy_extrude_mesh::outline::{contains_edge, extract_outline, flatten_edges, outline_edges, triangle_edges};

#[test]
fn triangle_edges_of_one_triangle() {
    let idx: Vec<u32> = vec![4, 5, 6];
    assert_eq!(triangle_edges(&idx), vec![(4, 5), (5, 6), (6, 4)]);
}

#[test]
fn triangle_edges_of_two_triangles() {
    let idx: Vec<u32> = vec![0, 1, 2, 0, 2, 3];
    assert_eq!(
        triangle_edges(&idx),
        vec![(0, 1), (1, 2), (2, 0), (0, 2), (2, 3), (3, 0)]
    );
}

#[test]
fn contains_edge_is_directed() {
    let edges: Vec<(u32, u32)> = vec![(0, 1), (2, 3)];
    assert!(contains_edge(&edges, 0, 1));
    assert!(contains_edge(&edges, 2, 3));
    assert!(!contains_edge(&edges, 1, 0));
    assert!(!contains_edge(&edges, 3, 2));
    assert!(!contains_edge(&edges, 0, 2));
}

#[test]
fn outline_drops_interior_edges() {
    // Two triangles forming a quad; the diagonal appears in both
    // orientations and must vanish.
    let edges: Vec<(u32, u32)> = vec![(0, 1), (1, 2), (2, 0), (0, 2), (2, 3), (3, 0)];
    assert_eq!(outline_edges(&edges), vec![(0, 1), (1, 2), (2, 3), (3, 0)]);
}

#[test]
fn flatten_edges_interleaves_pairs() {
    let pairs: Vec<(u32, u32)> = vec![(1, 2), (3, 4), (5, 6)];
    assert_eq!(flatten_edges(&pairs), vec![1, 2, 3, 4, 5, 6]);
}

#[test]
fn square_outline() {
    // Unit-square cross-section triangulated as two triangles sharing the
    // 0-2 diagonal: the outline is the four sides, in source order.
    let idx: Vec<u32> = vec![0, 1, 2, 0, 2, 3];
    assert_eq!(extract_outline(&idx), vec![0, 1, 1, 2, 2, 3, 3, 0]);
}

#[test]
fn single_triangle_is_all_outline() {
    let idx: Vec<u32> = vec![0, 1, 2];
    assert_eq!(extract_outline(&idx), vec![0, 1, 1, 2, 2, 0]);
}

#[test]
fn shared_opposite_edge_vanishes_from_both_triangles() {
    // Triangles (0,1,2) and (1,0,3) share the 0-1 edge in opposite
    // orientations; neither copy survives.
    let idx: Vec<u32> = vec![0, 1, 2, 1, 0, 3];
    assert_eq!(extract_outline(&idx), vec![1, 2, 2, 0, 0, 3, 3, 1]);
}

#[test]
fn repeated_edge_in_same_orientation_survives_twice() {
    // Non-manifold input: the 0-1 edge occurs twice in the same
    // orientation, its reverse never, so both copies stay.
    let idx: Vec<u32> = vec![0, 1, 2, 0, 1, 3];
    assert_eq!(extract_outline(&idx), vec![0, 1, 1, 2, 2, 0, 0, 1, 1, 3, 3, 0]);
}

#[test]
fn empty_index_list_has_empty_outline() {
    let idx: Vec<u32> = vec![];
    assert_eq!(extract_outline(&idx), Vec::<u32>::new());
}
