use bevy_extrude_mesh::stitch::{build_extrusion_indices, reversed};

#[test]
fn reversed_reverses() {
    assert_eq!(reversed(&vec![1, 2, 3]), vec![3, 2, 1]);
    assert_eq!(reversed(&Vec::new()), Vec::<u32>::new());
}

#[test]
fn square_swept_over_one_segment() {
    // Square cross-section (4 vertices, outline 0-1-2-3-0, two cap
    // triangles) swept along two path points: 4 edges * 1 segment * 6
    // populated slots, plus 2 * 6 * 3 zeroed cap slots, whole buffer
    // reversed so the zeros lead.
    let edges: Vec<u32> = vec![0, 1, 1, 2, 2, 3, 3, 0];
    let out = build_extrusion_indices(4, &edges, 6, 2);
    assert_eq!(out.len(), 60);
    for k in 0..36 {
        assert_eq!(out[k], 0);
    }
    // Before the reversal the four quads are, in order:
    //   [4,0,1, 1,5,4]  [5,1,2, 2,6,5]  [6,2,3, 3,7,6]  [7,3,0, 0,4,7]
    let expected_tail: Vec<u32> = vec![
        7, 4, 0, 0, 3, 7, 6, 7, 3, 3, 2, 6, 5, 6, 2, 2, 1, 5, 4, 5, 1, 1, 0, 4,
    ];
    assert_eq!(&out[36..60], &expected_tail[..]);
}

#[test]
fn winding_is_flipped_by_the_reversal() {
    // The last populated triple before the reversal is (0, 4, 7); after it,
    // the first populated triple reads (7, 4, 0): same face, opposite
    // winding, and so for every triangle.
    let edges: Vec<u32> = vec![0, 1, 1, 2, 2, 3, 3, 0];
    let out = build_extrusion_indices(4, &edges, 6, 2);
    assert_eq!(&out[36..39], &[7, 4, 0]);
    // The first populated triple before the reversal was (4, 0, 1).
    assert_eq!(&out[57..60], &[1, 0, 4]);
}

#[test]
fn triangle_swept_over_two_segments() {
    // Triangle cross-section (3 vertices, 3 outline edges, one cap
    // triangle) along three path points: 3 * 2 * 6 = 36 populated slots
    // plus 2 * 3 * 3 = 18 zeroed cap slots.
    let edges: Vec<u32> = vec![0, 1, 1, 2, 2, 0];
    let out = build_extrusion_indices(3, &edges, 3, 3);
    assert_eq!(out.len(), 54);
    for k in 0..18 {
        assert_eq!(out[k], 0);
    }
    // Segment 0 quads: [3,0,1, 1,4,3] [4,1,2, 2,5,4] [5,2,0, 0,3,5]
    // Segment 1 quads: [6,3,4, 4,7,6] [7,4,5, 5,8,7] [8,5,3, 3,6,8]
    let populated: Vec<u32> = vec![
        3, 0, 1, 1, 4, 3, 4, 1, 2, 2, 5, 4, 5, 2, 0, 0, 3, 5, 6, 3, 4, 4, 7, 6, 7, 4, 5, 5, 8, 7,
        8, 5, 3, 3, 6, 8,
    ];
    let mut expected_tail = populated.clone();
    expected_tail.reverse();
    assert_eq!(&out[18..54], &expected_tail[..]);
    // Every populated index names one of the 3 * 3 swept vertices.
    for k in 18..54 {
        assert!(out[k] < 9);
    }
}

#[test]
fn no_cap_slots_when_cross_section_has_no_faces() {
    let edges: Vec<u32> = vec![0, 1];
    let out = build_extrusion_indices(2, &edges, 0, 2);
    // One edge, one segment: quad [2,0,1, 1,3,2] reversed.
    assert_eq!(out, vec![2, 3, 1, 1, 0, 2]);
}

#[test]
fn empty_outline_gives_only_cap_slots() {
    let edges: Vec<u32> = vec![];
    let out = build_extrusion_indices(4, &edges, 3, 5);
    assert_eq!(out, vec![0; 18]);
}
