//! The combinatorial part of a cross-section, packaged with its
//! well-formedness invariant.
//!
//! A cross-section's float data (vertex positions, normals, U coordinates)
//! lives with the host; what the index generation needs from it is captured
//! here: how many vertices it has, its flat outline edge list, and how many
//! triangle index slots its faces occupy (which sizes the reserved cap
//! slots of the swept mesh).

use vstd::prelude::*;

use crate::outline::{
    extract_outline, interleave, lemma_outline_entries_from_indices, outline_of, tri_edges,
};
use crate::stitch::{build_extrusion_indices, raw_index_buffer};

verus! {

/// The topology of a cross-section: enough to stitch the swept tube.
pub struct CrossSectionTopology {
    /// Number of cross-section vertices; each path point instances them all.
    pub vertex_count: usize,
    /// Boundary edges in the flat `[a0, b0, a1, b1, ...]` form.
    pub outline_edges: Vec<u32>,
    /// Length of the cross-section's triangle index list.
    pub face_index_count: usize,
}

impl CrossSectionTopology {
    /// The outline pairs up evenly, every outline entry names a
    /// cross-section vertex, and the face index count covers whole
    /// triangles.
    pub open spec fn wf(self) -> bool {
        &&& self.outline_edges@.len() % 2 == 0
        &&& forall|k: int|
            0 <= k < self.outline_edges@.len() ==> (#[trigger] self.outline_edges@[k])
                < self.vertex_count
        &&& self.face_index_count % 3 == 0
    }

    /// Extracts the topology from a triangle index list whose entries all
    /// name one of the `vertex_count` cross-section vertices.
    pub fn new(vertex_count: usize, face_indices: &Vec<u32>) -> (s: Self)
        requires
            face_indices@.len() % 3 == 0,
            forall|k: int|
                0 <= k < face_indices@.len() ==> (#[trigger] face_indices@[k]) < vertex_count,
        ensures
            s.wf(),
            s.vertex_count == vertex_count,
            s.face_index_count == face_indices@.len(),
            s.outline_edges@ == interleave(outline_of(tri_edges(face_indices@))),
    {
        let outline_edges = extract_outline(face_indices);
        proof {
            lemma_outline_entries_from_indices(face_indices@);
            assert forall|k: int| 0 <= k < outline_edges@.len() implies (
            #[trigger] outline_edges@[k]) < vertex_count by {
                assert(face_indices@.contains(outline_edges@[k]));
                let i = choose|i: int|
                    0 <= i < face_indices@.len() && face_indices@[i] == outline_edges@[k];
            }
        }
        Self { vertex_count, outline_edges, face_index_count: face_indices.len() }
    }

    /// Builds the swept tube's complete index buffer for a path of
    /// `path_len` points: every segment's stitching quads, the zeroed cap
    /// slots, the whole buffer reversed.
    pub fn extrusion_indices(&self, path_len: usize) -> (out: Vec<u32>)
        requires
            self.wf(),
            path_len >= 2,
            path_len * self.vertex_count <= u32::MAX,
        ensures
            out@ == raw_index_buffer(
                self.vertex_count as int,
                self.outline_edges@,
                path_len - 1,
                self.face_index_count as int,
            ).reverse(),
            out@.len() == 3 * (self.outline_edges@.len() * (path_len - 1) + 2
                * self.face_index_count),
    {
        build_extrusion_indices(self.vertex_count, &self.outline_edges, self.face_index_count, path_len)
    }
}

} // verus!
