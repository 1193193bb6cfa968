//! Verified core of a sweep-extrusion mesh library.
//!
//! A two-dimensional cross-section polygon is swept along a sampled curve to
//! produce a triangulated tube. The floating-point parts of that pipeline
//! (curve evaluation, frames, vertex placement) live with the host code; this
//! crate verifies the combinatorial heart of the mesh construction:
//!
//! * [`outline`] extracts the boundary edges of the cross-section from its
//!   triangle index list, the step that decides which quads the sweep emits;
//! * [`stitch`] builds the triangle index buffer that joins consecutive rings
//!   of swept vertices, including the final whole-buffer reversal that fixes
//!   the winding of every face;
//! * [`cross_section`] packages the combinatorial part of a cross-section
//!   with its well-formedness invariant, from which the stitching is proved
//!   to emit only valid vertex references.

pub mod cross_section;
pub mod outline;
pub mod stitch;
