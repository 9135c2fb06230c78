//! Octree dual contouring: extraction of the zero-crossing surface of a scalar
//! field as a mesh of quads and triangles over an adaptive octree.
//!
//! An octree is built over the field by [`CellOctree::build`] and contoured by
//! [`CellOctree::dual_contour`]. The library decides which cells are made,
//! kept and merged and which facets join them; it holds every number by its bit
//! pattern and leaves the arithmetic on numbers to the [`Numerics`] of its
//! caller.
//!
//! # References
//!
//! - Tao Ju, Frank Losasso, Scott Schaefer, Joe Warren, "Dual Contouring of
//!   Hermite Data"
//! - Philip Trettner, Leif Kobbelt, "Fast and Robust QEF Minimization using
//!   Probabilistic Quadrics"
pub mod builder;
pub mod cell_octree;
pub mod contour_octree;
pub mod mesh;
pub mod numerics;
pub mod qef;
pub mod scalar;
pub mod sdf;
pub mod tables;
pub mod walk;
pub mod walk_lemmas;

pub use crate::cell_octree::{Cell, CellId, CellOctree, Edge, Extent, Face, Facet};
pub use crate::contour_octree::{Contour, ContourVisitor};
pub use crate::mesh::{
    give_own_vertices, repair_sharp_normals, MeshNumerics, MeshVertexId, NULL_MESH_VERTEX_ID,
};
pub use crate::numerics::Numerics;
pub use crate::qef::Qef;
pub use crate::scalar::Scalar;
pub use crate::sdf::{
    bipolar_edges, branch_empty_check, cell_is_bipolar, estimate_interior_vertex_qef,
};
