//! Reification of flat sprite silhouettes into thin extruded 3D meshes.
//!
//! The pipeline takes a rectangular grid of opaque/transparent pixels,
//! classifies the silhouette border, traces straight wall runs, extracts the
//! sub-pixel corners where walls cross, synthesizes front and side quads, and
//! welds them into a deduplicated indexed triangle mesh. A plain-text
//! vertex/face export of the mesh round-trips through the bundled parser.
//!
//! All mesh coordinates are exact fixed-point values in thousandths of a
//! pixel unit, so vertex welding by exact equality is reliable. Every stage
//! is pinned by its contract to a spec-level model, making the whole
//! pipeline a mathematical function of the input grid.

pub mod builder;
pub mod coords;
pub mod edges;
pub mod grid;
pub mod mesh;
pub mod obj_text;
pub mod reify;
pub mod ticker;
pub mod walls;
