//! Bounding volume hierarchy over a static triangle soup: building the tree,
//! flattening it into fixed-layout records, encoding those records as bytes,
//! and answering nearest-hit ray queries against them.
//!
//! Positions live on a signed integer grid (`i32` per axis): every comparison
//! the builder and the ray test make is exact, so the results below are stated
//! and proved over mathematical integers.

/// Triangles, vertices and scenes.
pub mod geom;
/// Axis-aligned boxes and the tight box of a set of triangles.
pub mod aabb;
/// The owned hierarchy and its builder.
pub mod tree;
/// Flattening the hierarchy into records and an index permutation.
pub mod data;
/// The byte encoding of the flattened records.
pub mod codec;
/// The compact record layout for bandwidth-limited consumers.
pub mod compact;
/// Integer vector algebra used by the ray test.
pub mod algebra;
/// Rays, the ray–triangle test and nearest-hit selection.
pub mod ray;
/// The ray–box slab test.
pub mod slab;
/// The explicit-stack walk of the flattened records.
pub mod traverse;
/// The interchangeable intersection strategies.
pub mod handlers;
/// Checking loaded records against a scene before they are walked.
pub mod validate;
