//! A bounding-volume hierarchy over triangle meshes, for closest-hit ray queries.
//!
//! Coordinates enter the library as order keys of IEEE-754 single-precision
//! values (see [`coord`]), so bounding boxes are computed and proved exactly;
//! the floating-point kernels (box and triangle tests, centroids, extents)
//! are supplied by the caller.
//!
//! - [`mesh`]: the triangles of flat vertex and index buffers.
//! - [`geom`]: key points, boxes, exact hulls of triangle ranges.
//! - [`bvh`]: the median-split build, its invariant, diagnostics.
//! - [`query`]: the depth-first closest-hit search.
//! - [`laws`]: what holds of every structure built.
pub mod bvh;
pub mod coord;
pub mod geom;
pub mod laws;
pub mod mesh;
pub mod query;
