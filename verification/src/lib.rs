//! Voxelization of triangle meshes into a filtered heightfield, the first
//! stage of building a navigation mesh.
//!
//! A [`TriMesh`] is rasterized into a [`Heightfield`]: a grid of columns, each
//! an ascending chain of solid height intervals ([`Span`]) held in an arena
//! ([`Spans`]). Three filters then decide on which spans one can stand.
//!
//! All coordinates are fixed-point integers: a caller chooses how many units
//! make one unit of its world, and rounds. Heights of spans count voxels
//! from the grid's origin; slopes are given by their cosine in units of
//! [`trimesh::COS_ONE`].
//!
//! - [`math`]: vectors, boxes, the four directions of the grid
//! - [`span`], [`arena`]: spans, their handles and the arena that holds them
//! - [`column`]: the model of a column and of merging an interval into it
//! - [`trimesh`]: meshes, normals, the walkability pass
//! - [`footprint`]: which cells a triangle touches, and at which heights
//! - [`heightfield`]: the grid and the chains of its columns
//! - [`rasterize`], [`coverage`]: spans and triangles into columns, and that
//!   no point of a triangle is missed
//! - [`filter`]: the three filters
//! - [`main_api`]: from a mesh to a filtered heightfield

pub mod span;
pub mod arena;
pub mod arith;
pub mod math;
pub mod column;
pub mod trimesh;
pub mod footprint;
pub mod heightfield;
pub mod rasterize;
pub mod coverage;
pub mod filter;
pub mod main_api;

pub use crate::arena::Spans;
pub use crate::heightfield::Heightfield;
pub use crate::math::{Aabb2d, Aabb3d, IVec2, IVec3};
pub use crate::rasterize::RasterizationError;
pub use crate::span::{AreaType, Span, SpanBuilder, SpanData, SpanKey};
pub use crate::trimesh::TriMesh;
