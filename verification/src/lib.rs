//! Mesh optimization for the GPU and the topology rules of mesh simplification, with their data
//! model, and the bookkeeping of a few engine services: asset paths, profiler scopes, the BVH
//! cache of mesh ray casts and cubemap faces.
//!
//! - [`vertex_cache`]: Forsyth's triangle reordering for the post-transform vertex cache.
//! - [`mesh`]: the parts of a mesh that optimization reads and rewrites.
//! - [`mesh_topology`]: the triangles around each position of a mesh, its shared and border
//!   edges, and the rules that keep its surface intact when positions are collapsed into one
//!   another to simplify it.
//! - [`optimize`]: validating indices, reordering triangles and vertices of a mesh, and
//!   simulating the caches of the GPU to measure the effect.
//! - [`asset_path`]: where assets are loaded from and written to.
//! - [`puffin_profiler`]: formatting span fields and closing profiler scopes.
//! - [`ray_cast_cache`]: when the BVH of a mesh is built, used and dropped.
//! - [`camera`]: names of cubemap faces, and cubemap layouts.
use vstd::prelude::*;

pub mod asset_path;
pub mod camera;
pub mod mesh;
pub mod mesh_topology;
pub mod optimize;
pub mod puffin_profiler;
pub mod ray_cast_cache;
pub mod vertex_cache;

verus! {

} // verus!
