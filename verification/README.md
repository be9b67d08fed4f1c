# bevy_lite

Verified building blocks of a game engine's mesh pipeline and services, written in Verus.

- `src/vertex_cache.rs` reorders the triangles of an index buffer for the GPU's post-transform
  vertex cache (Forsyth's algorithm, with fixed-point scores). Its contract: the result holds
  every triangle exactly once, with its corners in the same order, starting from the first
  triangle with the best score and walking over the mesh, each triangle sharing a vertex with an
  earlier one unless none of the triangles left does; and the order is exactly the one of the
  greedy reordering stated step by step in `reorder_step` (best-scoring live triangle around the
  cached vertices, then around the most recently used vertex, then the first one left).
- `src/optimize.rs` validates index buffers, renumbers vertices in first-use order, optimizes
  meshes for the GPU, and simulates the vertex and fetch caches to measure the effect. The proof
  functions there state what the optimizations keep (the triangles a mesh draws, and the number
  of distinct vertices it uses), that they have a single outcome, that reordering vertices
  numbers them by first use and that doing it twice changes nothing. It also checks, in order,
  what keeps a mesh from being simplified.
- `src/mesh.rs` is the mesh model these work on: topology, 16- or 32-bit indices, vertex
  attributes as raw bytes per vertex, and morph targets as raw bytes per vertex and target.
- `src/mesh_topology.rs` holds the topology rules of mesh simplification: the triangles around
  each position, shared and border edges, which positions can move, which collapses keep the
  surface manifold and free of duplicated triangles, and how the vertices of a collapsed position
  merge into those of its neighbor.
- `src/asset_path.rs`, `src/puffin_profiler.rs`, `src/ray_cast_cache.rs` and `src/camera.rs`
  hold the decisions of the asset file paths, of the profiler integration, of the BVH cache of
  mesh ray casts, and the names of cubemap faces.

`app/` connects the library to the environment, the file system, `tracing` and `puffin`, and
holds what is computed in floating point: mesh simplification itself, whose collapse costs are
quadric errors (it asks `src/mesh_topology.rs` for every topological decision), bounding volumes
and frustum culling, and the construction of the bounding volume hierarchies of ray casts,
which it stores where the library's ray cast cache decides.
