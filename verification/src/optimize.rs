//! Reordering of mesh data to make rendering cheaper for the GPU.
//!
//! The order of the triangles in the index buffer and of the vertices in the vertex buffer
//! doesn't change what a mesh looks like, but it has a large impact on how fast it renders:
//!
//! - GPUs keep the results of the vertex shader for recently processed vertices in a small
//!   "post-transform" cache. [`Mesh::optimize_vertex_cache`] reorders triangles so that triangles
//!   sharing vertices are drawn one after the other.
//! - Vertex attributes are fetched from memory in cache lines. [`Mesh::optimize_vertex_fetch`]
//!   stores vertices in the order in which they are first used, and drops the unused ones.
//!
//! [`Mesh::optimize_for_gpu`] applies both, and [`Mesh::analyze_vertex_cache`] and
//! [`Mesh::analyze_vertex_fetch`] measure their effect.
use crate::mesh::{all_below_count, is_gathered, is_morph_gathered, lemma_min_len_bound, min_len, Indices, Mesh, MeshAccessError, MeshAttribute, PrimitiveTopology};
use crate::vertex_cache::{all_below, is_cache_order, is_reordered, is_triangle_order, is_triangle_permutation, optimize_vertex_cache, reordered};
use vstd::prelude::*;
use vstd::set_lib::{lemma_int_range, lemma_subset_equality, set_int_range};

verus! {

/// Size of a cache line in [`Mesh::analyze_vertex_fetch`].
pub const FETCH_CACHE_LINE_SIZE: usize = 64;

/// Number of cache lines in the direct-mapped cache simulated by [`Mesh::analyze_vertex_fetch`]:
/// 16 KiB of cache lines.
pub const FETCH_CACHE_LINE_COUNT: usize = 256;

/// An error that occurred while optimizing or analyzing a [`Mesh`].
#[derive(Clone, Copy, Debug, PartialEq, Eq, Structural)]
pub enum MeshOptimizationError {
    /// The operation requires a [`PrimitiveTopology::TriangleList`] mesh.
    UnsupportedTopology(PrimitiveTopology),
    /// The mesh doesn't have [`Indices`]: non-indexed meshes don't share any vertex between
    /// primitives, so there is nothing to optimize.
    MissingIndices,
    /// The number of indices is not a multiple of 3 for a [`PrimitiveTopology::TriangleList`] mesh.
    AbruptIndicesEnd(usize),
    /// An index references a vertex that doesn't exist.
    IndexOutOfBounds {
        /// The invalid index.
        index: usize,
        /// The number of vertices of the mesh.
        vertex_count: usize,
    },
    /// The mesh doesn't have positions in the expected format.
    UnsupportedPositions,
    /// The mesh data has been extracted to the `RenderWorld`.
    MeshAccessError(MeshAccessError),
}

/// The primitive restart value of indices in the given format, if primitive restart applies to
/// `topology`: the largest value of the format, for strips.
pub open spec fn restart_value(is_u16: bool, topology: PrimitiveTopology) -> Option<u32> {
    if !topology.spec_is_strip() {
        None
    } else if is_u16 {
        Some(u16::MAX as u32)
    } else {
        Some(u32::MAX)
    }
}

/// Returns the primitive restart value of `indices`, if primitive restart applies to `topology`.
pub fn restart_index(indices: &Indices, topology: PrimitiveTopology) -> (restart: Option<u32>)
    ensures
        restart == restart_value(indices.is_u16(), topology),
{
    if !topology.is_strip() {
        return None;
    }
    Some(
        match indices {
            Indices::U16(_) => 65535u32,
            Indices::U32(_) => u32::MAX,
        },
    )
}

/// An index that references a vertex that doesn't exist, and isn't a primitive restart.
pub open spec fn is_invalid_index(index: u32, vertex_count: int, restart: Option<u32>) -> bool {
    index >= vertex_count && restart != Some(index)
}

/// The first invalid index among the first `n` indices, if any.
pub open spec fn first_invalid_index(
    indices: Seq<u32>,
    n: int,
    vertex_count: int,
    restart: Option<u32>,
) -> Option<u32>
    decreases n,
{
    if n <= 0 {
        None
    } else {
        match first_invalid_index(indices, n - 1, vertex_count, restart) {
            Some(index) => Some(index),
            None => if is_invalid_index(indices[n - 1], vertex_count, restart) {
                Some(indices[n - 1])
            } else {
                None
            },
        }
    }
}

/// What validating `indices` returns.
pub open spec fn validation(
    indices: Seq<u32>,
    is_u16: bool,
    vertex_count: usize,
    topology: PrimitiveTopology,
) -> Result<(), MeshOptimizationError> {
    if topology == PrimitiveTopology::TriangleList && indices.len() % 3 != 0 {
        Err(MeshOptimizationError::AbruptIndicesEnd(indices.len() as usize))
    } else {
        match first_invalid_index(
            indices,
            indices.len() as int,
            vertex_count as int,
            restart_value(is_u16, topology),
        ) {
            Some(index) => Err(
                MeshOptimizationError::IndexOutOfBounds {
                    index: index as usize,
                    vertex_count,
                },
            ),
            None => Ok(()),
        }
    }
}

/// There is no invalid index among the first `n` exactly when each of them is valid.
pub proof fn lemma_first_invalid_index(
    indices: Seq<u32>,
    n: int,
    vertex_count: int,
    restart: Option<u32>,
)
    requires
        0 <= n <= indices.len(),
    ensures
        first_invalid_index(indices, n, vertex_count, restart) is None <==> forall|i: int|
            0 <= i < n ==> !is_invalid_index(#[trigger] indices[i], vertex_count, restart),
        first_invalid_index(indices, n, vertex_count, restart) matches Some(index)
            ==> is_invalid_index(index, vertex_count, restart),
    decreases n,
{
    if n > 0 {
        lemma_first_invalid_index(indices, n - 1, vertex_count, restart);
    }
}

/// Checks that the indices are valid for a mesh with `vertex_count` vertices and the given
/// `topology`: a triangle list has whole triangles, and every index references a vertex or is a
/// primitive restart.
pub fn validate_indices(indices: &Indices, vertex_count: usize, topology: PrimitiveTopology) -> (result:
    Result<(), MeshOptimizationError>)
    ensures
        result == validation(indices.values(), indices.is_u16(), vertex_count, topology),
        result is Ok ==> forall|i: int|
            0 <= i < indices.values().len() ==> !is_invalid_index(
                #[trigger] indices.values()[i],
                vertex_count as int,
                restart_value(indices.is_u16(), topology),
            ),
{
    let len = indices.len();
    if topology == PrimitiveTopology::TriangleList && len % 3 != 0 {
        return Err(MeshOptimizationError::AbruptIndicesEnd(len));
    }
    let restart = restart_index(indices, topology);
    let ghost values = indices.values();
    let mut i: usize = 0;
    while i < len
        invariant
            i <= len,
            len == values.len(),
            values == indices.values(),
            restart == restart_value(indices.is_u16(), topology),
            !(topology == PrimitiveTopology::TriangleList && len % 3 != 0),
            first_invalid_index(values, i as int, vertex_count as int, restart) is None,
        decreases len - i,
    {
        let index = indices.get(i);
        if index as usize >= vertex_count && restart != Some(index) {
            proof {
                assert(values[i as int] == index);
                lemma_first_invalid_prefix(values, i + 1, len as int, vertex_count as int, restart);
            }
            return Err(MeshOptimizationError::IndexOutOfBounds { index: index as usize, vertex_count });
        }
        i = i + 1;
    }
    proof {
        lemma_first_invalid_index(values, len as int, vertex_count as int, restart);
    }
    Ok(())
}

/// Once an invalid index has been found, looking at more indices doesn't change the first one.
proof fn lemma_first_invalid_prefix(
    indices: Seq<u32>,
    m: int,
    n: int,
    vertex_count: int,
    restart: Option<u32>,
)
    requires
        0 <= m <= n,
        first_invalid_index(indices, m, vertex_count, restart) is Some,
    ensures
        first_invalid_index(indices, n, vertex_count, restart) == first_invalid_index(
            indices,
            m,
            vertex_count,
            restart,
        ),
    decreases n,
{
    if m < n {
        lemma_first_invalid_prefix(indices, m, n - 1, vertex_count, restart);
    }
}

/// The vertices used by `indices`, each once, in the order in which they are first used. Primitive
/// restarts are skipped.
pub open spec fn first_uses(indices: Seq<u32>, restart: Option<u32>) -> Seq<u32>
    decreases indices.len(),
{
    if indices.len() == 0 {
        Seq::empty()
    } else {
        let earlier = first_uses(indices.drop_last(), restart);
        let index = indices.last();
        if restart == Some(index) || earlier.contains(index) {
            earlier
        } else {
            earlier.push(index)
        }
    }
}

/// A sequence of distinct values below `n` has at most `n` elements.
proof fn lemma_distinct_u32_below(s: Seq<u32>, n: int)
    requires
        0 <= n,
        s.no_duplicates(),
        all_below(s, n),
    ensures
        s.len() <= n,
{
    let wide = s.map_values(|x: u32| x as int);
    assert(wide.no_duplicates()) by {
        assert forall|a: int, b: int| 0 <= a < b < wide.len() implies wide[a] != wide[b] by {
            assert(s[a] != s[b]);
        }
    }
    assert forall|k: int| 0 <= k < wide.len() implies 0 <= #[trigger] wide[k] < n by {
        assert(s[k] < n);
    }
    crate::vertex_cache::lemma_distinct_below(wide, n);
}

/// Remaps the indices so that vertices are numbered in the order in which they are first used.
///
/// Returns the old index of each new vertex. Vertices that aren't used by any index are dropped.
/// Indices equal to `restart_index` are left untouched.
pub fn remap_vertices_by_first_use(
    indices: &mut Vec<u32>,
    vertex_count: usize,
    restart_index: Option<u32>,
) -> (new_to_old: Vec<u32>)
    requires
        vertex_count <= u32::MAX,
        forall|i: int|
            0 <= i < old(indices).len() ==> !is_invalid_index(
                #[trigger] old(indices)@[i],
                vertex_count as int,
                restart_index,
            ),
    ensures
        new_to_old@ == first_uses(old(indices)@, restart_index),
        new_to_old@.no_duplicates(),
        forall|k: int| 0 <= k < new_to_old.len() ==> old(indices)@.contains(#[trigger] new_to_old@[k]),
        new_to_old.len() <= vertex_count,
        all_below(new_to_old@, vertex_count as int),
        final(indices).len() == old(indices).len(),
        forall|i: int|
            0 <= i < old(indices).len() && restart_index == Some(old(indices)@[i])
                ==> #[trigger] final(indices)@[i] == old(indices)@[i],
        forall|i: int|
            0 <= i < old(indices).len() && restart_index != Some(old(indices)@[i]) ==> {
                &&& #[trigger] final(indices)@[i] < new_to_old.len()
                &&& new_to_old@[final(indices)@[i] as int] == old(indices)@[i]
                &&& final(indices)@[i] <= first_uses(old(indices)@.take(i), restart_index).len()
            },
{
    let ghost input = indices@;
    let mut old_to_new: Vec<u32> = Vec::new();
    let mut v: usize = 0;
    while v < vertex_count
        invariant
            v <= vertex_count,
            old_to_new.len() == v,
            forall|u: int| 0 <= u < v ==> #[trigger] old_to_new@[u] == u32::MAX,
        decreases vertex_count - v,
    {
        old_to_new.push(u32::MAX);
        v = v + 1;
    }
    let mut new_to_old: Vec<u32> = Vec::new();
    let mut i: usize = 0;
    while i < indices.len()
        invariant
            i <= indices.len() == input.len(),
            vertex_count <= u32::MAX,
            forall|j: int|
                0 <= j < input.len() ==> !is_invalid_index(
                    #[trigger] input[j],
                    vertex_count as int,
                    restart_index,
                ),
            new_to_old@ == first_uses(input.take(i as int), restart_index),
            new_to_old@.no_duplicates(),
            all_below(new_to_old@, vertex_count as int),
            old_to_new.len() == vertex_count,
            forall|u: int|
                0 <= u < vertex_count ==> (#[trigger] old_to_new@[u] == u32::MAX <==> !new_to_old@.contains(
                    u as u32,
                )),
            forall|u: int|
                0 <= u < vertex_count && #[trigger] old_to_new@[u] != u32::MAX ==> old_to_new@[u]
                    < new_to_old.len() && new_to_old@[old_to_new@[u] as int] == u,
            forall|j: int| i <= j < input.len() ==> #[trigger] indices@[j] == input[j],
            forall|j: int|
                0 <= j < i && restart_index == Some(input[j]) ==> #[trigger] indices@[j]
                    == input[j],
            forall|j: int|
                0 <= j < i && restart_index != Some(input[j]) ==> {
                    &&& #[trigger] indices@[j] < new_to_old.len()
                    &&& new_to_old@[indices@[j] as int] == input[j]
                    &&& indices@[j] <= first_uses(input.take(j), restart_index).len()
                },
        decreases input.len() - i,
    {
        let index = indices[i];
        proof {
            assert(input.take(i + 1).drop_last() =~= input.take(i as int));
            assert(input.take(i + 1).last() == index);
        }
        if restart_index != Some(index) {
            let vertex = index as usize;
            if old_to_new[vertex] == u32::MAX {
                proof {
                    lemma_distinct_u32_below(new_to_old@, vertex_count as int);
                    if new_to_old.len() == vertex_count {
                        // All the vertices are used already, including this one.
                        let full = new_to_old@.push(index);
                        assert(full.no_duplicates());
                        lemma_distinct_u32_below(full, vertex_count as int);
                    }
                }
                let ghost prev = new_to_old@;
                old_to_new.set(vertex, new_to_old.len() as u32);
                new_to_old.push(index);
                proof {
                    assert forall|u: int|
                        0 <= u < vertex_count implies (#[trigger] old_to_new@[u] == u32::MAX
                        <==> !new_to_old@.contains(u as u32)) by {
                        if u != vertex {
                            assert(u as u32 != index);
                            if new_to_old@.contains(u as u32) {
                                let k = choose|k: int| 0 <= k < new_to_old.len() && new_to_old@[k] == u as u32;
                                assert(k < new_to_old.len() - 1);
                                assert(prev[k] == u as u32);
                            }
                            if prev.contains(u as u32) {
                                let k = choose|k: int| 0 <= k < prev.len() && prev[k] == u as u32;
                                assert(new_to_old@[k] == u as u32);
                            }
                        } else {
                            assert(new_to_old@[new_to_old.len() - 1] == index);
                        }
                    }
                }
            } else {
                proof {
                    assert(new_to_old@[old_to_new@[vertex as int] as int] == index);
                    assert(new_to_old@.contains(index));
                }
            }
            indices.set(i, old_to_new[vertex]);
        }
        i = i + 1;
    }
    proof {
        assert(input.take(input.len() as int) =~= input);
        lemma_distinct_u32_below(new_to_old@, vertex_count as int);
        lemma_first_uses_contained(input, restart_index);
    }
    new_to_old
}

/// The vertices in `first_uses` are used by the indices.
pub proof fn lemma_first_uses_contained(indices: Seq<u32>, restart: Option<u32>)
    ensures
        forall|k: int|
            0 <= k < first_uses(indices, restart).len() ==> indices.contains(
                #[trigger] first_uses(indices, restart)[k],
            ),
    decreases indices.len(),
{
    if indices.len() > 0 {
        let rest = indices.drop_last();
        lemma_first_uses_contained(rest, restart);
        assert forall|k: int|
            0 <= k < first_uses(indices, restart).len() implies indices.contains(
            #[trigger] first_uses(indices, restart)[k],
        ) by {
            let earlier = first_uses(rest, restart);
            if k < earlier.len() {
                let j = choose|j: int| 0 <= j < rest.len() && rest[j] == earlier[k];
                assert(indices[j] == earlier[k]);
            } else {
                assert(indices[indices.len() - 1] == first_uses(indices, restart)[k]);
            }
        }
    }
}

/// Statistics about the use of the post-transform vertex cache by a mesh, as returned by
/// [`Mesh::analyze_vertex_cache`].
///
/// The average cache miss ratio (ACMR) is `vertices_transformed / triangle_count`: lower is
/// better, 3 when there is no reuse at all. The average transformed vertex ratio (ATVR) is
/// `vertices_transformed / unique_vertices`: lower is better, 1 is optimal.
#[derive(Clone, Copy, Debug, PartialEq, Eq)]
pub struct VertexCacheStatistics {
    /// The number of times the vertex shader runs when drawing the mesh.
    pub vertices_transformed: usize,
    /// The number of distinct vertices referenced by the indices of the mesh.
    pub unique_vertices: usize,
    /// The number of triangles of the mesh.
    pub triangle_count: usize,
}

/// Statistics about the memory traffic generated by fetching the vertices of a mesh, as returned
/// by [`Mesh::analyze_vertex_fetch`].
///
/// The overfetch is `bytes_fetched / referenced_bytes`: lower is better, and 1 means that each
/// referenced byte is only fetched once.
#[derive(Clone, Copy, Debug, PartialEq, Eq)]
pub struct VertexFetchStatistics {
    /// The estimated number of bytes read from memory to fetch the vertex attributes.
    pub bytes_fetched: usize,
    /// The size of the vertex data that is referenced by the indices.
    pub referenced_bytes: usize,
}

/// The state of a simulated FIFO cache: the time at which each vertex was last inserted (0 for
/// never), the current time, the number of vertices transformed and of distinct vertices seen.
/// A vertex is in the cache if fewer than `cache_size` vertices were inserted after it.
pub open spec fn fifo_start(vertex_count: int, cache_size: int) -> (Seq<int>, int, int, int) {
    (Seq::new(vertex_count as nat, |v: int| 0int), cache_size + 1, 0, 0)
}

/// The state of the simulated FIFO cache after accessing `index`.
pub open spec fn fifo_access(state: (Seq<int>, int, int, int), index: int, cache_size: int) -> (
    Seq<int>,
    int,
    int,
    int,
) {
    let (insertion_times, time, transformed, unique) = state;
    if time - insertion_times[index] > cache_size {
        (
            insertion_times.update(index, time),
            time + 1,
            transformed + 1,
            unique + if insertion_times[index] == 0 { 1int } else { 0int },
        )
    } else {
        state
    }
}

/// The state of the simulated FIFO cache after accessing the first `n` indices.
pub open spec fn fifo_run(indices: Seq<u32>, n: int, vertex_count: int, cache_size: int) -> (
    Seq<int>,
    int,
    int,
    int,
)
    decreases n,
{
    if n <= 0 {
        fifo_start(vertex_count, cache_size)
    } else {
        fifo_access(fifo_run(indices, n - 1, vertex_count, cache_size), indices[n - 1] as int, cache_size)
    }
}

/// The effective size of the cache: a cache that can hold all the vertices behaves like an
/// infinite cache.
pub open spec fn effective_cache_size(cache_size: int, vertex_count: int) -> int {
    if cache_size < vertex_count {
        cache_size
    } else {
        vertex_count
    }
}

/// A FIFO cache that has room for every vertex used never evicts one: after the first `n`
/// indices, every vertex used was transformed once, at its first use, and the clock has advanced
/// once per transformed vertex.
proof fn lemma_fifo_without_eviction(indices: Seq<u32>, n: int, vertex_count: int, cache_size: int)
    requires
        0 <= n <= indices.len(),
        0 <= vertex_count,
        all_below(indices, vertex_count),
        cache_size >= first_uses(indices, None).len(),
    ensures
        ({
            let state = fifo_run(indices, n, vertex_count, cache_size);
            &&& state.2 == state.3
            &&& state.1 == cache_size + 1 + state.2
            &&& forall|v: int|
                0 <= v < vertex_count && #[trigger] state.0[v] != 0 ==> state.0[v] >= cache_size + 1
        }),
    decreases n,
{
    if n > 0 {
        lemma_fifo_without_eviction(indices, n - 1, vertex_count, cache_size);
        lemma_fifo_unique(indices, n - 1, vertex_count, cache_size);
        lemma_first_uses_prefix(indices, None, n - 1);
        let state = fifo_run(indices, n - 1, vertex_count, cache_size);
        let x = indices[n - 1] as int;
        assert(0 <= x < vertex_count);
        if state.0[x] != 0 {
            assert(state.1 - state.0[x] <= cache_size);
        }
    }
}

/// A FIFO cache with room for every vertex that the indices use transforms each of them exactly
/// once: the number of transformed vertices is the number of distinct vertices used, whatever
/// the order of the indices.
pub proof fn lemma_large_cache_transforms_each_vertex_once(
    indices: Seq<u32>,
    vertex_count: int,
    cache_size: int,
)
    requires
        0 <= vertex_count,
        all_below(indices, vertex_count),
        cache_size >= first_uses(indices, None).len(),
    ensures
        ({
            let state = fifo_run(
                indices,
                indices.len() as int,
                vertex_count,
                effective_cache_size(cache_size, vertex_count),
            );
            &&& state.2 == first_uses(indices, None).len()
            &&& state.3 == first_uses(indices, None).len()
        }),
{
    lemma_first_uses_bounded(indices, vertex_count);
    let size = effective_cache_size(cache_size, vertex_count);
    lemma_fifo_without_eviction(indices, indices.len() as int, vertex_count, size);
    lemma_fifo_unique(indices, indices.len() as int, vertex_count, size);
    assert(indices.take(indices.len() as int) =~= indices);
}

/// A FIFO cache transforms each vertex used at least once, and at most once per index.
pub proof fn lemma_cache_transforms_between_unique_and_all(
    indices: Seq<u32>,
    vertex_count: int,
    cache_size: int,
    n: int,
)
    requires
        0 <= n <= indices.len(),
        0 <= vertex_count,
        0 <= cache_size,
        all_below(indices, vertex_count),
    ensures
        ({
            let state = fifo_run(indices, n, vertex_count, cache_size);
            first_uses(indices.take(n), None).len() == state.3 <= state.2 <= n
        }),
    decreases n,
{
    lemma_fifo_unique(indices, n, vertex_count, cache_size);
    if n > 0 {
        lemma_cache_transforms_between_unique_and_all(indices, vertex_count, cache_size, n - 1);
    }
}

/// Simulates a FIFO post-transform vertex cache of `cache_size` vertices.
pub fn analyze_vertex_cache(
    indices: &Vec<u32>,
    triangle_count: usize,
    vertex_count: usize,
    cache_size: usize,
) -> (statistics: VertexCacheStatistics)
    requires
        all_below(indices@, vertex_count as int),
        vertex_count + indices.len() < usize::MAX,
    ensures
        ({
            let state = fifo_run(
                indices@,
                indices.len() as int,
                vertex_count as int,
                effective_cache_size(cache_size as int, vertex_count as int),
            );
            &&& statistics.vertices_transformed == state.2
            &&& statistics.unique_vertices == state.3
        }),
        statistics.triangle_count == triangle_count,
{
    let cache_size = if cache_size < vertex_count {
        cache_size
    } else {
        vertex_count
    };
    let mut insertion_times: Vec<usize> = Vec::new();
    let mut v: usize = 0;
    while v < vertex_count
        invariant
            v <= vertex_count,
            insertion_times.len() == v,
            forall|u: int| 0 <= u < v ==> #[trigger] insertion_times@[u] == 0,
        decreases vertex_count - v,
    {
        insertion_times.push(0);
        v = v + 1;
    }
    let mut time: usize = cache_size + 1;
    let mut vertices_transformed: usize = 0;
    let mut unique_vertices: usize = 0;
    let ghost cs = cache_size as int;
    let ghost vc = vertex_count as int;
    proof {
        assert(insertion_times@.map_values(|t: usize| t as int) =~= fifo_start(vc, cs).0);
    }
    let mut i: usize = 0;
    while i < indices.len()
        invariant
            i <= indices.len(),
            all_below(indices@, vc),
            vc == vertex_count,
            cs == cache_size,
            cache_size <= vertex_count,
            vertex_count + indices.len() < usize::MAX,
            insertion_times.len() == vertex_count,
            time <= cache_size + 1 + i,
            vertices_transformed <= i,
            unique_vertices <= i,
            forall|u: int| 0 <= u < vertex_count ==> #[trigger] insertion_times@[u] < time,
            ({
                let state = fifo_run(indices@, i as int, vc, cs);
                &&& state.0 == insertion_times@.map_values(|t: usize| t as int)
                &&& state.1 == time
                &&& state.2 == vertices_transformed
                &&& state.3 == unique_vertices
            }),
        decreases indices.len() - i,
    {
        let index = indices[i] as usize;
        let ghost before = insertion_times@;
        if time - insertion_times[index] > cache_size {
            if insertion_times[index] == 0 {
                unique_vertices = unique_vertices + 1;
            }
            insertion_times.set(index, time);
            time = time + 1;
            vertices_transformed = vertices_transformed + 1;
            proof {
                assert(insertion_times@.map_values(|t: usize| t as int) =~= before.map_values(
                    |t: usize| t as int,
                ).update(index as int, (time - 1) as int));
            }
        }
        i = i + 1;
    }
    VertexCacheStatistics { vertices_transformed, unique_vertices, triangle_count }
}

/// The first memory line of vertex `index`, with vertices of `vertex_size` bytes.
pub open spec fn first_line(index: int, vertex_size: int) -> int {
    (index * vertex_size) / (FETCH_CACHE_LINE_SIZE as int)
}

/// The line after the last memory line of vertex `index`.
pub open spec fn end_line(index: int, vertex_size: int) -> int {
    (index * vertex_size + vertex_size + FETCH_CACHE_LINE_SIZE - 1) / (FETCH_CACHE_LINE_SIZE as int)
}

/// Fetches the memory lines `line..end` through a direct-mapped cache, whose slots hold the tag of
/// their line plus one (0 when empty). Returns the new tags and the number of bytes fetched.
pub open spec fn fetch_lines(tags: Seq<usize>, line: int, end: int) -> (Seq<usize>, int)
    decreases end - line,
{
    if line >= end {
        (tags, 0)
    } else {
        let slot = line % (FETCH_CACHE_LINE_COUNT as int);
        let miss = tags[slot] != line + 1;
        let tags = if miss {
            tags.update(slot, (line + 1) as usize)
        } else {
            tags
        };
        let rest = fetch_lines(tags, line + 1, end);
        (rest.0, rest.1 + if miss { FETCH_CACHE_LINE_SIZE as int } else { 0 })
    }
}

/// The tags of the simulated cache and the bytes fetched after fetching the first `n` vertices
/// of `indices`.
pub open spec fn fetch_run(indices: Seq<u32>, n: int, vertex_size: int) -> (Seq<usize>, int)
    decreases n,
{
    if n <= 0 {
        (Seq::new(FETCH_CACHE_LINE_COUNT as nat, |i: int| 0usize), 0)
    } else {
        let before = fetch_run(indices, n - 1, vertex_size);
        let index = indices[n - 1] as int;
        let after = fetch_lines(
            before.0,
            first_line(index, vertex_size),
            end_line(index, vertex_size),
        );
        (after.0, before.1 + after.1)
    }
}

/// Simulates fetching vertices of `vertex_size` bytes through a direct-mapped cache of 256 lines
/// of 64 bytes.
pub fn analyze_vertex_fetch(indices: &Vec<u32>, vertex_count: usize, vertex_size: usize) -> (statistics:
    VertexFetchStatistics)
    requires
        all_below(indices@, vertex_count as int),
        vertex_count * vertex_size <= usize::MAX,
        indices.len() * (vertex_size + 128) <= usize::MAX,
    ensures
        statistics.bytes_fetched == fetch_run(indices@, indices.len() as int, vertex_size as int).1,
        statistics.referenced_bytes == first_uses(indices@, None).len() * vertex_size,
{
    let mut cache_tags: Vec<usize> = Vec::new();
    let mut k: usize = 0;
    while k < FETCH_CACHE_LINE_COUNT
        invariant
            k <= FETCH_CACHE_LINE_COUNT,
            cache_tags.len() == k,
            forall|j: int| 0 <= j < k ==> #[trigger] cache_tags@[j] == 0,
        decreases FETCH_CACHE_LINE_COUNT - k,
    {
        cache_tags.push(0);
        k = k + 1;
    }
    let mut referenced: Vec<bool> = Vec::new();
    let mut v: usize = 0;
    while v < vertex_count
        invariant
            v <= vertex_count,
            referenced.len() == v,
            forall|u: int| 0 <= u < v ==> !#[trigger] referenced@[u],
        decreases vertex_count - v,
    {
        referenced.push(false);
        v = v + 1;
    }
    let ghost vs = vertex_size as int;
    let ghost size_bound = vs + 128;
    let mut referenced_count: usize = 0;
    let mut bytes_fetched: usize = 0;
    proof {
        assert(cache_tags@ =~= fetch_run(indices@, 0, vs).0);
    }
    let mut i: usize = 0;
    while i < indices.len()
        invariant
            i <= indices.len(),
            all_below(indices@, vertex_count as int),
            vs == vertex_size,
            size_bound == vs + 128,
            vertex_count * vertex_size <= usize::MAX,
            indices.len() * size_bound <= usize::MAX,
            cache_tags.len() == FETCH_CACHE_LINE_COUNT,
            referenced.len() == vertex_count,
            (cache_tags@, bytes_fetched as int) == fetch_run(indices@, i as int, vs),
            bytes_fetched <= i * size_bound,
            referenced_count == first_uses(indices@.take(i as int), None).len(),
            forall|u: int|
                0 <= u < vertex_count && u <= u32::MAX ==> (#[trigger] referenced@[u]
                    <==> first_uses(indices@.take(i as int), None).contains(u as u32)),
            referenced_count <= i,
        decreases indices.len() - i,
    {
        let index = indices[i] as usize;
        let ghost earlier = first_uses(indices@.take(i as int), None);
        proof {
            assert(indices@.take(i + 1).drop_last() =~= indices@.take(i as int));
            assert(indices@.take(i + 1).last() == index);
        }
        if !referenced[index] {
            referenced.set(index, true);
            referenced_count = referenced_count + 1;
            proof {
                let later = first_uses(indices@.take(i + 1), None);
                assert(later == earlier.push(index as u32));
                assert forall|u: int|
                    0 <= u < vertex_count && u <= u32::MAX implies (#[trigger] referenced@[u]
                    <==> later.contains(u as u32)) by {
                    if earlier.contains(u as u32) {
                        let k = choose|k: int| 0 <= k < earlier.len() && earlier[k] == u as u32;
                        assert(later[k] == u as u32);
                    }
                    if later.contains(u as u32) && u != index {
                        let k = choose|k: int| 0 <= k < later.len() && later[k] == u as u32;
                        assert(k < earlier.len());
                    }
                    if u == index {
                        assert(later[later.len() - 1] == index);
                    }
                }
            }
        } else {
            assert(earlier.contains(index as u32));
        }
        proof {
            assert(index * vertex_size + vertex_size <= vertex_count * vertex_size) by (nonlinear_arith)
                requires
                    index < vertex_count,
            ;
        }
        let start = index * vertex_size;
        let end = start + vertex_size;
        let first = start / FETCH_CACHE_LINE_SIZE;
        let last = end / FETCH_CACHE_LINE_SIZE + if end % FETCH_CACHE_LINE_SIZE != 0 {
            1
        } else {
            0
        };
        let ghost tags_start = cache_tags@;
        let ghost bytes_start = bytes_fetched as int;
        assert(last == end_line(index as int, vs));
        assert(first == first_line(index as int, vs));
        assert((last - first) * 64 <= size_bound);
        proof {
            assert(bytes_start + size_bound <= (i + 1) * size_bound) by (nonlinear_arith)
                requires
                    bytes_start <= i * size_bound,
            ;
            assert((i + 1) * size_bound <= indices.len() * size_bound) by (nonlinear_arith)
                requires
                    i + 1 <= indices.len(),
                    size_bound >= 0,
            ;
        }
        let mut line = first;
        while line < last
            invariant
                first <= line <= last,
                last <= usize::MAX / 64 + 1,
                cache_tags.len() == FETCH_CACHE_LINE_COUNT,
                bytes_fetched - bytes_start <= (line - first) * 64,
                bytes_start + (last - first) * 64 <= usize::MAX,
                fetch_lines(tags_start, first as int, last as int).0 == fetch_lines(
                    cache_tags@,
                    line as int,
                    last as int,
                ).0,
                fetch_lines(tags_start, first as int, last as int).1 == bytes_fetched - bytes_start
                    + fetch_lines(cache_tags@, line as int, last as int).1,
            decreases last - line,
        {
            let slot = line % FETCH_CACHE_LINE_COUNT;
            if cache_tags[slot] != line + 1 {
                cache_tags.set(slot, line + 1);
                bytes_fetched = bytes_fetched + FETCH_CACHE_LINE_SIZE;
            }
            line = line + 1;
        }
        i = i + 1;
    }
    proof {
        assert(indices@.take(indices.len() as int) =~= indices@);
        lemma_first_uses_bounded(indices@, vertex_count as int);
        assert(referenced_count * vertex_size <= vertex_count * vertex_size) by (nonlinear_arith)
            requires
                referenced_count <= vertex_count,
        ;
    }
    VertexFetchStatistics { bytes_fetched, referenced_bytes: referenced_count * vertex_size }
}

/// The vertices used by valid indices are distinct vertices, so there are at most `vertex_count`
/// of them.
proof fn lemma_first_uses_bounded(indices: Seq<u32>, vertex_count: int)
    requires
        0 <= vertex_count,
        all_below(indices, vertex_count),
    ensures
        first_uses(indices, None).len() <= vertex_count,
        first_uses(indices, None).no_duplicates(),
        all_below(first_uses(indices, None), vertex_count),
    decreases indices.len(),
{
    if indices.len() > 0 {
        let rest = indices.drop_last();
        assert forall|i: int| 0 <= i < rest.len() implies #[trigger] rest[i] < vertex_count by {
            assert(rest[i] == indices[i]);
        }
        lemma_first_uses_bounded(rest, vertex_count);
        let earlier = first_uses(rest, None);
        let x = indices.last();
        if !earlier.contains(x) {
            let later = earlier.push(x);
            assert(later.no_duplicates());
            assert(all_below(later, vertex_count));
        }
        lemma_distinct_u32_below(first_uses(indices, None), vertex_count);
    }
}

/// After reordering the vertices of `before` into `after`, the vertices are exactly the vertices
/// that `before` uses.
pub open spec fn vertices_are_first_uses(before: Mesh, after: Mesh) -> bool {
    after.vertex_count() == first_uses(
        before.indices->0.values(),
        restart_value(before.indices->0.is_u16(), before.primitive_topology),
    ).len()
}

/// Every index of `after` that isn't a primitive restart references the same vertex data, in
/// every attribute, as the index at the same position in `before`: the primitives are unchanged.
pub open spec fn keeps_vertex_data(before: Mesh, after: Mesh) -> bool {
    let old_values = before.indices->0.values();
    let new_values = after.indices->0.values();
    let restart = restart_value(before.indices->0.is_u16(), before.primitive_topology);
    forall|a: int, i: int|
        0 <= a < before.attributes.len() && 0 <= i < old_values.len() && restart != Some(
            old_values[i],
        ) ==> (#[trigger] after.attributes@[a]).values@[new_values[i] as int]@
            == before.attributes@[a].values@[#[trigger] old_values[i] as int]@
}

/// The error, if any, that reordering the triangles of `mesh` runs into.
pub open spec fn cache_optimization_check(mesh: Mesh) -> Result<(), MeshOptimizationError> {
    if mesh.primitive_topology != PrimitiveTopology::TriangleList {
        Err(MeshOptimizationError::UnsupportedTopology(mesh.primitive_topology))
    } else if mesh.extracted {
        Err(MeshOptimizationError::MeshAccessError(MeshAccessError::ExtractedToRenderWorld))
    } else {
        match mesh.indices {
            None => Err(MeshOptimizationError::MissingIndices),
            Some(indices) => validation(
                indices.values(),
                indices.is_u16(),
                mesh.vertex_count() as usize,
                PrimitiveTopology::TriangleList,
            ),
        }
    }
}

/// Why a mesh can't be simplified: the simplification settings are invalid, or the mesh itself
/// can't be simplified.
#[derive(Clone, Copy, Debug, PartialEq, Eq, Structural)]
pub enum SimplificationRejection {
    /// The simplification settings are invalid.
    InvalidSettings,
    /// The mesh can't be simplified.
    Mesh(MeshOptimizationError),
}

/// What keeps `mesh` from being simplified, checked in this order: its topology must be a
/// triangle list, the settings must be valid, its data must not have been extracted to the
/// `RenderWorld`, its positions must be in the supported format, and it must have valid indices.
pub open spec fn simplification_check(
    mesh: Mesh,
    settings_valid: bool,
    positions_supported: bool,
) -> Result<(), SimplificationRejection> {
    if mesh.primitive_topology != PrimitiveTopology::TriangleList {
        Err(
            SimplificationRejection::Mesh(
                MeshOptimizationError::UnsupportedTopology(mesh.primitive_topology),
            ),
        )
    } else if !settings_valid {
        Err(SimplificationRejection::InvalidSettings)
    } else if mesh.extracted {
        Err(
            SimplificationRejection::Mesh(
                MeshOptimizationError::MeshAccessError(MeshAccessError::ExtractedToRenderWorld),
            ),
        )
    } else if !positions_supported {
        Err(SimplificationRejection::Mesh(MeshOptimizationError::UnsupportedPositions))
    } else {
        match cache_optimization_check(mesh) {
            Ok(()) => Ok(()),
            Err(error) => Err(SimplificationRejection::Mesh(error)),
        }
    }
}

/// The first invalid index among the first `n` is the value of an index that comes after valid
/// ones only.
proof fn lemma_first_invalid_index_position(
    indices: Seq<u32>,
    n: int,
    vertex_count: int,
    restart: Option<u32>,
)
    requires
        0 <= n <= indices.len(),
    ensures
        first_invalid_index(indices, n, vertex_count, restart) matches Some(index) ==> exists|j: int|
            0 <= j < n && indices[j] == index && is_invalid_index(index, vertex_count, restart)
                && forall|i: int|
                0 <= i < j ==> !is_invalid_index(#[trigger] indices[i], vertex_count, restart),
    decreases n,
{
    if n > 0 {
        lemma_first_invalid_index_position(indices, n - 1, vertex_count, restart);
        if first_invalid_index(indices, n - 1, vertex_count, restart) is None {
            lemma_first_invalid_index(indices, n - 1, vertex_count, restart);
        }
    }
}

/// A mesh that can be simplified is a triangle list, not extracted, with valid settings and
/// supported positions, whose indices make whole triangles and each reference a vertex.
pub proof fn lemma_simplifiable_meshes_are_valid_triangle_lists(
    mesh: Mesh,
    settings_valid: bool,
    positions_supported: bool,
)
    requires
        simplification_check(mesh, settings_valid, positions_supported) is Ok,
    ensures
        mesh.primitive_topology == PrimitiveTopology::TriangleList,
        settings_valid,
        positions_supported,
        !mesh.extracted,
        mesh.indices is Some,
        mesh.indices->0.values().len() % 3 == 0,
        forall|i: int|
            0 <= i < mesh.indices->0.values().len() ==> #[trigger] mesh.indices->0.values()[i]
                < mesh.vertex_count(),
{
    let values = mesh.indices->0.values();
    lemma_min_len_bound(mesh.attributes@, mesh.attributes.len() as int);
    lemma_first_invalid_index(values, values.len() as int, mesh.vertex_count() as int, None);
    assert forall|i: int| 0 <= i < values.len() implies #[trigger] values[i] < mesh.vertex_count() by {
        assert(!is_invalid_index(values[i], mesh.vertex_count() as int, None));
    }
}

/// The indices of a triangle list whose settings are valid and whose positions are supported
/// decide whether it can be simplified: a partial last triangle is reported with the number of
/// indices, else the first index that doesn't reference a vertex is reported with the number of
/// vertices.
pub proof fn lemma_simplification_index_errors(
    mesh: Mesh,
    settings_valid: bool,
    positions_supported: bool,
)
    requires
        mesh.primitive_topology == PrimitiveTopology::TriangleList,
        settings_valid,
        positions_supported,
        !mesh.extracted,
        mesh.indices is Some,
    ensures
        ({
            let values = mesh.indices->0.values();
            let result = simplification_check(mesh, settings_valid, positions_supported);
            &&& values.len() % 3 != 0 ==> result == Err::<(), SimplificationRejection>(
                SimplificationRejection::Mesh(
                    MeshOptimizationError::AbruptIndicesEnd(values.len() as usize),
                ),
            )
            &&& values.len() % 3 == 0 && (exists|i: int|
                0 <= i < values.len() && #[trigger] values[i] >= mesh.vertex_count())
                ==> exists|j: int|
                0 <= j < values.len() && values[j] >= mesh.vertex_count() && (forall|i: int|
                    0 <= i < j ==> #[trigger] values[i] < mesh.vertex_count()) && result
                    == Err::<(), SimplificationRejection>(
                    SimplificationRejection::Mesh(
                        MeshOptimizationError::IndexOutOfBounds {
                            index: values[j] as usize,
                            vertex_count: mesh.vertex_count() as usize,
                        },
                    ),
                )
        }),
{
    let values = mesh.indices->0.values();
    let vertex_count = mesh.vertex_count() as int;
    lemma_min_len_bound(mesh.attributes@, mesh.attributes.len() as int);
    lemma_first_invalid_index(values, values.len() as int, vertex_count, None);
    lemma_first_invalid_index_position(values, values.len() as int, vertex_count, None);
    if values.len() % 3 == 0 && (exists|i: int|
        0 <= i < values.len() && #[trigger] values[i] >= mesh.vertex_count()) {
        let i = choose|i: int| 0 <= i < values.len() && #[trigger] values[i] >= mesh.vertex_count();
        assert(is_invalid_index(values[i], vertex_count, None));
        let index = first_invalid_index(values, values.len() as int, vertex_count, None)->0;
        let j = choose|j: int|
            0 <= j < values.len() && values[j] == index && is_invalid_index(index, vertex_count, None)
                && forall|k: int|
                0 <= k < j ==> !is_invalid_index(#[trigger] values[k], vertex_count, None);
        assert forall|k: int| 0 <= k < j implies #[trigger] values[k] < mesh.vertex_count() by {
            assert(!is_invalid_index(values[k], vertex_count, None));
        }
    }
}

/// The error, if any, that reordering the vertices of `mesh` runs into.
pub open spec fn fetch_optimization_check(mesh: Mesh) -> Result<(), MeshOptimizationError> {
    if mesh.extracted {
        Err(MeshOptimizationError::MeshAccessError(MeshAccessError::ExtractedToRenderWorld))
    } else {
        match mesh.indices {
            None => Err(MeshOptimizationError::MissingIndices),
            Some(indices) => validation(
                indices.values(),
                indices.is_u16(),
                mesh.vertex_count() as usize,
                mesh.primitive_topology,
            ),
        }
    }
}

/// `after` is `before` with its triangles reordered: the same vertex data, and the same triangles
/// in the index buffer (in the same format), each once and with the same winding, in the order
/// of a walk over the mesh that starts from its best triangle (see [`is_cache_order`]): the order
/// in which the reordering emits them (see [`reordered`]).
pub open spec fn cache_optimized(before: Mesh, after: Mesh) -> bool {
    &&& after.primitive_topology == before.primitive_topology
    &&& after.attributes == before.attributes
    &&& after.morph_targets == before.morph_targets
    &&& after.extracted == before.extracted
    &&& before.indices is Some
    &&& after.indices is Some
    &&& after.indices->0.is_u16() == before.indices->0.is_u16()
    &&& is_triangle_permutation(before.indices->0.values(), after.indices->0.values())
    &&& is_cache_order(before.indices->0.values(), after.indices->0.values())
    &&& after.indices->0.values() == reordered(
        before.indices->0.values(),
        before.vertex_count() as int,
    )
}

/// The sequence `0, 1, ..., vertex_count - 1`: a remapping that changes nothing.
pub open spec fn is_identity(new_to_old: Seq<u32>, vertex_count: int) -> bool {
    &&& new_to_old.len() == vertex_count
    &&& forall|k: int| 0 <= k < new_to_old.len() ==> #[trigger] new_to_old[k] == k
}

/// `after` is `before` with its vertices reordered in the order in which the indices first use
/// them, without the vertices that no index uses. The indices are renumbered accordingly, and
/// primitive restarts are kept.
pub open spec fn fetch_optimized(before: Mesh, after: Mesh) -> bool {
    before.indices matches Some(old_indices) && {
        let restart = restart_value(old_indices.is_u16(), before.primitive_topology);
        let old_values = old_indices.values();
        let new_to_old = first_uses(old_values, restart);
        &&& after.primitive_topology == before.primitive_topology
        &&& after.extracted == before.extracted
        &&& after.indices matches Some(new_indices) && {
            let new_values = new_indices.values();
            &&& new_indices.is_u16() == old_indices.is_u16()
            &&& new_values.len() == old_values.len()
            &&& forall|i: int|
                0 <= i < old_values.len() && restart == Some(old_values[i])
                    ==> #[trigger] new_values[i] == old_values[i]
            &&& forall|i: int|
                0 <= i < old_values.len() && restart != Some(old_values[i]) ==> {
                    &&& #[trigger] new_values[i] < new_to_old.len()
                    &&& new_to_old[new_values[i] as int] == old_values[i]
                }
        }
        &&& after.attributes.len() == before.attributes.len()
        &&& is_identity(new_to_old, before.vertex_count() as int) ==> after.attributes
            == before.attributes
        &&& !is_identity(new_to_old, before.vertex_count() as int) ==> forall|a: int|
            0 <= a < before.attributes.len() ==> is_gathered(
                before.attributes@[a],
                #[trigger] after.attributes@[a],
                new_to_old,
            )
        &&& match before.morph_targets {
            Some(morph) => after.morph_targets matches Some(gathered) && (is_identity(
                new_to_old,
                before.vertex_count() as int,
            ) ==> gathered == morph) && (!is_identity(new_to_old, before.vertex_count() as int)
                ==> is_morph_gathered(morph@, gathered@, before.vertex_count() as int, new_to_old)),
            None => after.morph_targets is None,
        }
    }
}

/// Each triangle of a reordered triangle list is one of the original triangles, so its indices
/// keep any bound that the original indices have.
proof fn lemma_reordered_bound(before: Seq<u32>, after: Seq<u32>, order: Seq<int>, bound: int)
    requires
        is_triangle_order(order, (before.len() / 3) as int),
        is_reordered(before, after, order),
        before.len() % 3 == 0,
        forall|i: int| 0 <= i < before.len() ==> #[trigger] before[i] <= bound,
    ensures
        forall|i: int| 0 <= i < after.len() ==> #[trigger] after[i] <= bound,
{
    assert forall|i: int| 0 <= i < after.len() implies #[trigger] after[i] <= bound by {
        let k = i / 3;
        assert(0 <= order[k] < before.len() / 3);
        if i % 3 == 0 {
            assert(after[3 * k] == before[3 * order[k]]);
        } else if i % 3 == 1 {
            assert(after[3 * k + 1] == before[3 * order[k] + 1]);
        } else {
            assert(after[3 * k + 2] == before[3 * order[k] + 2]);
        }
    }
}

impl Mesh {
    /// Reorders the triangles of this mesh so that the GPU transforms as few vertices as possible,
    /// by taking advantage of its post-transform vertex cache.
    ///
    /// This only changes the order of the indices, the vertex data is left untouched. The winding
    /// order of each triangle is preserved.
    ///
    /// Returns an error if the mesh isn't an indexed [`PrimitiveTopology::TriangleList`], if its
    /// indices are invalid, or if the mesh data has been extracted to the `RenderWorld`; the mesh
    /// is then left unchanged. The mesh holds at most `u32::MAX` indices: triangles, and the
    /// corners of each vertex, are counted with `u32`.
    pub fn optimize_vertex_cache(&mut self) -> (result: Result<(), MeshOptimizationError>)
        requires
            !old(self).extracted ==> (old(self).indices matches Some(indices)
                ==> indices.values().len() <= u32::MAX),
        ensures
            result == cache_optimization_check(*old(self)),
            result is Err ==> *final(self) == *old(self),
            result is Ok ==> cache_optimized(*old(self), *final(self)),
    {
        if self.primitive_topology() != PrimitiveTopology::TriangleList {
            return Err(MeshOptimizationError::UnsupportedTopology(self.primitive_topology()));
        }
        let vertex_count = match self.try_count_vertices() {
            Ok(count) => count,
            Err(error) => {
                return Err(MeshOptimizationError::MeshAccessError(error));
            },
        };
        if self.indices.is_none() {
            return Err(MeshOptimizationError::MissingIndices);
        }
        let ghost before = *self;
        let mut taken: Option<Indices> = None;
        std::mem::swap(&mut self.indices, &mut taken);
        let mut indices = taken.unwrap();
        match validate_indices(&indices, vertex_count, PrimitiveTopology::TriangleList) {
            Ok(()) => {},
            Err(error) => {
                self.indices = Some(indices);
                assert(*self == before);
                return Err(error);
            },
        }
        let ghost old_values = indices.values();
        let mut wide = indices.to_u32();
        proof {
            assert forall|i: int| 0 <= i < wide.len() implies #[trigger] wide@[i] < vertex_count by {
                assert(!is_invalid_index(old_values[i], vertex_count as int, None));
            }
        }
        proof {
            lemma_min_len_bound(before.attributes@, before.attributes.len() as int);
            assert(vertex_count as int == before.vertex_count());
        }
        optimize_vertex_cache(&mut wide, vertex_count);
        proof {
            if indices.is_u16() {
                let order = choose|order: Seq<int>|
                    is_triangle_order(order, (old_values.len() / 3) as int) && is_reordered(
                        old_values,
                        wide@,
                        order,
                    );
                assert forall|i: int| 0 <= i < old_values.len() implies #[trigger] old_values[i]
                    <= u16::MAX by {
                    if let Indices::U16(narrow) = indices {
                        assert(old_values[i] == narrow@[i] as u32);
                    }
                }
                lemma_reordered_bound(old_values, wide@, order, u16::MAX as int);
            }
        }
        indices.set_from_u32(wide);
        self.indices = Some(indices);
        Ok(())
    }
}

proof fn lemma_gathered_min_len(attributes: Seq<MeshAttribute>, n: int, len: nat)
    requires
        0 < n <= attributes.len(),
        forall|a: int| 0 <= a < n ==> (#[trigger] attributes[a]).values.len() == len,
    ensures
        min_len(attributes, n) == len,
    decreases n,
{
    if n > 1 {
        lemma_gathered_min_len(attributes, n - 1, len);
    }
}

/// Whether `new_to_old` is `0, 1, ..., vertex_count - 1`.
fn check_identity(new_to_old: &Vec<u32>, vertex_count: usize) -> (identity: bool)
    ensures
        identity == is_identity(new_to_old@, vertex_count as int),
{
    if new_to_old.len() != vertex_count {
        return false;
    }
    let mut k: usize = 0;
    while k < new_to_old.len()
        invariant
            k <= new_to_old.len(),
            forall|j: int| 0 <= j < k ==> #[trigger] new_to_old@[j] == j,
        decreases new_to_old.len() - k,
    {
        if new_to_old[k] as usize != k {
            return false;
        }
        k = k + 1;
    }
    true
}

impl Mesh {
    /// Checks whether this mesh can be simplified, given whether the simplification settings are
    /// valid and whether the positions of the mesh are in the supported format. The checks come in
    /// the order of [`simplification_check`], and the first one that fails gives the error.
    pub fn check_simplification(&self, settings_valid: bool, positions_supported: bool) -> (result:
        Result<(), SimplificationRejection>)
        ensures
            result == simplification_check(*self, settings_valid, positions_supported),
    {
        if self.primitive_topology() != PrimitiveTopology::TriangleList {
            return Err(
                SimplificationRejection::Mesh(
                    MeshOptimizationError::UnsupportedTopology(self.primitive_topology()),
                ),
            );
        }
        if !settings_valid {
            return Err(SimplificationRejection::InvalidSettings);
        }
        let vertex_count = match self.try_count_vertices() {
            Ok(count) => count,
            Err(error) => {
                return Err(
                    SimplificationRejection::Mesh(MeshOptimizationError::MeshAccessError(error)),
                );
            },
        };
        if !positions_supported {
            return Err(SimplificationRejection::Mesh(MeshOptimizationError::UnsupportedPositions));
        }
        match &self.indices {
            None => Err(SimplificationRejection::Mesh(MeshOptimizationError::MissingIndices)),
            Some(indices) => match validate_indices(
                indices,
                vertex_count,
                PrimitiveTopology::TriangleList,
            ) {
                Ok(()) => Ok(()),
                Err(error) => Err(SimplificationRejection::Mesh(error)),
            },
        }
    }
}

impl Mesh {
    /// Reorders the vertices of this mesh in the order in which they are first used by the
    /// indices, and removes the vertices that aren't used by any primitive.
    ///
    /// This makes the memory accesses of the GPU more coherent when fetching vertex attributes.
    /// The indices, all the vertex attributes and the morph targets are updated accordingly, so
    /// every primitive keeps the same vertex data. The morph targets must hold one value per
    /// vertex for each target, and the mesh at most `u32::MAX` vertices, the range of the new
    /// vertex numbers. The order of the primitives is left untouched. For strip
    /// topologies, primitive restart values are preserved.
    ///
    /// Returns an error if the mesh doesn't have indices, if its indices are invalid, or if the
    /// mesh data has been extracted to the `RenderWorld`; the mesh is then left unchanged.
    pub fn optimize_vertex_fetch(&mut self) -> (result: Result<(), MeshOptimizationError>)
        requires
            !old(self).extracted ==> old(self).vertex_count() <= u32::MAX,
            !old(self).extracted ==> old(self).morph_targets_fit_vertices(),
        ensures
            result == fetch_optimization_check(*old(self)),
            result is Err ==> *final(self) == *old(self),
            result is Ok ==> fetch_optimized(*old(self), *final(self)),
            result is Ok ==> vertices_are_first_uses(*old(self), *final(self)),
            result is Ok ==> keeps_vertex_data(*old(self), *final(self)),
    {
        let vertex_count = match self.try_count_vertices() {
            Ok(count) => count,
            Err(error) => {
                return Err(MeshOptimizationError::MeshAccessError(error));
            },
        };
        let topology = self.primitive_topology();
        if self.indices.is_none() {
            return Err(MeshOptimizationError::MissingIndices);
        }
        let ghost before = *self;
        let mut taken: Option<Indices> = None;
        std::mem::swap(&mut self.indices, &mut taken);
        let mut indices = taken.unwrap();
        match validate_indices(&indices, vertex_count, topology) {
            Ok(()) => {},
            Err(error) => {
                self.indices = Some(indices);
                assert(*self == before);
                return Err(error);
            },
        }
        let restart = restart_index(&indices, topology);
        let ghost old_values = indices.values();
        let mut wide = indices.to_u32();
        let new_to_old = remap_vertices_by_first_use(&mut wide, vertex_count, restart);
        proof {
            if indices.is_u16() {
                assert forall|i: int| 0 <= i < old_values.len() implies #[trigger] old_values[i]
                    <= u16::MAX by {
                    if let Indices::U16(narrow) = indices {
                        assert(old_values[i] == narrow@[i] as u32);
                    }
                }
                assert forall|k: int| 0 <= k < new_to_old.len() implies #[trigger] new_to_old@[k]
                    < 65536 by {
                    let j = choose|j: int| 0 <= j < old_values.len() && old_values[j] == new_to_old@[k];
                }
                lemma_distinct_u32_below(new_to_old@, 65536);
                assert forall|i: int| 0 <= i < wide.len() implies #[trigger] wide@[i] <= u16::MAX by {
                    if restart != Some(old_values[i]) {
                        assert(wide@[i] < new_to_old.len());
                    }
                }
            }
        }
        indices.set_from_u32(wide);
        let identity = check_identity(&new_to_old, vertex_count);
        if !identity {
            let gathered = self.try_gather_vertices(&new_to_old);
        }
        self.indices = Some(indices);
        proof {
            let new_values = self.indices->0.values();
            if identity {
                assert forall|i: int|
                    0 <= i < old_values.len() && restart != Some(old_values[i]) implies #[trigger] new_values[i]
                    == old_values[i] by {
                    assert(new_to_old@[new_values[i] as int] == new_values[i]);
                }
            } else {
                if self.attributes.len() > 0 {
                    lemma_gathered_min_len(self.attributes@, self.attributes.len() as int, new_to_old@.len());
                } else {
                    assert(vertex_count == 0);
                    assert(new_to_old.len() <= vertex_count);
                }
            }
        }
        Ok(())
    }
}

/// The error, if any, that optimizing `mesh` for the GPU runs into.
pub open spec fn gpu_optimization_check(mesh: Mesh) -> Result<(), MeshOptimizationError> {
    if mesh.primitive_topology == PrimitiveTopology::TriangleList {
        cache_optimization_check(mesh)
    } else {
        fetch_optimization_check(mesh)
    }
}

/// `after` is `before` optimized for the GPU: its triangles reordered for the vertex cache (for
/// triangle lists), then its vertices reordered for vertex fetching.
pub open spec fn gpu_optimized(before: Mesh, after: Mesh) -> bool {
    if before.primitive_topology == PrimitiveTopology::TriangleList {
        exists|reordered: Mesh|
            cache_optimized(before, reordered) && #[trigger] fetch_optimized(reordered, after)
    } else {
        fetch_optimized(before, after)
    }
}

/// The bytes of each vertex of `attribute`.
pub open spec fn vertex_bytes(attribute: MeshAttribute) -> Seq<Seq<u8>> {
    attribute.values@.map_values(|value: Vec<u8>| value@)
}

/// The vertex data of a mesh as plain values: the id, item size and vertex bytes of each of its
/// attributes, in order.
pub open spec fn attribute_data(mesh: Mesh) -> Seq<(u64, usize, Seq<Seq<u8>>)> {
    mesh.attributes@.map_values(
        |attribute: MeshAttribute| (attribute.id, attribute.item_size, vertex_bytes(attribute)),
    )
}

/// Two meshes with the same topology, the same index buffer (format and values), the same vertex
/// data, and both extracted to the `RenderWorld` or neither.
pub open spec fn same_mesh_data(first: Mesh, second: Mesh) -> bool {
    &&& first.primitive_topology == second.primitive_topology
    &&& first.extracted == second.extracted
    &&& (first.indices is Some <==> second.indices is Some)
    &&& first.indices is Some ==> first.indices->0.is_u16() == second.indices->0.is_u16()
        && first.indices->0.values() == second.indices->0.values()
    &&& attribute_data(first) == attribute_data(second)
    &&& morph_data(first) == morph_data(second)
}

/// The morph targets of a mesh as plain values, if it has any.
pub open spec fn morph_data(mesh: Mesh) -> Option<Seq<Seq<u8>>> {
    match mesh.morph_targets {
        Some(morph) => Some(morph@.map_values(|value: Vec<u8>| value@)),
        None => None,
    }
}

/// The vertices of `first_uses` are distinct.
proof fn lemma_first_uses_distinct(indices: Seq<u32>, restart: Option<u32>)
    ensures
        first_uses(indices, restart).no_duplicates(),
    decreases indices.len(),
{
    if indices.len() > 0 {
        lemma_first_uses_distinct(indices.drop_last(), restart);
    }
}

/// Reordering the vertices of two meshes with the same topology, indices and vertex data gives
/// two meshes with the same data.
proof fn lemma_fetch_optimized_is_deterministic(
    before: Mesh,
    other_before: Mesh,
    first: Mesh,
    second: Mesh,
)
    requires
        fetch_optimized(before, first),
        fetch_optimized(other_before, second),
        before.primitive_topology == other_before.primitive_topology,
        before.extracted == other_before.extracted,
        before.attributes == other_before.attributes,
        before.morph_targets == other_before.morph_targets,
        before.indices is Some,
        other_before.indices is Some,
        before.indices->0.is_u16() == other_before.indices->0.is_u16(),
        before.indices->0.values() == other_before.indices->0.values(),
    ensures
        same_mesh_data(first, second),
{
    let old_values = before.indices->0.values();
    let restart = restart_value(before.indices->0.is_u16(), before.primitive_topology);
    let new_to_old = first_uses(old_values, restart);
    lemma_first_uses_distinct(old_values, restart);
    let first_values = first.indices->0.values();
    let second_values = second.indices->0.values();
    assert forall|i: int| 0 <= i < first_values.len() implies first_values[i]
        == second_values[i] by {
        if restart != Some(old_values[i]) {
            assert(new_to_old[first_values[i] as int] == new_to_old[second_values[i] as int]);
        }
    }
    assert(first_values =~= second_values);
    assert forall|a: int| 0 <= a < first.attributes.len() implies #[trigger] attribute_data(
        first,
    )[a] == attribute_data(second)[a] by {
        if !is_identity(new_to_old, before.vertex_count() as int) {
            assert(vertex_bytes(first.attributes@[a]) =~= vertex_bytes(second.attributes@[a]));
        }
    }
    assert(attribute_data(first) =~= attribute_data(second));
    if let Some(morph) = before.morph_targets {
        if is_identity(new_to_old, before.vertex_count() as int) {
            assert(first.morph_targets == second.morph_targets);
        } else {
            assert(morph_data(first) == morph_data(second));
        }
    }
}

/// Reordering the triangles of a mesh has a single outcome: any two meshes that are `before`
/// with its triangles reordered have the same data.
pub proof fn lemma_cache_optimization_is_deterministic(before: Mesh, first: Mesh, second: Mesh)
    requires
        cache_optimized(before, first),
        cache_optimized(before, second),
    ensures
        same_mesh_data(first, second),
{
}

/// The first uses of the first `n` indices come first among the first uses of all of them.
proof fn lemma_first_uses_prefix(indices: Seq<u32>, restart: Option<u32>, n: int)
    requires
        0 <= n <= indices.len(),
    ensures
        first_uses(indices.take(n), restart).len() <= first_uses(indices, restart).len(),
        first_uses(indices, restart).take(first_uses(indices.take(n), restart).len() as int)
            == first_uses(indices.take(n), restart),
    decreases indices.len() - n,
{
    let all = first_uses(indices, restart);
    if n < indices.len() {
        lemma_first_uses_prefix(indices, restart, n + 1);
        let a = first_uses(indices.take(n), restart);
        let b = first_uses(indices.take(n + 1), restart);
        assert(indices.take(n + 1).drop_last() =~= indices.take(n));
        assert(b.take(a.len() as int) =~= a);
        assert(all.take(a.len() as int) =~= all.take(b.len() as int).take(a.len() as int));
    } else {
        assert(indices.take(n) =~= indices);
        assert(all.take(all.len() as int) =~= all);
    }
}

/// The first uses of indices that reference vertices below `vertex_count` (or are primitive
/// restarts) are below `vertex_count`.
proof fn lemma_first_uses_below(indices: Seq<u32>, restart: Option<u32>, vertex_count: int)
    requires
        forall|i: int|
            0 <= i < indices.len() && restart != Some(indices[i]) ==> #[trigger] indices[i]
                < vertex_count,
    ensures
        all_below(first_uses(indices, restart), vertex_count),
    decreases indices.len(),
{
    if indices.len() > 0 {
        let rest = indices.drop_last();
        assert forall|i: int| 0 <= i < rest.len() && restart != Some(rest[i]) implies #[trigger] rest[i]
            < vertex_count by {
            assert(rest[i] == indices[i]);
        }
        lemma_first_uses_below(rest, restart, vertex_count);
    }
}

/// Indices renumbered by first use use the vertices in order: the first uses of the first `n`
/// renumbered indices are `0, 1, ...`, as many as the first uses of the first `n` original ones.
proof fn lemma_renumbered_first_uses(old: Seq<u32>, new: Seq<u32>, restart: Option<u32>, n: int)
    requires
        0 <= n <= old.len(),
        new.len() == old.len(),
        first_uses(old, restart).no_duplicates(),
        restart matches Some(r) ==> first_uses(old, restart).len() <= r,
        forall|i: int|
            0 <= i < old.len() && restart == Some(old[i]) ==> #[trigger] new[i] == old[i],
        forall|i: int|
            0 <= i < old.len() && restart != Some(old[i]) ==> {
                &&& #[trigger] new[i] < first_uses(old, restart).len()
                &&& first_uses(old, restart)[new[i] as int] == old[i]
            },
    ensures
        first_uses(new.take(n), restart) == Seq::new(
            first_uses(old.take(n), restart).len(),
            |v: int| v as u32,
        ),
    decreases n,
{
    let all = first_uses(old, restart);
    if n > 0 {
        lemma_renumbered_first_uses(old, new, restart, n - 1);
        lemma_first_uses_prefix(old, restart, n - 1);
        lemma_first_uses_prefix(old, restart, n);
        let a = first_uses(old.take(n - 1), restart);
        let b = first_uses(old.take(n), restart);
        let ids = Seq::new(a.len(), |v: int| v as u32);
        assert(old.take(n).drop_last() =~= old.take(n - 1));
        assert(new.take(n).drop_last() =~= new.take(n - 1));
        let x = old[n - 1];
        let y = new[n - 1];
        assert(old.take(n).last() == x);
        assert(new.take(n).last() == y);
        if restart == Some(x) {
            assert(b == a);
        } else if a.contains(x) {
            let q = choose|q: int| 0 <= q < a.len() && a[q] == x;
            assert(all.take(a.len() as int)[q] == a[q]);
            assert(all[q] == x);
            assert(y == q);
            assert(ids[q] == y);
            assert(b == a);
        } else {
            assert(b == a.push(x));
            assert(all.take(b.len() as int)[a.len() as int] == b[a.len() as int]);
            assert(all[a.len() as int] == x);
            assert(y == a.len());
            assert(!ids.contains(y)) by {
                if ids.contains(y) {
                    let v = choose|v: int| 0 <= v < ids.len() && ids[v] == y;
                }
            }
            assert(Seq::new(b.len(), |v: int| v as u32) =~= ids.push(y));
        }
    } else {
        assert(new.take(0) =~= Seq::<u32>::empty());
        assert(old.take(0) =~= Seq::<u32>::empty());
        assert(Seq::new(0, |v: int| v as u32) =~= Seq::<u32>::empty());
    }
}

/// Indices of a mesh whose primitive restarts are the largest value of their format are at
/// most that value.
proof fn lemma_indices_below_restart(mesh: Mesh)
    requires
        mesh.indices is Some,
    ensures
        restart_value(mesh.indices->0.is_u16(), mesh.primitive_topology) matches Some(r) ==> forall|
            i: int,
        |
            0 <= i < mesh.indices->0.values().len() ==> #[trigger] mesh.indices->0.values()[i] <= r,
{
    if let Some(Indices::U16(narrow)) = mesh.indices {
        assert forall|i: int| 0 <= i < mesh.indices->0.values().len() implies #[trigger] mesh.indices->0.values()[i]
            <= u16::MAX by {
            assert(mesh.indices->0.values()[i] == narrow@[i] as u32);
        }
    }
}

/// Reordering the vertices of a mesh numbers them in the order in which the indices first use
/// them: the first uses of the new indices are `0, 1, 2, ...`, one for each vertex used.
pub proof fn lemma_fetch_optimized_numbers_vertices_by_first_use(before: Mesh, after: Mesh)
    requires
        fetch_optimized(before, after),
    ensures
        ({
            let restart = restart_value(before.indices->0.is_u16(), before.primitive_topology);
            first_uses(after.indices->0.values(), restart) == Seq::new(
                first_uses(before.indices->0.values(), restart).len(),
                |v: int| v as u32,
            )
        }),
{
    let old = before.indices->0.values();
    let new = after.indices->0.values();
    let restart = restart_value(before.indices->0.is_u16(), before.primitive_topology);
    lemma_first_uses_distinct(old, restart);
    if let Some(r) = restart {
        lemma_indices_below_restart(before);
        lemma_first_uses_below(old, restart, r as int);
        lemma_distinct_u32_below(first_uses(old, restart), r as int);
    }
    lemma_renumbered_first_uses(old, new, restart, old.len() as int);
    assert(old.take(old.len() as int) =~= old);
    assert(new.take(new.len() as int) =~= new);
}

/// Reordering the vertices of a mesh a second time changes nothing: after the first time, the
/// mesh can be reordered again, and its vertices already come in the order of their first use,
/// each of them used.
pub proof fn lemma_fetch_optimization_is_idempotent(before: Mesh, once: Mesh, twice: Mesh)
    requires
        fetch_optimization_check(before) is Ok,
        fetch_optimized(before, once),
        fetch_optimized(once, twice),
    ensures
        fetch_optimization_check(once) is Ok,
        same_mesh_data(once, twice),
{
    let old = before.indices->0.values();
    let mid = once.indices->0.values();
    let restart = restart_value(before.indices->0.is_u16(), before.primitive_topology);
    let new_to_old = first_uses(old, restart);
    let k = new_to_old.len();
    lemma_min_len_bound(before.attributes@, before.attributes.len() as int);
    lemma_min_len_bound(once.attributes@, once.attributes.len() as int);
    lemma_first_invalid_index(old, old.len() as int, before.vertex_count() as int, restart);
    assert forall|i: int| 0 <= i < old.len() && restart != Some(old[i]) implies #[trigger] old[i]
        < before.vertex_count() by {
        assert(!is_invalid_index(old[i], before.vertex_count() as int, restart));
    }
    lemma_first_uses_below(old, restart, before.vertex_count() as int);
    lemma_first_uses_distinct(old, restart);
    lemma_distinct_u32_below(new_to_old, before.vertex_count() as int);
    // The reordered mesh has one vertex per vertex used.
    if !is_identity(new_to_old, before.vertex_count() as int) {
        if once.attributes.len() > 0 {
            assert forall|a: int| 0 <= a < once.attributes.len() implies (
            #[trigger] once.attributes@[a]).values.len() == k by {
                assert(is_gathered(before.attributes@[a], once.attributes@[a], new_to_old));
            }
            lemma_gathered_min_len(once.attributes@, once.attributes.len() as int, k);
        } else {
            assert(before.vertex_count() == 0);
            assert(new_to_old =~= Seq::<u32>::empty()) by {
                if k > 0 {
                    assert(new_to_old[0] < 0);
                }
            }
        }
    }
    assert(once.vertex_count() == k);
    // Its indices are valid.
    assert forall|i: int| 0 <= i < mid.len() implies !is_invalid_index(
        #[trigger] mid[i],
        k as int,
        restart,
    ) by {}
    lemma_first_invalid_index(mid, mid.len() as int, k as int, restart);
    // Reordering it again keeps its vertices where they are.
    lemma_fetch_optimized_numbers_vertices_by_first_use(before, once);
    let again = first_uses(mid, restart);
    lemma_distinct_u32_below(new_to_old, 0x1_0000_0000);
    assert forall|v: int| 0 <= v < again.len() implies #[trigger] again[v] == v by {
        assert(v < 0x1_0000_0000);
    }
    assert(is_identity(again, once.vertex_count() as int));
    let last = twice.indices->0.values();
    assert forall|i: int| 0 <= i < mid.len() implies last[i] == mid[i] by {
        if restart != Some(mid[i]) {
            assert(again[last[i] as int] == last[i]);
        }
    }
    assert(last =~= mid);
}

/// Optimizing a mesh for the GPU has a single outcome: any two meshes that are `before` optimized
/// for the GPU have the same data.
pub proof fn lemma_gpu_optimization_is_deterministic(before: Mesh, first: Mesh, second: Mesh)
    requires
        gpu_optimized(before, first),
        gpu_optimized(before, second),
    ensures
        same_mesh_data(first, second),
{
    if before.primitive_topology == PrimitiveTopology::TriangleList {
        let first_reordered = choose|reordered: Mesh|
            cache_optimized(before, reordered) && #[trigger] fetch_optimized(reordered, first);
        let second_reordered = choose|reordered: Mesh|
            cache_optimized(before, reordered) && #[trigger] fetch_optimized(reordered, second);
        lemma_fetch_optimized_is_deterministic(first_reordered, second_reordered, first, second);
    } else {
        lemma_fetch_optimized_is_deterministic(before, before, first, second);
    }
}

/// Optimizing a triangle list for the GPU gives the same data as reordering its triangles and
/// then its vertices.
pub proof fn lemma_gpu_optimization_is_its_two_steps(
    before: Mesh,
    reordered: Mesh,
    after: Mesh,
    optimized: Mesh,
)
    requires
        before.primitive_topology == PrimitiveTopology::TriangleList,
        cache_optimized(before, reordered),
        fetch_optimized(reordered, after),
        gpu_optimized(before, optimized),
    ensures
        same_mesh_data(after, optimized),
{
    assert(gpu_optimized(before, after));
    lemma_gpu_optimization_is_deterministic(before, after, optimized);
}

/// Reordering the triangles of a mesh keeps its indices valid, so its vertices can be reordered
/// too.
proof fn lemma_cache_optimized_is_valid(before: Mesh, after: Mesh)
    requires
        cache_optimization_check(before) is Ok,
        cache_optimized(before, after),
    ensures
        fetch_optimization_check(after) is Ok,
{
    let old_values = before.indices->0.values();
    let new_values = after.indices->0.values();
    let vertex_count = before.vertex_count() as int;
    lemma_min_len_bound(before.attributes@, before.attributes.len() as int);
    lemma_first_invalid_index(old_values, old_values.len() as int, vertex_count, None);
    let order = choose|order: Seq<int>|
        is_triangle_order(order, (old_values.len() / 3) as int) && is_reordered(
            old_values,
            new_values,
            order,
        );
    if old_values.len() > 0 {
        assert(!is_invalid_index(old_values[0], vertex_count, None));
        assert forall|i: int| 0 <= i < old_values.len() implies #[trigger] old_values[i] <= vertex_count
            - 1 by {
            assert(!is_invalid_index(old_values[i], vertex_count, None));
        }
        lemma_reordered_bound(old_values, new_values, order, vertex_count - 1);
    }
    lemma_first_invalid_index(new_values, new_values.len() as int, vertex_count, None);
}

/// The indices, without the primitive restarts.
pub open spec fn without_restarts(indices: Seq<u32>, restart: Option<u32>) -> Seq<u32>
    decreases indices.len(),
{
    if indices.len() == 0 {
        Seq::empty()
    } else {
        let rest = without_restarts(indices.drop_last(), restart);
        if restart == Some(indices.last()) {
            rest
        } else {
            rest.push(indices.last())
        }
    }
}

/// The statistics that analyzing the vertex cache of `mesh` gives, once its indices are known to
/// be valid.
pub open spec fn cache_statistics(mesh: Mesh, cache_size: usize) -> VertexCacheStatistics {
    let values = mesh.indices->0.values();
    let state = fifo_run(
        values,
        values.len() as int,
        mesh.vertex_count() as int,
        effective_cache_size(cache_size as int, mesh.vertex_count() as int),
    );
    VertexCacheStatistics {
        vertices_transformed: state.2 as usize,
        unique_vertices: state.3 as usize,
        triangle_count: (values.len() / 3) as usize,
    }
}

/// Analyzing the vertex cache of a triangle list with a cache at least as large as the number of
/// vertices its indices use reports each of them transformed exactly once.
pub proof fn lemma_large_cache_statistics(mesh: Mesh, cache_size: usize)
    requires
        cache_optimization_check(mesh) is Ok,
        cache_size >= first_uses(mesh.indices->0.values(), None).len(),
    ensures
        cache_statistics(mesh, cache_size).vertices_transformed == first_uses(
            mesh.indices->0.values(),
            None,
        ).len(),
        cache_statistics(mesh, cache_size).unique_vertices == first_uses(
            mesh.indices->0.values(),
            None,
        ).len(),
{
    let values = mesh.indices->0.values();
    let vertex_count = mesh.vertex_count() as int;
    lemma_min_len_bound(mesh.attributes@, mesh.attributes.len() as int);
    lemma_first_invalid_index(values, values.len() as int, vertex_count, None);
    assert forall|i: int| 0 <= i < values.len() implies #[trigger] values[i] < vertex_count by {
        assert(!is_invalid_index(values[i], vertex_count, None));
    }
    lemma_first_uses_bounded(values, vertex_count);
    lemma_large_cache_transforms_each_vertex_once(values, vertex_count, cache_size as int);
}

/// The statistics that analyzing the vertex fetching of `mesh` gives, once its indices are known
/// to be valid.
pub open spec fn fetch_statistics(mesh: Mesh) -> VertexFetchStatistics {
    let indices = mesh.indices->0;
    let used = without_restarts(
        indices.values(),
        restart_value(indices.is_u16(), mesh.primitive_topology),
    );
    VertexFetchStatistics {
        bytes_fetched: fetch_run(used, used.len() as int, mesh.vertex_size()).1 as usize,
        referenced_bytes: (first_uses(used, None).len() * mesh.vertex_size()) as usize,
    }
}

impl Mesh {
    /// Makes this mesh cheaper to render by reordering its triangles with
    /// [`Mesh::optimize_vertex_cache`], and then its vertices with [`Mesh::optimize_vertex_fetch`].
    ///
    /// This doesn't change the appearance of the mesh. Triangle reordering is only done for
    /// [`PrimitiveTopology::TriangleList`] meshes; for other topologies only the vertices are
    /// reordered.
    ///
    /// Returns an error if the mesh doesn't have indices, if its indices are invalid, or if the
    /// mesh data has been extracted to the `RenderWorld`; the mesh is then left unchanged. The
    /// mesh holds at most `u32::MAX` indices and vertices, and its morph targets hold one value
    /// per vertex for each target (see [`Mesh::optimize_vertex_cache`] and
    /// [`Mesh::optimize_vertex_fetch`]).
    pub fn optimize_for_gpu(&mut self) -> (result: Result<(), MeshOptimizationError>)
        requires
            !old(self).extracted ==> (old(self).indices matches Some(indices)
                ==> indices.values().len() <= u32::MAX),
            !old(self).extracted ==> old(self).vertex_count() <= u32::MAX,
            !old(self).extracted ==> old(self).morph_targets_fit_vertices(),
        ensures
            result == gpu_optimization_check(*old(self)),
            result is Err ==> *final(self) == *old(self),
            result is Ok ==> gpu_optimized(*old(self), *final(self)),
    {
        let ghost before = *self;
        if self.primitive_topology() == PrimitiveTopology::TriangleList {
            match self.optimize_vertex_cache() {
                Ok(()) => {},
                Err(error) => {
                    return Err(error);
                },
            }
            let ghost reordered = *self;
            proof {
                lemma_cache_optimized_is_valid(before, reordered);
            }
            let result = self.optimize_vertex_fetch();
            assert(cache_optimized(before, reordered) && fetch_optimized(reordered, *self));
            return result;
        }
        self.optimize_vertex_fetch()
    }

    /// Consumes the mesh and returns a mesh optimized with [`Mesh::optimize_for_gpu`].
    ///
    /// Returns an error if the mesh doesn't have indices, if its indices are invalid, or if the
    /// mesh data has been extracted to the `RenderWorld`.
    pub fn optimized_for_gpu(self) -> (result: Result<Self, MeshOptimizationError>)
        requires
            !self.extracted ==> (self.indices matches Some(indices) ==> indices.values().len()
                <= u32::MAX),
            !self.extracted ==> self.vertex_count() <= u32::MAX,
            !self.extracted ==> self.morph_targets_fit_vertices(),
        ensures
            match result {
                Ok(mesh) => gpu_optimization_check(self) is Ok && gpu_optimized(self, mesh),
                Err(error) => gpu_optimization_check(self) == Err::<(), MeshOptimizationError>(
                    error,
                ),
            },
    {
        let mut mesh = self;
        match mesh.optimize_for_gpu() {
            Ok(()) => Ok(mesh),
            Err(error) => Err(error),
        }
    }

    /// Estimates how efficiently this mesh uses the post-transform vertex cache of the GPU, by
    /// simulating a first-in first-out cache of `cache_size` vertices.
    ///
    /// Returns an error if the mesh isn't an indexed [`PrimitiveTopology::TriangleList`], if its
    /// indices are invalid, or if the mesh data has been extracted to the `RenderWorld`.
    pub fn analyze_vertex_cache(&self, cache_size: usize) -> (result: Result<
        VertexCacheStatistics,
        MeshOptimizationError,
    >)
        requires
            !self.extracted ==> (self.indices matches Some(indices) ==> self.vertex_count()
                + indices.values().len() < usize::MAX),
        ensures
            match result {
                Ok(statistics) => cache_optimization_check(*self) is Ok && statistics
                    == cache_statistics(*self, cache_size),
                Err(error) => cache_optimization_check(*self) == Err::<(), MeshOptimizationError>(
                    error,
                ),
            },
    {
        if self.primitive_topology() != PrimitiveTopology::TriangleList {
            return Err(MeshOptimizationError::UnsupportedTopology(self.primitive_topology()));
        }
        let vertex_count = match self.try_count_vertices() {
            Ok(count) => count,
            Err(error) => {
                return Err(MeshOptimizationError::MeshAccessError(error));
            },
        };
        let indices = match &self.indices {
            Some(indices) => indices,
            None => {
                return Err(MeshOptimizationError::MissingIndices);
            },
        };
        match validate_indices(indices, vertex_count, PrimitiveTopology::TriangleList) {
            Ok(()) => {},
            Err(error) => {
                return Err(error);
            },
        }
        let wide = indices.to_u32();
        proof {
            assert forall|i: int| 0 <= i < wide.len() implies #[trigger] wide@[i] < vertex_count by {
                assert(!is_invalid_index(wide@[i], vertex_count as int, None));
            }
        }
        let statistics = analyze_vertex_cache(&wide, wide.len() / 3, vertex_count, cache_size);
        Ok(statistics)
    }

    /// Estimates the amount of memory traffic needed to fetch the vertex attributes of this mesh,
    /// by simulating a small cache in front of the interleaved vertex buffer.
    ///
    /// Returns an error if the mesh doesn't have indices, if its indices are invalid, or if the
    /// mesh data has been extracted to the `RenderWorld`.
    pub fn analyze_vertex_fetch(&self) -> (result: Result<
        VertexFetchStatistics,
        MeshOptimizationError,
    >)
        requires
            !self.extracted ==> self.vertex_size() <= usize::MAX,
            !self.extracted ==> self.vertex_count() * self.vertex_size() <= usize::MAX,
            !self.extracted ==> (self.indices matches Some(indices) ==> indices.values().len() * (
            self.vertex_size() + 128) <= usize::MAX),
        ensures
            match result {
                Ok(statistics) => fetch_optimization_check(*self) is Ok && statistics
                    == fetch_statistics(*self),
                Err(error) => fetch_optimization_check(*self) == Err::<(), MeshOptimizationError>(
                    error,
                ),
            },
    {
        let vertex_count = match self.try_count_vertices() {
            Ok(count) => count,
            Err(error) => {
                return Err(MeshOptimizationError::MeshAccessError(error));
            },
        };
        let indices = match &self.indices {
            Some(indices) => indices,
            None => {
                return Err(MeshOptimizationError::MissingIndices);
            },
        };
        let topology = self.primitive_topology();
        match validate_indices(indices, vertex_count, topology) {
            Ok(()) => {},
            Err(error) => {
                return Err(error);
            },
        }
        let restart = restart_index(indices, topology);
        let ghost values = indices.values();
        let mut used: Vec<u32> = Vec::new();
        let mut i: usize = 0;
        while i < indices.len()
            invariant
                i <= values.len(),
                values == indices.values(),
                forall|j: int|
                    0 <= j < values.len() ==> !is_invalid_index(
                        #[trigger] values[j],
                        vertex_count as int,
                        restart,
                    ),
                used@ == without_restarts(values.take(i as int), restart),
                used.len() <= i,
                all_below(used@, vertex_count as int),
            decreases values.len() - i,
        {
            let index = indices.get(i);
            proof {
                assert(values.take(i + 1).drop_last() =~= values.take(i as int));
            }
            if restart != Some(index) {
                used.push(index);
            }
            i = i + 1;
        }
        let vertex_size = self.get_vertex_size();
        proof {
            lemma_min_len_bound(self.attributes@, self.attributes.len() as int);
            assert(values.take(values.len() as int) =~= values);
            assert(used.len() * (self.vertex_size() + 128) <= values.len() * (self.vertex_size()
                + 128)) by (nonlinear_arith)
                requires
                    used.len() <= values.len(),
                    self.vertex_size() >= 0,
            ;
        }
        let statistics = analyze_vertex_fetch(&used, vertex_count, vertex_size);
        Ok(statistics)
    }
}

/// The vertex data, in attribute `attribute`, of the vertex referenced by index `position`.
pub open spec fn corner_data(mesh: Mesh, position: int, attribute: int) -> Seq<u8> {
    mesh.attributes@[attribute].values@[mesh.indices->0.values()[position] as int]@
}

/// `after` draws the same triangles as the triangle list `before`, each once, in some order: each
/// corner of each triangle has the same data in every vertex attribute, and the corners of each
/// triangle keep their order, so their winding is preserved.
pub open spec fn draws_same_triangles(before: Mesh, after: Mesh) -> bool {
    let old_values = before.indices->0.values();
    let new_values = after.indices->0.values();
    &&& after.attributes.len() == before.attributes.len()
    &&& new_values.len() == old_values.len()
    &&& exists|order: Seq<int>|
        #![trigger is_triangle_order(order, (old_values.len() / 3) as int)]
        is_triangle_order(order, (old_values.len() / 3) as int) && forall|i: int, a: int|
            0 <= i < new_values.len() && 0 <= a < before.attributes.len() ==> #[trigger] corner_data(
                after,
                i,
                a,
            ) == corner_data(before, 3 * order[i / 3] + i % 3, a)
}

/// Reordering the vertices of a mesh keeps the vertex data of every index that isn't a primitive
/// restart.
pub proof fn lemma_fetch_optimized_keeps_vertex_data(before: Mesh, after: Mesh)
    requires
        fetch_optimized(before, after),
    ensures
        keeps_vertex_data(before, after),
{
    let old_indices = before.indices->0;
    let restart = restart_value(old_indices.is_u16(), before.primitive_topology);
    let old_values = old_indices.values();
    let new_values = after.indices->0.values();
    let new_to_old = first_uses(old_values, restart);
    assert forall|a: int, i: int|
        0 <= a < before.attributes.len() && 0 <= i < old_values.len() && restart != Some(
            old_values[i],
        ) implies (#[trigger] after.attributes@[a]).values@[new_values[i] as int]@
        == before.attributes@[a].values@[#[trigger] old_values[i] as int]@ by {
        assert(new_values[i] < new_to_old.len());
        if is_identity(new_to_old, before.vertex_count() as int) {
            assert(new_to_old[new_values[i] as int] == new_values[i]);
        } else {
            assert(is_gathered(before.attributes@[a], after.attributes@[a], new_to_old));
        }
    }
}

/// Optimizing a triangle list for the GPU doesn't change what it draws: the same triangles, with
/// the same vertex data and the same winding, in another order.
pub proof fn lemma_gpu_optimization_draws_same_triangles(before: Mesh, after: Mesh)
    requires
        before.primitive_topology == PrimitiveTopology::TriangleList,
        gpu_optimization_check(before) is Ok,
        gpu_optimized(before, after),
    ensures
        draws_same_triangles(before, after),
{
    let reordered = choose|reordered: Mesh|
        cache_optimized(before, reordered) && #[trigger] fetch_optimized(reordered, after);
    lemma_fetch_optimized_keeps_vertex_data(reordered, after);
    let old_values = before.indices->0.values();
    let mid_values = reordered.indices->0.values();
    let new_values = after.indices->0.values();
    let order = choose|order: Seq<int>|
        is_triangle_order(order, (old_values.len() / 3) as int) && is_reordered(
            old_values,
            mid_values,
            order,
        );
    assert(old_values.len() % 3 == 0);
    assert forall|i: int, a: int|
        0 <= i < new_values.len() && 0 <= a < before.attributes.len() implies #[trigger] corner_data(
        after,
        i,
        a,
    ) == corner_data(before, 3 * order[i / 3] + i % 3, a) by {
        let k = i / 3;
        assert(0 <= order[k] < old_values.len() / 3);
        assert(mid_values[i] == old_values[3 * order[k] + i % 3]) by {
            if i % 3 == 0 {
                assert(mid_values[3 * k] == old_values[3 * order[k]]);
            } else if i % 3 == 1 {
                assert(mid_values[3 * k + 1] == old_values[3 * order[k] + 1]);
            } else {
                assert(mid_values[3 * k + 2] == old_values[3 * order[k] + 2]);
            }
        }
        assert(restart_value(reordered.indices->0.is_u16(), reordered.primitive_topology) is None);
    }
    assert(is_triangle_order(order, (old_values.len() / 3) as int));
}

/// The simulated FIFO cache counts a vertex as unique the first time it is used: the number of
/// unique vertices is the number of distinct vertices used.
proof fn lemma_fifo_unique(indices: Seq<u32>, n: int, vertex_count: int, cache_size: int)
    requires
        0 <= n <= indices.len(),
        0 <= cache_size,
        0 <= vertex_count,
        all_below(indices, vertex_count),
    ensures
        ({
            let state = fifo_run(indices, n, vertex_count, cache_size);
            let used = first_uses(indices.take(n), None);
            &&& state.0.len() == vertex_count
            &&& state.1 >= cache_size + 1
            &&& forall|v: int| 0 <= v < vertex_count ==> 0 <= #[trigger] state.0[v] < state.1
            &&& forall|v: int|
                0 <= v < vertex_count && v <= u32::MAX ==> (#[trigger] state.0[v] == 0
                    <==> !used.contains(v as u32))
            &&& state.3 == used.len()
        }),
    decreases n,
{
    if n > 0 {
        lemma_fifo_unique(indices, n - 1, vertex_count, cache_size);
        let state = fifo_run(indices, n - 1, vertex_count, cache_size);
        let used = first_uses(indices.take(n - 1), None);
        let x = indices[n - 1];
        assert(indices.take(n).drop_last() =~= indices.take(n - 1));
        assert(indices.take(n).last() == x);
        let later = first_uses(indices.take(n), None);
        let next = fifo_run(indices, n, vertex_count, cache_size);
        assert forall|v: int| 0 <= v < vertex_count && v <= u32::MAX implies (#[trigger] next.0[v]
            == 0 <==> !later.contains(v as u32)) by {
            if v != x {
                assert(v as u32 != x);
                if later.contains(v as u32) && !used.contains(x) {
                    let k = choose|k: int| 0 <= k < later.len() && later[k] == v as u32;
                    assert(k < used.len());
                }
                if used.contains(v as u32) && !used.contains(x) {
                    let k = choose|k: int| 0 <= k < used.len() && used[k] == v as u32;
                    assert(later[k] == v as u32);
                }
            } else {
                if !used.contains(x) {
                    assert(later[later.len() - 1] == x);
                }
            }
        }
    } else {
        assert(indices.take(0) =~= Seq::<u32>::empty());
    }
}

/// The vertices in `first_uses` are the distinct values of the indices.
proof fn lemma_first_uses_set(indices: Seq<u32>)
    ensures
        first_uses(indices, None).to_set() == indices.to_set(),
    decreases indices.len(),
{
    if indices.len() > 0 {
        let rest = indices.drop_last();
        lemma_first_uses_set(rest);
        let x = indices.last();
        assert(indices =~= rest.push(x));
        assert forall|v: u32| #[trigger] first_uses(indices, None).to_set().contains(v)
            <==> indices.to_set().contains(v) by {
            let earlier = first_uses(rest, None);
            assert(earlier.to_set().contains(v) == rest.to_set().contains(v));
            if indices.contains(v) && v != x {
                let k = choose|k: int| 0 <= k < indices.len() && indices[k] == v;
                assert(rest[k] == v);
            }
            if rest.contains(v) {
                let k = choose|k: int| 0 <= k < rest.len() && rest[k] == v;
                assert(indices[k] == v);
            }
            if first_uses(indices, None).contains(v) && !earlier.contains(x) && v != x {
                let k = choose|k: int|
                    0 <= k < first_uses(indices, None).len() && first_uses(indices, None)[k] == v;
                assert(k < earlier.len());
            }
            if earlier.contains(v) && !earlier.contains(x) {
                let k = choose|k: int| 0 <= k < earlier.len() && earlier[k] == v;
                assert(first_uses(indices, None)[k] == v);
            }
            if v == x && !earlier.contains(x) {
                assert(first_uses(indices, None)[earlier.len() as int] == x);
            }
            assert(indices[indices.len() - 1] == x);
        }
        assert(first_uses(indices, None).to_set() =~= indices.to_set());
    } else {
        assert(first_uses(indices, None).to_set() =~= indices.to_set());
    }
}

/// A triangle order lists every triangle.
proof fn lemma_triangle_order_covers(order: Seq<int>, triangle_count: int, t: int)
    requires
        is_triangle_order(order, triangle_count),
        0 <= t < triangle_count,
    ensures
        order.contains(t),
{
    order.unique_seq_to_set();
    lemma_int_range(0, triangle_count);
    assert(order.to_set().subset_of(set_int_range(0, triangle_count)));
    vstd::set_lib::lemma_len_subset(order.to_set(), set_int_range(0, triangle_count));
    lemma_subset_equality(order.to_set(), set_int_range(0, triangle_count));
    assert(set_int_range(0, triangle_count).contains(t));
}

/// Reordering the triangles of a triangle list keeps the set of vertices it uses.
proof fn lemma_reordered_same_vertices(before: Seq<u32>, after: Seq<u32>)
    requires
        before.len() % 3 == 0,
        is_triangle_permutation(before, after),
    ensures
        before.to_set() == after.to_set(),
{
    let order = choose|order: Seq<int>|
        is_triangle_order(order, (before.len() / 3) as int) && is_reordered(before, after, order);
    assert forall|v: u32| #[trigger] before.to_set().contains(v) <==> after.to_set().contains(v) by {
        if before.contains(v) {
            let p = choose|p: int| 0 <= p < before.len() && before[p] == v;
            lemma_triangle_order_covers(order, (before.len() / 3) as int, p / 3);
            let k = choose|k: int| 0 <= k < order.len() && order[k] == p / 3;
            if p % 3 == 0 {
                assert(after[3 * k] == before[3 * order[k]]);
            } else if p % 3 == 1 {
                assert(after[3 * k + 1] == before[3 * order[k] + 1]);
            } else {
                assert(after[3 * k + 2] == before[3 * order[k] + 2]);
            }
        }
        if after.contains(v) {
            let i = choose|i: int| 0 <= i < after.len() && after[i] == v;
            let k = i / 3;
            assert(0 <= order[k] < before.len() / 3);
            if i % 3 == 0 {
                assert(after[3 * k] == before[3 * order[k]]);
            } else if i % 3 == 1 {
                assert(after[3 * k + 1] == before[3 * order[k] + 1]);
            } else {
                assert(after[3 * k + 2] == before[3 * order[k] + 2]);
            }
        }
    }
    assert(before.to_set() =~= after.to_set());
}

/// Reordering the triangles of a mesh doesn't change the number of distinct vertices that the
/// analysis of its vertex cache counts.
pub proof fn lemma_cache_optimization_keeps_unique_vertices(
    before: Mesh,
    after: Mesh,
    cache_size: usize,
)
    requires
        cache_optimization_check(before) is Ok,
        cache_optimized(before, after),
    ensures
        cache_statistics(after, cache_size).unique_vertices == cache_statistics(
            before,
            cache_size,
        ).unique_vertices,
        cache_statistics(after, cache_size).triangle_count == cache_statistics(
            before,
            cache_size,
        ).triangle_count,
{
    let old_values = before.indices->0.values();
    let new_values = after.indices->0.values();
    let vertex_count = before.vertex_count() as int;
    let size = effective_cache_size(cache_size as int, vertex_count);
    lemma_min_len_bound(before.attributes@, before.attributes.len() as int);
    lemma_first_invalid_index(old_values, old_values.len() as int, vertex_count, None);
    assert forall|i: int| 0 <= i < old_values.len() implies #[trigger] old_values[i] < vertex_count by {
        assert(!is_invalid_index(old_values[i], vertex_count, None));
    }
    lemma_reordered_same_vertices(old_values, new_values);
    let order = choose|order: Seq<int>|
        is_triangle_order(order, (old_values.len() / 3) as int) && is_reordered(
            old_values,
            new_values,
            order,
        );
    assert forall|i: int| 0 <= i < new_values.len() implies #[trigger] new_values[i] < vertex_count by {
        assert(new_values.contains(new_values[i]));
        assert(old_values.to_set().contains(new_values[i]));
    }
    lemma_fifo_unique(old_values, old_values.len() as int, vertex_count, size);
    lemma_fifo_unique(new_values, new_values.len() as int, vertex_count, size);
    assert(old_values.take(old_values.len() as int) =~= old_values);
    assert(new_values.take(new_values.len() as int) =~= new_values);
    lemma_first_uses_set(old_values);
    lemma_first_uses_set(new_values);
    lemma_first_uses_bounded(old_values, vertex_count);
    lemma_first_uses_bounded(new_values, vertex_count);
    first_uses(old_values, None).unique_seq_to_set();
    first_uses(new_values, None).unique_seq_to_set();
}

} // verus!
