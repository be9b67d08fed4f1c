use bevy_lite::mesh::{Indices, PrimitiveTopology};
use bevy_lite::optimize::{
    analyze_vertex_cache, analyze_vertex_fetch, remap_vertices_by_first_use, restart_index,
    validate_indices, MeshOptimizationError,
};
use bevy_lite::vertex_cache::optimize_vertex_cache;

#[test]
fn restart_index_only_for_strips() {
    let narrow = Indices::U16(vec![0]);
    let wide = Indices::U32(vec![0]);
    assert_eq!(restart_index(&narrow, PrimitiveTopology::TriangleList), None);
    assert_eq!(restart_index(&narrow, PrimitiveTopology::LineStrip), Some(65535));
    assert_eq!(restart_index(&wide, PrimitiveTopology::TriangleStrip), Some(u32::MAX));
    assert_eq!(restart_index(&wide, PrimitiveTopology::PointList), None);
}

#[test]
fn validation_reports_the_first_invalid_index() {
    let indices = Indices::U32(vec![0, 5, 1, 7, 2, 1]);
    assert_eq!(
        validate_indices(&indices, 3, PrimitiveTopology::TriangleList),
        Err(MeshOptimizationError::IndexOutOfBounds { index: 5, vertex_count: 3 })
    );
    assert_eq!(validate_indices(&indices, 8, PrimitiveTopology::TriangleList), Ok(()));
    assert_eq!(
        validate_indices(&Indices::U32(vec![0, 1, 2, 0]), 3, PrimitiveTopology::TriangleList),
        Err(MeshOptimizationError::AbruptIndicesEnd(4))
    );
    // Four indices are fine for a strip, and so are restarts.
    assert_eq!(
        validate_indices(&Indices::U16(vec![0, 1, 65535, 2]), 3, PrimitiveTopology::TriangleStrip),
        Ok(())
    );
    assert_eq!(
        validate_indices(&Indices::U16(vec![0, 1, 65535, 2]), 3, PrimitiveTopology::LineList),
        Err(MeshOptimizationError::IndexOutOfBounds { index: 65535, vertex_count: 3 })
    );
}

#[test]
fn remapping_numbers_vertices_by_first_use() {
    let mut indices = vec![7, 3, 7, u32::MAX, 0, 3];
    let new_to_old = remap_vertices_by_first_use(&mut indices, 8, Some(u32::MAX));
    assert_eq!(new_to_old, vec![7, 3, 0]);
    assert_eq!(indices, vec![0, 1, 0, u32::MAX, 2, 1]);
}

#[test]
fn triangle_reordering_keeps_small_lists() {
    let mut indices = vec![2, 1, 0];
    optimize_vertex_cache(&mut indices, 3);
    assert_eq!(indices, vec![2, 1, 0]);
    let mut empty: Vec<u32> = vec![];
    optimize_vertex_cache(&mut empty, 0);
    assert!(empty.is_empty());
}

#[test]
fn triangle_reordering_is_a_permutation() {
    let mut indices = vec![0, 1, 2, 5, 6, 7, 2, 1, 3, 4, 5, 7, 1, 3, 4];
    let mut before: Vec<[u32; 3]> = indices.chunks(3).map(|t| [t[0], t[1], t[2]]).collect();
    optimize_vertex_cache(&mut indices, 8);
    let mut after: Vec<[u32; 3]> = indices.chunks(3).map(|t| [t[0], t[1], t[2]]).collect();
    before.sort();
    after.sort();
    assert_eq!(before, after);
}

#[test]
fn fifo_cache_counts_misses() {
    // With a cache of 2 vertices: 0 1 2 miss, 0 was evicted by 2, 2 hits.
    let statistics = analyze_vertex_cache(&vec![0, 1, 2, 0, 2, 1], 2, 3, 2);
    assert_eq!(statistics.vertices_transformed, 5);
    assert_eq!(statistics.unique_vertices, 3);
    assert_eq!(statistics.triangle_count, 2);
    // A cache larger than the mesh holds every vertex.
    let statistics = analyze_vertex_cache(&vec![0, 1, 2, 0, 2, 1], 2, 3, 16);
    assert_eq!(statistics.vertices_transformed, 3);
}

#[test]
fn fetch_counts_cache_lines() {
    // 32-byte vertices: two vertices per 64-byte line.
    let statistics = analyze_vertex_fetch(&vec![0, 1, 2, 3, 0], 4, 32);
    assert_eq!(statistics.bytes_fetched, 128);
    assert_eq!(statistics.referenced_bytes, 128);
    // 48-byte vertices straddle lines: vertex 1 spans lines 0 and 1.
    let statistics = analyze_vertex_fetch(&vec![1], 4, 48);
    assert_eq!(statistics.bytes_fetched, 128);
    assert_eq!(statistics.referenced_bytes, 48);
    // Lines 256 apart share a slot of the direct-mapped cache.
    let statistics = analyze_vertex_fetch(&vec![0, 256, 0], 257, 64);
    assert_eq!(statistics.bytes_fetched, 192);
}
