use bevy_lite::mesh_topology::{
    collapse_triangles, wedge_counts, weld_positions, PositionAdjacency, PositionKind,
};

/// The corners of a `size` x `size` grid of quads, two triangles per quad, counter-clockwise.
fn grid(size: u32) -> Vec<u32> {
    let row = size + 1;
    let mut corners = Vec::new();
    for y in 0..size {
        for x in 0..size {
            let i = y * row + x;
            corners.extend([i, i + 1, i + row, i + 1, i + row + 1, i + row]);
        }
    }
    corners
}

#[test]
fn grid_positions_are_manifold_inside_and_border_outside() {
    let size = 4;
    let row = size + 1;
    let adjacency = PositionAdjacency::new(grid(size), (row * row) as usize).unwrap();
    let kinds = adjacency.position_kinds(&vec![1; (row * row) as usize], false);
    for y in 0..row {
        for x in 0..row {
            let on_border = x == 0 || y == 0 || x == size || y == size;
            let expected = if on_border { PositionKind::Border } else { PositionKind::Manifold };
            assert_eq!(kinds[(y * row + x) as usize], expected, "position ({x}, {y})");
        }
    }
    // With locked borders, the border positions can't move.
    let locked = adjacency.position_kinds(&vec![1; (row * row) as usize], true);
    assert_eq!(locked[0], PositionKind::Locked);
    assert_eq!(locked[(row + 1) as usize], PositionKind::Manifold);
}

#[test]
fn seams_lock_positions_where_more_than_two_regions_meet() {
    let size = 2;
    let row = size + 1;
    let adjacency = PositionAdjacency::new(grid(size), (row * row) as usize).unwrap();
    let mut wedges = vec![1; (row * row) as usize];
    // The center position is split in two vertices by a seam: it can still move along it.
    wedges[4] = 2;
    assert_eq!(adjacency.position_kinds(&wedges, false)[4], PositionKind::Manifold);
    // Three regions meet there: it is locked.
    wedges[4] = 3;
    assert_eq!(adjacency.position_kinds(&wedges, false)[4], PositionKind::Locked);
}

#[test]
fn edges_and_neighbors() {
    // Two triangles sharing the edge 1-2: 0 1 2 and 2 1 3.
    let adjacency = PositionAdjacency::new(vec![0, 1, 2, 2, 1, 3], 4).unwrap();
    assert!(adjacency.has_edge(1, 2));
    assert!(adjacency.has_edge(2, 1));
    assert!(adjacency.has_edge(0, 1));
    assert!(!adjacency.has_edge(1, 0));
    assert!(!adjacency.has_edge(0, 3));
    assert!(!adjacency.is_shared_edge(1, 2));
    assert_eq!(adjacency.next_position(0, 2), Some(0));
    assert_eq!(adjacency.previous_position(0, 2), Some(1));
    assert_eq!(adjacency.next_position(1, 0), None);
    let mut around = adjacency.triangles_around(1).to_vec();
    around.sort();
    assert_eq!(around, vec![0, 1]);
    assert_eq!(adjacency.triangles_around(3), &[1]);
    // Both ends of the shared edge have one border edge in and out: they can slide along the
    // border. So can the other two corners.
    let kinds = adjacency.position_kinds(&vec![1; 4], false);
    assert_eq!(kinds, vec![PositionKind::Border; 4]);
}

#[test]
fn edges_shared_by_several_triangles_lock_their_ends() {
    // Three triangles on the same directed edge 0 -> 1, like pages of a book.
    let adjacency = PositionAdjacency::new(vec![0, 1, 2, 0, 1, 3, 1, 0, 4], 5).unwrap();
    assert!(adjacency.is_shared_edge(0, 1));
    assert!(!adjacency.is_shared_edge(1, 0));
    let kinds = adjacency.position_kinds(&vec![1; 5], false);
    assert_eq!(kinds[0], PositionKind::Locked);
    assert_eq!(kinds[1], PositionKind::Locked);
    assert_eq!(kinds[2], PositionKind::Border);
}

#[test]
fn closed_surfaces_have_no_border() {
    // A tetrahedron.
    let adjacency = PositionAdjacency::new(vec![0, 2, 1, 0, 1, 3, 0, 3, 2, 1, 2, 3], 4).unwrap();
    let kinds = adjacency.position_kinds(&vec![1; 4], true);
    assert_eq!(kinds, vec![PositionKind::Manifold; 4]);
}

#[test]
fn invalid_triangle_lists_are_refused() {
    assert!(PositionAdjacency::new(vec![0, 1], 2).is_none());
    assert!(PositionAdjacency::new(vec![0, 1, 2], 2).is_none());
    assert!(PositionAdjacency::new(vec![0, 1, 1], 2).is_none());
    assert!(PositionAdjacency::new(vec![], 0).is_some());
}

#[test]
fn collapsing_remaps_vertices_and_drops_degenerate_triangles() {
    // Vertices 0 to 4, where vertices 3 and 4 are at the same position as 2.
    let position_of = vec![0, 1, 2, 2, 2];
    let triangles = vec![0, 1, 2, 0, 1, 3, 2, 3, 4, 1, 0, 4];
    // Nothing remapped: only the triangle 2 3 4, with all its corners at one position, goes.
    let identity: Vec<u32> = (0..5).collect();
    assert_eq!(
        collapse_triangles(&triangles, &identity, &position_of),
        vec![0, 1, 2, 0, 1, 3, 1, 0, 4]
    );
    // Merging vertex 1 into vertex 0 makes every triangle degenerate but the third, which was
    // already.
    let remap = vec![0, 0, 2, 3, 4];
    assert_eq!(collapse_triangles(&triangles, &remap, &position_of), Vec::<u32>::new());
}

#[test]
fn wedges_count_the_vertices_used_at_each_position() {
    let position_of = vec![0, 1, 2, 2, 2];
    // Vertex 4 is not used.
    let triangles = vec![0, 1, 2, 0, 1, 3];
    assert_eq!(wedge_counts(&triangles, &position_of, 3), vec![1, 1, 2]);
}

#[test]
fn collapses_that_break_the_surface_are_detected() {
    // Two triangles sharing the edge 1-2: 0 1 2 and 2 1 3.
    let adjacency = PositionAdjacency::new(vec![0, 1, 2, 2, 1, 3], 4).unwrap();
    // Along the shared edge's side: 0 only shares 2 with 1, on the other side of their triangle.
    assert!(adjacency.keeps_manifold(0, 1));
    // Across the quad: 0 and 3 share 1 and 2, without a triangle between them.
    assert!(!adjacency.keeps_manifold(0, 3));
    assert!(!adjacency.duplicates_triangle(0, 1));

    // Collapsing an edge of a tetrahedron folds a triangle onto another one.
    let tetrahedron =
        PositionAdjacency::new(vec![0, 2, 1, 0, 1, 3, 0, 3, 2, 1, 2, 3], 4).unwrap();
    assert!(tetrahedron.duplicates_triangle(0, 1));
}

#[test]
fn vertices_of_a_collapsed_position_merge_with_their_neighbors() {
    // Two triangles, with a seam along the edge between positions 1 and 2: the vertices 1 and 4
    // are at position 1, and the vertices 2 and 5 at position 2.
    let adjacency = PositionAdjacency::new(vec![0, 1, 2, 2, 1, 3], 4).unwrap();
    let vertices = vec![0, 1, 2, 5, 4, 3];
    let mut mapping = adjacency.wedge_mapping(&vertices, 2, 1).unwrap();
    mapping.sort();
    assert_eq!(mapping, vec![(2, 1), (5, 4)]);
    let mut mapping = adjacency.wedge_mapping(&vertices, 1, 2).unwrap();
    mapping.sort();
    assert_eq!(mapping, vec![(1, 2), (4, 5)]);

    // Vertex 2 shares a triangle with both vertices at position 1: it can't go to either.
    let conflicting = vec![0, 1, 2, 2, 4, 3];
    assert_eq!(adjacency.wedge_mapping(&conflicting, 2, 1), None);
    // Position 0 and position 3 don't share a triangle: vertex 0 has nowhere to go.
    assert_eq!(adjacency.wedge_mapping(&vertices, 0, 3), None);
    // Without a seam, the two vertices at position 2 would go to the same vertex.
    let merged = vec![0, 1, 2, 5, 1, 3];
    assert_eq!(adjacency.wedge_mapping(&merged, 2, 1), None);
}

#[test]
fn vertices_with_the_same_key_share_a_position() {
    let keys = vec![(1, 2, 3), (4, 5, 6), (1, 2, 3), (7, 8, 9), (4, 5, 6), (1, 2, 4)];
    let (position_of, first_vertices) = weld_positions(&keys);
    assert_eq!(position_of, vec![0, 1, 0, 2, 1, 3]);
    assert_eq!(first_vertices, vec![0, 1, 3, 5]);
    let (position_of, first_vertices) = weld_positions(&vec![]);
    assert!(position_of.is_empty() && first_vertices.is_empty());
}
