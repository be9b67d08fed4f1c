use bevy_lite::vertex_cache::optimize_vertex_cache;

/// Whether two triangles share a vertex.
fn share_a_vertex(a: &[u32], b: &[u32]) -> bool {
    a.iter().any(|vertex| b.contains(vertex))
}

#[test]
fn separate_parts_are_walked_one_after_the_other() {
    // Two quads that share no vertex, with their triangles interleaved.
    let mut indices = vec![0, 1, 2, 10, 11, 12, 2, 1, 3, 12, 11, 13];
    optimize_vertex_cache(&mut indices, 14);
    // The walk starts from the first triangle with the best score, finishes its quad, and only
    // then jumps to the other one.
    assert_eq!(indices, vec![0, 1, 2, 2, 1, 3, 10, 11, 12, 12, 11, 13]);
}

#[test]
fn each_triangle_touches_an_earlier_one_in_a_connected_strip() {
    // A strip of 8 triangles, listed in a scrambled order.
    let strip: Vec<[u32; 3]> = (0..8u32)
        .map(|i| if i % 2 == 0 { [i, i + 1, i + 2] } else { [i + 1, i, i + 2] })
        .collect();
    let scrambled = [5usize, 0, 7, 2, 4, 1, 6, 3];
    let mut indices: Vec<u32> = scrambled.iter().flat_map(|&i| strip[i]).collect();
    let before = indices.clone();
    optimize_vertex_cache(&mut indices, 10);

    let triangles: Vec<&[u32]> = indices.chunks(3).collect();
    for k in 1..triangles.len() {
        assert!(
            triangles[..k].iter().any(|earlier| share_a_vertex(earlier, triangles[k])),
            "triangle {k} jumps away: {indices:?}"
        );
    }
    // Same triangles, same winding.
    let mut sorted_before: Vec<&[u32]> = before.chunks(3).collect();
    let mut sorted_after = triangles.clone();
    sorted_before.sort();
    sorted_after.sort();
    assert_eq!(sorted_before, sorted_after);
}

#[test]
fn a_dead_end_continues_with_the_first_triangle_left_in_input_order() {
    // The isolated triangle scores best and comes first. None of its vertices has another
    // triangle, so the walk goes on with the first triangle left in the input, and then with the
    // one that shares two of its vertices.
    let mut indices = vec![0, 1, 2, 3, 4, 5, 2, 1, 6];
    optimize_vertex_cache(&mut indices, 7);
    assert_eq!(indices, vec![3, 4, 5, 0, 1, 2, 2, 1, 6]);
}

#[test]
fn reordering_equal_lists_gives_equal_results() {
    let mut first = vec![0, 1, 2, 10, 11, 12, 2, 1, 3, 12, 11, 13, 3, 1, 4];
    let mut second = first.clone();
    optimize_vertex_cache(&mut first, 14);
    optimize_vertex_cache(&mut second, 14);
    assert_eq!(first, second);
}

#[test]
fn lists_of_at_most_one_triangle_are_left_unchanged() {
    let mut empty: Vec<u32> = Vec::new();
    optimize_vertex_cache(&mut empty, 0);
    assert!(empty.is_empty());
    let mut single = vec![2, 0, 1];
    optimize_vertex_cache(&mut single, 3);
    assert_eq!(single, vec![2, 0, 1]);
}
