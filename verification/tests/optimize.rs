use bevy_lite::mesh::{Indices, Mesh, MeshAttribute, PrimitiveTopology};
use bevy_lite::optimize::{MeshOptimizationError, SimplificationRejection, VertexCacheStatistics};

const ATTRIBUTE_POSITION: u64 = 0;
const ATTRIBUTE_UV_0: u64 = 1;

fn float_attribute<const N: usize>(id: u64, values: &[[f32; N]]) -> MeshAttribute {
    MeshAttribute {
        id,
        item_size: 4 * N,
        values: values
            .iter()
            .map(|value| value.iter().flat_map(|x| x.to_le_bytes()).collect())
            .collect(),
    }
}

fn positions(mesh: &Mesh) -> Vec<[f32; 3]> {
    let attribute = mesh
        .attributes
        .iter()
        .find(|attribute| attribute.id == ATTRIBUTE_POSITION)
        .expect("missing positions");
    attribute
        .values
        .iter()
        .map(|bytes| {
            let x = |i: usize| f32::from_le_bytes(bytes[4 * i..4 * i + 4].try_into().unwrap());
            [x(0), x(1), x(2)]
        })
        .collect()
}

fn index_values(mesh: &Mesh) -> Vec<usize> {
    match mesh.indices.as_ref().unwrap() {
        Indices::U16(indices) => indices.iter().map(|&i| i as usize).collect(),
        Indices::U32(indices) => indices.iter().map(|&i| i as usize).collect(),
    }
}

fn vertex_count(mesh: &Mesh) -> usize {
    mesh.try_count_vertices().unwrap()
}

/// A `size` x `size` grid of quads, with its triangles in a scrambled order.
fn scrambled_grid(size: u32) -> Mesh {
    let row = size + 1;
    let positions: Vec<[f32; 3]> = (0..row * row)
        .map(|i| [(i % row) as f32, (i / row) as f32, 0.0])
        .collect();
    let uvs: Vec<[f32; 2]> = positions.iter().map(|p| [p[0] * 0.5, p[1]]).collect();

    let mut triangles = Vec::new();
    for y in 0..size {
        for x in 0..size {
            let i = y * row + x;
            triangles.push([i, i + 1, i + row]);
            triangles.push([i + 1, i + row + 1, i + row]);
        }
    }
    // Deterministic Fisher-Yates shuffle with a simple LCG.
    let mut state = 0x2545_f491_u32;
    for i in (1..triangles.len()).rev() {
        state = state.wrapping_mul(1_664_525).wrapping_add(1_013_904_223);
        triangles.swap(i, state as usize % (i + 1));
    }

    Mesh::new(PrimitiveTopology::TriangleList)
        .with_inserted_attribute(float_attribute(ATTRIBUTE_POSITION, &positions))
        .with_inserted_attribute(float_attribute(ATTRIBUTE_UV_0, &uvs))
        .with_inserted_indices(Indices::U32(triangles.into_iter().flatten().collect()))
}

/// The raw bytes of all the vertex attributes of each corner of each primitive, in a
/// canonical order. Two meshes with the same soup render the same primitives.
fn triangle_soup(mesh: &Mesh) -> Vec<[Vec<u8>; 3]> {
    let vertex_bytes = |index: usize| -> Vec<u8> {
        mesh.attributes
            .iter()
            .flat_map(|attribute| attribute.values[index].clone())
            .collect()
    };
    let indices = index_values(mesh);
    let mut soup: Vec<[Vec<u8>; 3]> = indices
        .chunks(3)
        .map(|triangle| [vertex_bytes(triangle[0]), vertex_bytes(triangle[1]), vertex_bytes(triangle[2])])
        .collect();
    soup.sort();
    soup
}

fn acmr(statistics: &VertexCacheStatistics) -> f32 {
    if statistics.triangle_count == 0 {
        0.0
    } else {
        statistics.vertices_transformed as f32 / statistics.triangle_count as f32
    }
}

fn atvr(statistics: &VertexCacheStatistics) -> f32 {
    if statistics.unique_vertices == 0 {
        0.0
    } else {
        statistics.vertices_transformed as f32 / statistics.unique_vertices as f32
    }
}

fn overfetch(statistics: &bevy_lite::optimize::VertexFetchStatistics) -> f32 {
    if statistics.referenced_bytes == 0 {
        0.0
    } else {
        statistics.bytes_fetched as f32 / statistics.referenced_bytes as f32
    }
}

#[test]
fn optimize_vertex_cache_preserves_triangles_and_winding() {
    let mut mesh = scrambled_grid(16);
    let mut triangles_before: Vec<Vec<usize>> =
        index_values(&mesh).chunks(3).map(|c| c.to_vec()).collect();

    mesh.optimize_vertex_cache().unwrap();

    let mut triangles_after: Vec<Vec<usize>> =
        index_values(&mesh).chunks(3).map(|c| c.to_vec()).collect();
    // Triangles are emitted with the exact same corner order, so sorting both lists must
    // give the same result.
    triangles_before.sort_unstable();
    triangles_after.sort_unstable();
    assert_eq!(triangles_before, triangles_after);
}

#[test]
fn optimize_vertex_cache_reduces_transformed_vertices() {
    let mut mesh = scrambled_grid(32);
    let before = mesh.analyze_vertex_cache(16).unwrap();
    mesh.optimize_vertex_cache().unwrap();
    let after = mesh.analyze_vertex_cache(16).unwrap();

    // A scrambled grid has almost no reuse.
    assert!(acmr(&before) > 2.0, "{before:?}");
    // A regular grid can't go below 0.5 with a finite cache, and good orderings are
    // typically below 0.75 with 16 cached vertices.
    assert!(acmr(&after) < 0.75, "{after:?}");
    assert_eq!(before.unique_vertices, after.unique_vertices);
}

#[test]
fn optimize_vertex_fetch_orders_vertices_by_first_use() {
    let mut mesh = scrambled_grid(8);
    mesh.optimize_vertex_cache().unwrap();
    let soup_before = triangle_soup(&mesh);

    mesh.optimize_vertex_fetch().unwrap();

    let mut next_new_vertex = 0;
    for index in index_values(&mesh) {
        assert!(
            index <= next_new_vertex,
            "vertex {index} used before {next_new_vertex}"
        );
        if index == next_new_vertex {
            next_new_vertex += 1;
        }
    }
    assert_eq!(next_new_vertex, vertex_count(&mesh));
    assert_eq!(soup_before, triangle_soup(&mesh));
}

#[test]
fn optimize_vertex_fetch_reduces_overfetch() {
    let mut mesh = scrambled_grid(64);
    // Scramble the vertices as well, by making the vertex buffer order follow the scrambled
    // triangle order in reverse.
    mesh.optimize_vertex_fetch().unwrap();
    let vertex_count = vertex_count(&mesh);
    let reversed: Vec<u32> = (0..vertex_count as u32).rev().collect();
    mesh.try_gather_vertices(&reversed).unwrap();
    if let Some(Indices::U32(indices)) = mesh.indices.as_mut() {
        for index in indices {
            *index = (vertex_count - 1) as u32 - *index;
        }
    }
    mesh.optimize_vertex_cache().unwrap();
    let soup_before = triangle_soup(&mesh);
    let before = mesh.analyze_vertex_fetch().unwrap();

    mesh.optimize_vertex_fetch().unwrap();

    let after = mesh.analyze_vertex_fetch().unwrap();
    assert!(
        after.bytes_fetched < before.bytes_fetched,
        "{before:?} {after:?}"
    );
    assert!(overfetch(&after) < 1.5, "{after:?}");
    assert_eq!(soup_before, triangle_soup(&mesh));
}

#[test]
fn optimize_vertex_fetch_removes_unused_vertices() {
    let mut mesh = Mesh::new(PrimitiveTopology::TriangleList)
        .with_inserted_attribute(float_attribute(
            ATTRIBUTE_POSITION,
            &[
                [0.0, 0.0, 0.0],
                [9.0, 9.0, 9.0],
                [1.0, 0.0, 0.0],
                [0.0, 1.0, 0.0],
            ],
        ))
        .with_inserted_indices(Indices::U16(vec![3, 0, 2]));

    mesh.optimize_vertex_fetch().unwrap();

    assert_eq!(mesh.indices, Some(Indices::U16(vec![0, 1, 2])));
    assert_eq!(
        positions(&mesh),
        vec![[0.0, 1.0, 0.0], [0.0, 0.0, 0.0], [1.0, 0.0, 0.0]]
    );
}

#[test]
fn optimize_for_gpu_keeps_u16_indices() {
    let mut mesh = scrambled_grid(16);
    // Compress the indices to 16 bits.
    let narrow: Vec<u16> = index_values(&mesh).iter().map(|&i| i as u16).collect();
    mesh = mesh.with_inserted_indices(Indices::U16(narrow));
    assert!(matches!(mesh.indices, Some(Indices::U16(_))));
    mesh.optimize_for_gpu().unwrap();
    assert!(matches!(mesh.indices, Some(Indices::U16(_))));
}

#[test]
fn optimize_handles_degenerate_triangles() {
    let mut mesh = Mesh::new(PrimitiveTopology::TriangleList)
        .with_inserted_attribute(float_attribute(
            ATTRIBUTE_POSITION,
            &[[0.0, 0.0, 0.0], [1.0, 0.0, 0.0], [0.0, 1.0, 0.0]],
        ))
        .with_inserted_indices(Indices::U32(vec![0, 0, 0, 0, 1, 2, 1, 1, 2, 2, 2, 2]));
    let soup_before = triangle_soup(&mesh);
    mesh.optimize_for_gpu().unwrap();
    assert_eq!(soup_before, triangle_soup(&mesh));
}

#[test]
fn optimize_vertex_fetch_preserves_strip_restarts() {
    let mut mesh = Mesh::new(PrimitiveTopology::TriangleStrip)
        .with_inserted_attribute(float_attribute(
            ATTRIBUTE_POSITION,
            &[
                [0.0, 0.0, 0.0],
                [1.0, 0.0, 0.0],
                [2.0, 0.0, 0.0],
                [3.0, 0.0, 0.0],
                [4.0, 0.0, 0.0],
            ],
        ))
        .with_inserted_indices(Indices::U16(vec![4, 3, 2, u16::MAX, 1, 0, 4]));

    // Vertex cache optimization only supports triangle lists.
    assert!(matches!(
        mesh.optimize_vertex_cache(),
        Err(MeshOptimizationError::UnsupportedTopology(
            PrimitiveTopology::TriangleStrip
        ))
    ));
    mesh.optimize_for_gpu().unwrap();

    assert_eq!(
        mesh.indices,
        Some(Indices::U16(vec![0, 1, 2, u16::MAX, 3, 4, 0]))
    );
    assert_eq!(
        positions(&mesh),
        vec![
            [4.0, 0.0, 0.0],
            [3.0, 0.0, 0.0],
            [2.0, 0.0, 0.0],
            [1.0, 0.0, 0.0],
            [0.0, 0.0, 0.0]
        ]
    );
}

#[test]
fn optimize_errors() {
    let triangle = || {
        Mesh::new(PrimitiveTopology::TriangleList).with_inserted_attribute(float_attribute(
            ATTRIBUTE_POSITION,
            &[[0.0, 0.0, 0.0], [1.0, 0.0, 0.0], [0.0, 1.0, 0.0]],
        ))
    };

    assert!(matches!(
        triangle().optimize_for_gpu(),
        Err(MeshOptimizationError::MissingIndices)
    ));
    assert!(matches!(
        triangle()
            .with_inserted_indices(Indices::U32(vec![0, 1]))
            .optimize_for_gpu(),
        Err(MeshOptimizationError::AbruptIndicesEnd(2))
    ));
    assert!(matches!(
        triangle()
            .with_inserted_indices(Indices::U32(vec![0, 1, 3]))
            .optimize_for_gpu(),
        Err(MeshOptimizationError::IndexOutOfBounds {
            index: 3,
            vertex_count: 3
        })
    ));
    assert!(matches!(
        triangle()
            .with_inserted_indices(Indices::U32(vec![0, 1, 2]))
            .analyze_vertex_cache(16),
        Ok(VertexCacheStatistics {
            vertices_transformed: 3,
            unique_vertices: 3,
            ..
        })
    ));
}

#[test]
fn optimize_extracted_mesh_errors() {
    let mut mesh = scrambled_grid(2);
    mesh.take_gpu_data().unwrap();
    assert!(matches!(
        mesh.optimize_for_gpu(),
        Err(MeshOptimizationError::MeshAccessError(_))
    ));
}

#[test]
fn analyze_vertex_cache_without_reuse() {
    let mesh = Mesh::new(PrimitiveTopology::TriangleList)
        .with_inserted_attribute(float_attribute(ATTRIBUTE_POSITION, &[[0.0f32; 3]; 30]))
        .with_inserted_indices(Indices::U32((0..30).collect()));
    let statistics = mesh.analyze_vertex_cache(16).unwrap();
    assert_eq!(statistics.vertices_transformed, 30);
    assert_eq!(acmr(&statistics), 3.0);
    assert_eq!(atvr(&statistics), 1.0);
}

#[test]
fn optimizing_equal_meshes_gives_equal_meshes() {
    let mut first = scrambled_grid(6);
    let mut second = first.clone();
    assert!(first.optimize_for_gpu().is_ok());
    assert!(second.optimize_vertex_cache().is_ok());
    assert!(second.optimize_vertex_fetch().is_ok());
    assert_eq!(first, second);
    let third = scrambled_grid(6).optimized_for_gpu().unwrap();
    assert_eq!(first, third);
}

#[test]
fn simplification_checks_come_in_order() {
    let strip = Mesh::new(PrimitiveTopology::TriangleStrip);
    assert_eq!(
        strip.check_simplification(false, false),
        Err(SimplificationRejection::Mesh(MeshOptimizationError::UnsupportedTopology(
            PrimitiveTopology::TriangleStrip
        )))
    );

    let mut extracted = scrambled_grid(2);
    extracted.take_gpu_data().unwrap();
    assert_eq!(extracted.check_simplification(false, false), Err(SimplificationRejection::InvalidSettings));
    assert!(matches!(
        extracted.check_simplification(true, false),
        Err(SimplificationRejection::Mesh(MeshOptimizationError::MeshAccessError(_)))
    ));

    let empty = Mesh::new(PrimitiveTopology::TriangleList);
    assert_eq!(
        empty.check_simplification(true, false),
        Err(SimplificationRejection::Mesh(MeshOptimizationError::UnsupportedPositions))
    );
    assert_eq!(
        empty.check_simplification(true, true),
        Err(SimplificationRejection::Mesh(MeshOptimizationError::MissingIndices))
    );

    let out_of_bounds = Mesh::new(PrimitiveTopology::TriangleList)
        .with_inserted_attribute(float_attribute(ATTRIBUTE_POSITION, &[[0.0f32; 3]; 3]))
        .with_inserted_indices(Indices::U32(vec![0, 1, 5]));
    assert_eq!(
        out_of_bounds.check_simplification(true, true),
        Err(SimplificationRejection::Mesh(MeshOptimizationError::IndexOutOfBounds {
            index: 5,
            vertex_count: 3
        }))
    );

    assert_eq!(scrambled_grid(2).check_simplification(true, true), Ok(()));
}

/// A UV sphere of radius 1 with `sectors` sectors and `stacks` stacks, with positions, normals
/// and UVs, and its triangles listed stack by stack.
fn uv_sphere(sectors: u32, stacks: u32) -> Mesh {
    let mut positions = Vec::new();
    let mut normals = Vec::new();
    let mut uvs = Vec::new();
    for i in 0..=stacks {
        let stack_angle = std::f32::consts::FRAC_PI_2 - i as f32 * std::f32::consts::PI / stacks as f32;
        let (xy, z) = (stack_angle.cos(), stack_angle.sin());
        for j in 0..=sectors {
            let sector_angle = j as f32 * std::f32::consts::TAU / sectors as f32;
            let point = [xy * sector_angle.cos(), xy * sector_angle.sin(), z];
            positions.push(point);
            normals.push(point);
            uvs.push([j as f32 / sectors as f32, i as f32 / stacks as f32]);
        }
    }
    let mut indices = Vec::new();
    for i in 0..stacks {
        let mut k1 = i * (sectors + 1);
        let mut k2 = k1 + sectors + 1;
        for _ in 0..sectors {
            if i != 0 {
                indices.extend([k1, k2, k1 + 1]);
            }
            if i != stacks - 1 {
                indices.extend([k1 + 1, k2, k2 + 1]);
            }
            k1 += 1;
            k2 += 1;
        }
    }
    Mesh::new(PrimitiveTopology::TriangleList)
        .with_inserted_attribute(float_attribute(ATTRIBUTE_POSITION, &positions))
        .with_inserted_attribute(float_attribute(2, &normals))
        .with_inserted_attribute(float_attribute(ATTRIBUTE_UV_0, &uvs))
        .with_inserted_indices(Indices::U32(indices))
}

/// A torus with a major radius of 1 and a minor radius of 0.5, with 32 segments around its
/// axis and 24 around its tube, and its quads listed ring by ring.
fn torus() -> Mesh {
    let (major, minor) = (32u32, 24u32);
    let mut positions = Vec::new();
    let mut uvs = Vec::new();
    for segment in 0..=major {
        let theta = segment as f32 * std::f32::consts::TAU / major as f32;
        for side in 0..=minor {
            let phi = side as f32 * std::f32::consts::TAU / minor as f32;
            let radius = 1.0 + 0.5 * phi.cos();
            positions.push([radius * theta.cos(), 0.5 * phi.sin(), radius * theta.sin()]);
            uvs.push([segment as f32 / major as f32, side as f32 / minor as f32]);
        }
    }
    let row = minor + 1;
    let mut indices = Vec::new();
    for segment in 0..major {
        for side in 0..minor {
            let lt = side + segment * row;
            let rt = side + (segment + 1) * row;
            let lb = side + 1 + segment * row;
            let rb = side + 1 + (segment + 1) * row;
            indices.extend([lt, rt, lb, rt, rb, lb]);
        }
    }
    Mesh::new(PrimitiveTopology::TriangleList)
        .with_inserted_attribute(float_attribute(ATTRIBUTE_POSITION, &positions))
        .with_inserted_attribute(float_attribute(ATTRIBUTE_UV_0, &uvs))
        .with_inserted_indices(Indices::U32(indices))
}

#[test]
fn optimize_for_gpu_on_primitives() {
    let meshes = [uv_sphere(32, 18), uv_sphere(8, 4), torus()];
    for mut mesh in meshes {
        let soup_before = triangle_soup(&mesh);
        let before = mesh.analyze_vertex_cache(32).unwrap();
        let fetch_before = mesh.analyze_vertex_fetch().unwrap();

        mesh.optimize_for_gpu().unwrap();

        let after = mesh.analyze_vertex_cache(32).unwrap();
        let fetch_after = mesh.analyze_vertex_fetch().unwrap();
        assert!(
            after.vertices_transformed <= before.vertices_transformed,
            "{before:?} {after:?}"
        );
        assert!(atvr(&after) < 1.5, "{after:?}");
        // Reordering triangles for the vertex cache can slightly degrade the vertex fetch
        // locality of meshes that were generated in a perfectly linear order.
        assert!(
            overfetch(&fetch_after) < overfetch(&fetch_before) * 1.25,
            "{fetch_before:?} {fetch_after:?}"
        );
        assert_eq!(soup_before, triangle_soup(&mesh));
    }
}

/// The bytes of a morph target value whose position displacement is `(x, y, 0)`, with no normal
/// or tangent displacement.
fn morph(x: f32, y: f32) -> Vec<u8> {
    [x, y, 0.0, 0.0, 0.0, 0.0, 0.0, 0.0, 0.0]
        .iter()
        .flat_map(|value| value.to_le_bytes())
        .collect()
}

#[test]
fn optimize_vertex_fetch_remaps_morph_targets() {
    let mut mesh = Mesh::new(PrimitiveTopology::TriangleList)
        .with_inserted_attribute(float_attribute(
            ATTRIBUTE_POSITION,
            &[[0.0, 0.0, 0.0], [1.0, 0.0, 0.0], [2.0, 0.0, 0.0]],
        ))
        .with_inserted_indices(Indices::U32(vec![2, 0, 1]));
    mesh.set_morph_targets(vec![
        morph(0.0, 0.0),
        morph(0.0, 1.0),
        morph(0.0, 2.0),
        morph(1.0, 0.0),
        morph(1.0, 1.0),
        morph(1.0, 2.0),
    ]);

    mesh.optimize_vertex_fetch().unwrap();

    assert_eq!(
        positions(&mesh),
        vec![[2.0, 0.0, 0.0], [0.0, 0.0, 0.0], [1.0, 0.0, 0.0]]
    );
    assert_eq!(
        mesh.morph_targets().unwrap(),
        &vec![
            morph(0.0, 2.0),
            morph(0.0, 0.0),
            morph(0.0, 1.0),
            morph(1.0, 2.0),
            morph(1.0, 0.0),
            morph(1.0, 1.0),
        ]
    );
}

#[test]
fn optimize_vertex_cache_keeps_morph_targets() {
    let mut mesh = scrambled_grid(2);
    let targets: Vec<Vec<u8>> = (0..18).map(|i| morph(i as f32, 0.0)).collect();
    mesh.set_morph_targets(targets.clone());
    mesh.optimize_vertex_cache().unwrap();
    assert_eq!(mesh.morph_targets(), Some(&targets));
}

#[test]
fn optimize_vertex_fetch_twice_changes_nothing() {
    let mut mesh = scrambled_grid(4);
    mesh.set_morph_targets((0..25).map(|i| morph(i as f32, 1.0)).collect());
    mesh.optimize_vertex_fetch().unwrap();
    let once = mesh.clone();
    mesh.optimize_vertex_fetch().unwrap();
    assert_eq!(mesh, once);
}

#[test]
fn optimize_vertex_fetch_numbers_vertices_by_first_use() {
    let mut mesh = scrambled_grid(3);
    mesh.optimize_vertex_fetch().unwrap();
    let mut next = 0;
    for index in index_values(&mesh) {
        assert!(index <= next);
        if index == next {
            next += 1;
        }
    }
    assert_eq!(next, vertex_count(&mesh));
}
