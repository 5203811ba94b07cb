use proof_engine::spatial::{Remesher, VisualizationHelper};
use proof_engine::mesh::{AdvancedSculpt, ParticleMesh};
use proof_engine::model_codec::{CompactModel, CompactParticle, ModelSerializer};
use proof_engine::nav::flat_grid_triangles;

fn particle(ch: char, group: u32, layer: u8) -> CompactParticle {
    CompactParticle {
        position: (1.5f32.to_bits(), (-2.0f32).to_bits(), 0.25f32.to_bits()),
        character: ch,
        color: (1.0f32.to_bits(), 0.5f32.to_bits(), 0.0f32.to_bits(), 1.0f32.to_bits()),
        emission: 0.75f32.to_bits(),
        normal: (0.0f32.to_bits(), 1.0f32.to_bits(), 0.0f32.to_bits()),
        group_id: group,
        layer_id: layer,
    }
}

#[test]
fn compact_round_trip() {
    let model = CompactModel {
        id: 0x0102_0304_0506_0708,
        name: "crâne".to_string(),
        particles: vec![particle('#', 3, 1), particle('é', 255, 0)],
    };
    let bytes = ModelSerializer::serialize_compact(&model);
    assert_eq!(&bytes[0..4], b"PMDL");
    assert_eq!(bytes.len(), 4 + 8 + 4 + "crâne".len() + 4 + 2 * 50);
    let back = ModelSerializer::deserialize_compact(&bytes).unwrap();
    assert_eq!(back.id, model.id);
    assert_eq!(back.name, "crâne");
    assert_eq!(back.particles, model.particles);
    assert_eq!(f32::from_bits(back.particles[0].position.1), -2.0);
}

#[test]
fn compact_layout_of_a_particle() {
    let model = CompactModel { id: 7, name: String::new(), particles: vec![particle('A', 2, 9)] };
    let bytes = ModelSerializer::serialize_compact(&model);
    assert_eq!(&bytes[4..12], &7u64.to_le_bytes());
    assert_eq!(&bytes[12..16], &0u32.to_le_bytes());
    assert_eq!(&bytes[16..20], &1u32.to_le_bytes());
    let p = &bytes[20..70];
    assert_eq!(&p[0..4], &1.5f32.to_le_bytes());
    assert_eq!(&p[12..16], &('A' as u32).to_le_bytes());
    assert_eq!(&p[32..36], &0.75f32.to_le_bytes());
    assert_eq!(p[48], 2);
    assert_eq!(p[49], 9);
}

#[test]
fn compact_group_id_is_stored_as_a_byte() {
    let model = CompactModel { id: 1, name: "g".to_string(), particles: vec![particle('x', 300, 0)] };
    let bytes = ModelSerializer::serialize_compact(&model);
    let back = ModelSerializer::deserialize_compact(&bytes).unwrap();
    assert_eq!(back.particles[0].group_id, 300 % 256);
}

#[test]
fn compact_rejects_bad_input() {
    assert!(ModelSerializer::deserialize_compact(&[]).is_none());
    assert!(ModelSerializer::deserialize_compact(b"PMDL").is_none());
    let mut bad_magic = b"XMDL".to_vec();
    bad_magic.extend_from_slice(&[0u8; 16]);
    assert!(ModelSerializer::deserialize_compact(&bad_magic).is_none());
    // name longer than the data
    let mut long_name = b"PMDL".to_vec();
    long_name.extend_from_slice(&[0u8; 8]);
    long_name.extend_from_slice(&100u32.to_le_bytes());
    long_name.extend_from_slice(&[0u8; 4]);
    assert!(ModelSerializer::deserialize_compact(&long_name).is_none());
    // invalid UTF-8 in the name
    let mut bad_name = b"PMDL".to_vec();
    bad_name.extend_from_slice(&[0u8; 8]);
    bad_name.extend_from_slice(&2u32.to_le_bytes());
    bad_name.extend_from_slice(&[0xC3, 0x28]);
    bad_name.extend_from_slice(&0u32.to_le_bytes());
    assert!(ModelSerializer::deserialize_compact(&bad_name).is_none());
    // more particles announced than present
    let mut short = b"PMDL".to_vec();
    short.extend_from_slice(&[0u8; 8]);
    short.extend_from_slice(&0u32.to_le_bytes());
    short.extend_from_slice(&2u32.to_le_bytes());
    short.extend_from_slice(&[0u8; 60]);
    assert!(ModelSerializer::deserialize_compact(&short).is_none());
}

#[test]
fn compact_invalid_char_code_reads_as_dot() {
    let model = CompactModel { id: 3, name: "c".to_string(), particles: vec![particle('q', 0, 0)] };
    let mut bytes = ModelSerializer::serialize_compact(&model);
    let at = 4 + 8 + 4 + 1 + 4 + 12;
    bytes[at..at + 4].copy_from_slice(&0xD800u32.to_le_bytes());
    let back = ModelSerializer::deserialize_compact(&bytes).unwrap();
    assert_eq!(back.particles[0].character, '.');
    // trailing bytes are ignored
    bytes.push(42);
    assert!(ModelSerializer::deserialize_compact(&bytes).is_some());
}

fn near_matrix(n: usize, pairs: &[(usize, usize)]) -> Vec<bool> {
    let mut m = vec![false; n * n];
    for &(a, b) in pairs {
        m[a * n + b] = true;
        m[b * n + a] = true;
    }
    m
}

#[test]
fn mesh_from_proximity() {
    // a square 0-1-2-3 with diagonal 0-2: two triangles
    let near = near_matrix(4, &[(0, 1), (1, 2), (2, 3), (3, 0), (0, 2)]);
    let mesh = ParticleMesh::build_from_proximity(4, &near);
    assert_eq!(mesh.vertices, vec![0, 1, 2, 3]);
    assert_eq!(mesh.edges, vec![(0, 1), (0, 2), (0, 3), (1, 2), (2, 3)]);
    assert_eq!(mesh.faces, vec![[0, 1, 2], [0, 2, 3]]);
    assert_eq!(mesh.vert_to_edges[&0], vec![0, 1, 2]);
    assert_eq!(mesh.vert_to_edges[&2], vec![1, 3, 4]);
    assert_eq!(mesh.vert_to_faces[&0], vec![0, 1]);
    assert_eq!(mesh.vert_to_faces[&1], vec![0]);
    // every vertex touches an edge lying on a single face
    assert_eq!(mesh.boundary_vertices(), vec![0, 1, 2, 3]);
}

#[test]
fn mesh_boundary_skips_interior_and_isolated_vertices() {
    // a fan of four triangles around vertex 0; vertex 5 is isolated
    let near = near_matrix(
        6,
        &[(0, 1), (0, 2), (0, 3), (0, 4), (1, 2), (2, 3), (3, 4), (4, 1)],
    );
    let mesh = ParticleMesh::build_from_proximity(6, &near);
    assert_eq!(mesh.faces.len(), 4);
    assert!(!mesh.vert_to_edges.contains_key(&5));
    assert_eq!(mesh.boundary_vertices(), vec![1, 2, 3, 4]);
    let empty = ParticleMesh::new();
    assert!(empty.boundary_vertices().is_empty());
}

#[test]
fn test_flat_navmesh() {
    let tris = flat_grid_triangles(5);
    assert!(!tris.is_empty());
    assert_eq!(tris.len(), 50);
    assert_eq!(tris[0].vertices, [0, 1, 6]);
    assert_eq!(tris[1].vertices, [1, 7, 6]);
    assert_eq!(tris[48].vertices, [28, 29, 34]);
    assert_eq!(tris[49].vertices, [29, 35, 34]);
    assert!(flat_grid_triangles(0).is_empty());
}

#[test]
fn connected_components_breadth_first() {
    let mut near = near_matrix(6, &[(0, 3), (3, 1), (4, 5), (1, 0)]);
    for i in 0..6 {
        near[i * 6 + i] = true;
    }
    let comps = AdvancedSculpt::find_connected_components(6, &near);
    assert_eq!(comps, vec![vec![0, 1, 3], vec![2], vec![4, 5]]);
    let chain = near_matrix(4, &[(0, 3), (3, 2), (2, 1)]);
    assert_eq!(AdvancedSculpt::find_connected_components(4, &chain), vec![vec![0, 3, 2, 1]]);
    assert!(AdvancedSculpt::find_connected_components(0, &[]).is_empty());
}

#[test]
fn components_come_in_breadth_first_order() {
    // 0 reaches 4 and 2; 4 reaches 1; 2 reaches 3
    let near = near_matrix(5, &[(0, 4), (0, 2), (4, 1), (2, 3)]);
    assert_eq!(AdvancedSculpt::find_connected_components(5, &near), vec![vec![0, 2, 4, 3, 1]]);
}

#[test]
fn edges_of_the_proximity_graph() {
    let near = near_matrix(4, &[(2, 0), (3, 1), (1, 2)]);
    assert_eq!(VisualizationHelper::find_edges(4, &near), vec![(0, 2), (1, 2), (1, 3)]);
    // only the entries above the diagonal are read
    let mut lower_only = vec![false; 9];
    lower_only[2 * 3 + 0] = true;
    assert!(VisualizationHelper::find_edges(3, &lower_only).is_empty());
}

#[test]
fn spatial_hash_groups_and_gathers_cells() {
    let cells = vec![(0, 0, 0), (1, 0, 0), (0, 0, 0), (5, 5, 5), (0, 1, -1)];
    let grid = VisualizationHelper::build_spatial_hash(&cells);
    assert_eq!(grid.len(), 4);
    assert_eq!(grid[&(0, 0, 0)], vec![0, 2]);
    assert_eq!(grid[&(5, 5, 5)], vec![3]);
    // cells by x, then y, then z: (0,0,0) [0,2], (0,1,-1) [4], (1,0,0) [1]
    assert_eq!(VisualizationHelper::query_spatial_hash(&grid, (0, 0, 0), 1), vec![0, 2, 4, 1]);
    assert_eq!(VisualizationHelper::query_spatial_hash(&grid, (0, 0, 0), 0), vec![0, 2]);
    assert!(VisualizationHelper::query_spatial_hash(&grid, (0, 0, 0), -1).is_empty());
    assert_eq!(VisualizationHelper::query_spatial_hash(&grid, (4, 4, 4), 1), vec![3]);
}

#[test]
fn decimation_keeps_earlier_particles_greedily() {
    // 0-1 close, 1-2 close, 2-3 close: 0 kept, 1 dropped, 2 kept (its only
    // close earlier neighbour was dropped), 3 dropped
    let mut close = vec![false; 16];
    for (i, j) in [(0usize, 1usize), (1, 2), (2, 3)] {
        close[i * 4 + j] = true;
    }
    assert_eq!(Remesher::decimate(4, &close), vec![true, false, true, false]);
    assert_eq!(Remesher::decimate(3, &[false; 9]), vec![true, true, true]);
    assert!(Remesher::decimate(0, &[]).is_empty());
}

#[test]
fn merge_groups_follow_the_greedy_leaders() {
    // 0-1, 1-2, 2-3 near, and 0-3: 0 leads and takes 1 and 3; 2 is near
    // only 1 and 3 among earlier ones, both taken, so it leads alone
    let mut near = vec![false; 16];
    for (i, j) in [(0usize, 1usize), (1, 2), (2, 3), (0, 3)] {
        near[i * 4 + j] = true;
    }
    assert_eq!(AdvancedSculpt::merge_by_distance(4, &near), vec![vec![0, 1, 3], vec![2]]);
    assert_eq!(AdvancedSculpt::merge_by_distance(2, &[false; 4]), vec![vec![0], vec![1]]);
    assert!(AdvancedSculpt::merge_by_distance(0, &[]).is_empty());
}

/// Points spread evenly over a sphere (a golden-angle spiral), as the
/// modeling tools' sphere primitive places them.
fn sphere_points(n: usize, radius: f32) -> Vec<glam::Vec3> {
    let golden_angle = std::f32::consts::PI * (3.0 - 5.0_f32.sqrt());
    (0..n)
        .map(|i| {
            let y = 1.0 - (i as f32 / (n as f32 - 1.0)) * 2.0;
            let r = (1.0 - y * y).max(0.0).sqrt();
            let theta = golden_angle * i as f32;
            glam::Vec3::new(theta.cos() * r, y, theta.sin() * r).normalize() * radius
        })
        .collect()
}

fn within_matrix(points: &[glam::Vec3], max_len: f32) -> Vec<bool> {
    let n = points.len();
    let mut m = vec![false; n * n];
    for i in 0..n {
        for j in 0..n {
            m[i * n + j] = (points[i] - points[j]).length_squared() <= max_len * max_len;
        }
    }
    m
}

fn check_particle_mesh_build() {
    let points = sphere_points(20, 1.0);
    let mesh = ParticleMesh::build_from_proximity(points.len(), &within_matrix(&points, 0.8));
    assert!(!mesh.edges.is_empty());
    let total: f32 = mesh.edges.iter().map(|&(a, b)| (points[a] - points[b]).length()).sum();
    assert!(total / mesh.edges.len() as f32 > 0.0);
}

#[test]
fn modeling_editor_test_particle_mesh_build() {
    check_particle_mesh_build();
}

#[test]
fn modeling_editor_ext2_test_particle_mesh_build() {
    check_particle_mesh_build();
}

fn check_remesher_decimate() {
    let points = sphere_points(100, 1.0);
    let before = points.len();
    let n = points.len();
    let mut too_close = vec![false; n * n];
    for i in 0..n {
        for j in (i + 1)..n {
            too_close[i * n + j] = (points[i] - points[j]).length_squared() < 0.3 * 0.3;
        }
    }
    let keep = Remesher::decimate(n, &too_close);
    let after = keep.iter().filter(|k| **k).count();
    assert!(after < before);
}

#[test]
fn modeling_editor_test_remesher_decimate() {
    check_remesher_decimate();
}

#[test]
fn modeling_editor_ext2_test_remesher_decimate() {
    check_remesher_decimate();
}
