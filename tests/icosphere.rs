use glam::DVec3;
use planet_gen::{
    create_regions, edge_key, subdivided_icosahedron, Region, BASE_VERTEX_COUNT, MAX_MESH_SUBDIVISIONS,
};

const PHI: f64 = 1.61803398875;

fn base_vertices() -> Vec<DVec3> {
    vec![
        DVec3::new(-1.0, PHI, 0.0),
        DVec3::new(1.0, PHI, 0.0),
        DVec3::new(-1.0, -PHI, 0.0),
        DVec3::new(1.0, -PHI, 0.0),
        DVec3::new(0.0, -1.0, PHI),
        DVec3::new(0.0, 1.0, PHI),
        DVec3::new(0.0, -1.0, -PHI),
        DVec3::new(0.0, 1.0, -PHI),
        DVec3::new(PHI, 0.0, -1.0),
        DVec3::new(PHI, 0.0, 1.0),
        DVec3::new(-PHI, 0.0, -1.0),
        DVec3::new(-PHI, 0.0, 1.0),
    ]
}

fn positions(subdivisions: usize) -> Vec<DVec3> {
    let mesh = subdivided_icosahedron(subdivisions);
    let mut vertices: Vec<DVec3> = base_vertices().into_iter().map(|v| v.normalize()).collect();
    for &(a, b) in &mesh.midpoints {
        let mid = (vertices[a as usize] + vertices[b as usize]) * 0.5;
        vertices.push(mid.normalize());
    }
    vertices
}

#[test]
fn vertex_and_triangle_counts_for_each_level() {
    for n in 0..=5usize {
        let mesh = subdivided_icosahedron(n);
        let four_n = 4usize.pow(n as u32);
        assert_eq!(BASE_VERTEX_COUNT + mesh.midpoints.len(), 10 * four_n + 2, "level {}", n);
        assert_eq!(mesh.indices.len() / 3, 20 * four_n, "level {}", n);
        assert_eq!(mesh.indices.len() % 3, 0);
    }
}

#[test]
fn base_icosahedron_is_twelve_vertices_twenty_triangles() {
    let mesh = subdivided_icosahedron(0);
    assert!(mesh.midpoints.is_empty());
    assert_eq!(mesh.indices.len(), 60);
    assert_eq!(&mesh.indices[0..6], &[0, 11, 5, 0, 5, 1]);
}

#[test]
fn every_vertex_lies_on_the_unit_sphere() {
    for n in 0..=5usize {
        for v in positions(n) {
            assert!((v.length() - 1.0).abs() < 1e-9, "level {}: |v| = {}", n, v.length());
        }
    }
}

#[test]
fn one_subdivision_splits_first_triangle_through_shared_midpoints() {
    let mesh = subdivided_icosahedron(1);
    // Triangle (0, 11, 5): midpoints of 0-11, 11-5 and 5-0 are vertices 12, 13, 14.
    assert_eq!(mesh.midpoints[0], (0, 11));
    assert_eq!(mesh.midpoints[1], (5, 11));
    assert_eq!(mesh.midpoints[2], (0, 5));
    assert_eq!(&mesh.indices[0..12], &[0, 12, 14, 12, 11, 13, 14, 13, 5, 12, 13, 14]);
    // Triangle (0, 5, 1) reuses the midpoint of 0-5.
    assert_eq!(mesh.indices[12], 0);
    assert_eq!(mesh.indices[14], 16);
    assert_eq!(mesh.indices[13], 14);
    assert_eq!(mesh.midpoints[3], (1, 5));
    assert_eq!(mesh.midpoints[4], (0, 1));
}

#[test]
fn midpoints_refer_to_earlier_vertices() {
    let mesh = subdivided_icosahedron(4);
    for (i, &(a, b)) in mesh.midpoints.iter().enumerate() {
        assert!(a < b);
        assert!((b as usize) < BASE_VERTEX_COUNT + i);
    }
    let count = BASE_VERTEX_COUNT + mesh.midpoints.len();
    assert!(mesh.indices.iter().all(|&i| (i as usize) < count));
}

#[test]
fn subdividing_in_place_matches_the_builder() {
    let mut mesh = subdivided_icosahedron(2);
    mesh.subdivide();
    let direct = subdivided_icosahedron(3);
    assert_eq!(mesh.midpoints, direct.midpoints);
    assert_eq!(mesh.indices, direct.indices);
}

#[test]
fn edge_key_puts_smaller_index_high() {
    assert_eq!(edge_key(3, 7), (3 << 16) | 7);
    assert_eq!(edge_key(7, 3), (3 << 16) | 7);
    assert_eq!(edge_key(0, 0), 0);
    assert_eq!(edge_key(65535, 0), 65535);
    assert_eq!(edge_key(65535, 65535), 0xffff_ffff);
}

#[test]
fn edge_keys_are_symmetric_and_distinct() {
    let mut seen = std::collections::HashSet::new();
    for a in 0..40u16 {
        for b in a..40u16 {
            assert_eq!(edge_key(a, b), edge_key(b, a));
            assert!(seen.insert(edge_key(a, b)), "duplicate key for {} {}", a, b);
        }
    }
    assert_ne!(edge_key(1, 256), edge_key(0, 257));
}

#[test]
fn region_new_keys_its_three_edges() {
    let r = Region::new(0, 11, 5);
    assert_eq!(r.corners, [0, 11, 5]);
    assert_eq!(r.edges, [edge_key(0, 11), edge_key(11, 5), edge_key(5, 0)]);
}

#[test]
fn create_regions_follows_the_triangles() {
    let regions = create_regions(0);
    assert_eq!(regions.len(), 20);
    assert_eq!(regions[0].corners, [0, 11, 5]);
    assert_eq!(regions[19].corners, [9, 8, 1]);
    assert_eq!(create_regions(5).len(), 20480);
}

#[test]
fn each_base_triangle_borders_exactly_three_others() {
    let regions = create_regions(0);
    for (i, r) in regions.iter().enumerate() {
        let neighbours = regions
            .iter()
            .enumerate()
            .filter(|(j, other)| *j != i && r.borders(other))
            .count();
        assert_eq!(neighbours, 3, "triangle {}", i);
    }
}

#[test]
fn borders_is_symmetric_and_reflexive() {
    let a = Region::new(0, 11, 5);
    let b = Region::new(0, 5, 1);
    let far = Region::new(3, 9, 4);
    assert!(a.borders(&b));
    assert!(b.borders(&a));
    assert!(a.borders(&a));
    assert!(!a.borders(&far));
    assert!(!far.borders(&a));
}

#[test]
fn every_edge_of_a_subdivided_mesh_has_two_triangles() {
    let regions = create_regions(3);
    let mut counts = std::collections::HashMap::new();
    for r in &regions {
        for e in r.edges {
            *counts.entry(e).or_insert(0) += 1;
        }
    }
    assert!(counts.values().all(|&c| c == 2));
    assert_eq!(counts.len(), 30 * 64);
}

#[test]
fn every_level_is_closed_and_connected() {
    for n in 0..=5usize {
        let regions = create_regions(n);
        let mut owners: std::collections::HashMap<u32, Vec<usize>> = std::collections::HashMap::new();
        for (i, r) in regions.iter().enumerate() {
            for e in r.edges {
                owners.entry(e).or_default().push(i);
            }
        }
        for list in owners.values() {
            assert_eq!(list.len(), 2, "level {}", n);
            assert_ne!(list[0], list[1], "level {}", n);
        }
        let mut seen = vec![false; regions.len()];
        let mut stack = vec![0usize];
        seen[0] = true;
        while let Some(i) = stack.pop() {
            for e in regions[i].edges {
                for &j in &owners[&e] {
                    if !seen[j] {
                        seen[j] = true;
                        stack.push(j);
                    }
                }
            }
        }
        assert!(seen.iter().all(|&s| s), "level {}", n);
    }
}

#[test]
fn deepest_mesh_still_fits_sixteen_bit_indices() {
    assert_eq!(MAX_MESH_SUBDIVISIONS, 6);
    let mesh = subdivided_icosahedron(6);
    assert_eq!(BASE_VERTEX_COUNT + mesh.midpoints.len(), 40962);
    assert_eq!(mesh.indices.len(), 3 * 81920);
    assert_eq!(create_regions(6).len(), 81920);
}

#[test]
fn every_region_has_three_neighbours_at_depth_two() {
    let regions = create_regions(2);
    for (i, r) in regions.iter().enumerate() {
        let count = regions
            .iter()
            .enumerate()
            .filter(|(j, other)| *j != i && r.borders(other))
            .count();
        assert_eq!(count, 3, "region {}", i);
    }
}
