use planet_gen::parity_set::ParitySet;
use planet_gen::{
    build_planet, cluster_regions, create_regions, first_bordering_plate, ClusterError, Region,
    TectonicPlate, TectonicPlateClassification,
};
use rand::{Rng, SeedableRng};
use rand_pcg::Pcg32;

fn classify(rng: &mut Pcg32, n: usize) -> Vec<TectonicPlateClassification> {
    (0..n)
        .map(|_| {
            if rng.random::<f32>() > 0.6 {
                TectonicPlateClassification::Continental
            } else {
                TectonicPlateClassification::Oceanic
            }
        })
        .collect()
}

fn cluster(seed: u64, subdivisions: usize, num_plates: usize) -> (Vec<Region>, Vec<TectonicPlate>) {
    let mut rng = Pcg32::seed_from_u64(seed);
    let classes = classify(&mut rng, num_plates);
    let regions = create_regions(subdivisions);
    let plates = cluster_regions(&mut rng, &regions, &classes).unwrap();
    (regions, plates)
}

#[test]
fn parity_set_toggles_membership() {
    let mut s = ParitySet::new();
    assert!(s.is_empty());
    s.toggle(5);
    assert!(s.contains(5));
    s.toggle(5);
    assert!(!s.contains(5));
    assert!(s.is_empty());
}

#[test]
fn parity_set_keeps_odd_counts_only() {
    let mut s = ParitySet::new();
    s.toggle_all(&[1, 2, 3]);
    s.toggle_all(&[2, 3, 4]);
    assert_eq!(s.len(), 2);
    assert!(s.contains(1) && s.contains(4));
    assert!(!s.contains(2) && !s.contains(3));
    assert!(s.contains_any(&[9, 4]));
    assert!(!s.contains_any(&[2, 3]));
    assert!(!s.contains_any(&[]));
}

#[test]
fn parity_sets_intersect_when_sharing_a_key() {
    let mut a = ParitySet::new();
    let mut b = ParitySet::new();
    a.toggle_all(&[1, 2]);
    b.toggle_all(&[3]);
    assert!(!a.intersects(&b));
    b.toggle(2);
    assert!(a.intersects(&b));
    assert!(b.intersects(&a));
}

#[test]
fn default_classification_is_oceanic() {
    assert_eq!(TectonicPlateClassification::default(), TectonicPlateClassification::Oceanic);
}

#[test]
fn representative_seed_partitions_all_regions() {
    let (regions, plates) = cluster(1, 5, 40);
    assert_eq!(plates.len(), 40);
    let mut seen = vec![0usize; regions.len()];
    for p in &plates {
        assert!(!p.contained_regions.is_empty());
        for &r in &p.contained_regions {
            seen[r] += 1;
        }
    }
    assert!(seen.iter().all(|&c| c == 1));
}

#[test]
fn single_plate_takes_the_whole_icosahedron_with_no_boundary() {
    let (regions, plates) = cluster(0, 0, 1);
    assert_eq!(regions.len(), 20);
    assert_eq!(plates.len(), 1);
    let mut ids = plates[0].contained_regions.clone();
    ids.sort();
    assert_eq!(ids, (0..20).collect::<Vec<_>>());
    assert!(plates[0].plate_edges.is_empty());
}

#[test]
fn plate_boundary_is_the_odd_count_edge_set() {
    let (regions, plates) = cluster(7, 2, 6);
    for p in &plates {
        let mut counts = std::collections::HashMap::new();
        for &r in &p.contained_regions {
            for e in regions[r].edges {
                *counts.entry(e).or_insert(0u32) += 1;
            }
        }
        let odd: Vec<u32> = counts.iter().filter(|(_, &c)| c % 2 == 1).map(|(&e, _)| e).collect();
        assert_eq!(p.plate_edges.len(), odd.len());
        assert!(odd.iter().all(|&e| p.plate_edges.contains(e)));
    }
}

#[test]
fn plates_grow_contiguously() {
    let (regions, plates) = cluster(3, 3, 12);
    for p in &plates {
        for k in 1..p.contained_regions.len() {
            let r = &regions[p.contained_regions[k]];
            assert!(p.contained_regions[..k].iter().any(|&j| r.borders(&regions[j])));
        }
    }
}

#[test]
fn plates_keep_their_classification_order() {
    let mut rng = Pcg32::seed_from_u64(11);
    let classes = classify(&mut rng, 8);
    let regions = create_regions(2);
    let plates = cluster_regions(&mut rng, &regions, &classes).unwrap();
    for (p, c) in plates.iter().zip(classes.iter()) {
        assert_eq!(p.classification, *c);
    }
}

#[test]
fn seeds_are_drawn_from_a_shuffled_queue() {
    let (_, plates) = cluster(5, 0, 20);
    let seeds: Vec<usize> = plates.iter().map(|p| p.contained_regions[0]).collect();
    let unshuffled: Vec<usize> = (0..20).rev().collect();
    assert_ne!(seeds, unshuffled);
    let mut sorted = seeds.clone();
    sorted.sort();
    assert_eq!(sorted, (0..20).collect::<Vec<_>>());
}

#[test]
fn neighbouring_plates_border_each_other() {
    let (_, plates) = cluster(2, 1, 2);
    assert!(plates[0].borders(&plates[1]));
    assert!(plates[1].borders(&plates[0]));
}

#[test]
fn distant_seed_plates_do_not_border() {
    let regions = create_regions(0);
    let a = TectonicPlate::seeded(TectonicPlateClassification::Oceanic, 0, &regions[0]);
    let b = TectonicPlate::seeded(TectonicPlateClassification::Oceanic, 10, &regions[10]);
    assert!(!regions[0].borders(&regions[10]));
    assert!(!a.borders(&b));
    assert!(a.borders(&a));
}

#[test]
fn first_bordering_plate_follows_the_order() {
    let regions = create_regions(0);
    let plates = vec![
        TectonicPlate::seeded(TectonicPlateClassification::Oceanic, 1, &regions[1]),
        TectonicPlate::seeded(TectonicPlateClassification::Oceanic, 4, &regions[4]),
        TectonicPlate::seeded(TectonicPlateClassification::Oceanic, 12, &regions[12]),
    ];
    // Region 0 (0, 11, 5) touches region 1 (0, 5, 1) and region 4 (0, 10, 11).
    assert_eq!(first_bordering_plate(&plates, &[0, 1, 2], &regions[0].edges), Some(0));
    assert_eq!(first_bordering_plate(&plates, &[1, 0, 2], &regions[0].edges), Some(1));
    assert_eq!(first_bordering_plate(&plates, &[2], &regions[0].edges), None);
    assert_eq!(first_bordering_plate(&plates, &[], &regions[0].edges), None);
}

#[test]
fn no_plates_cannot_reach_any_region() {
    let mut rng = Pcg32::seed_from_u64(0);
    let regions = create_regions(0);
    assert_eq!(cluster_regions(&mut rng, &regions, &[]).err(), Some(ClusterError::UnreachableRegions));
}

#[test]
fn one_plate_per_region_needs_no_growth() {
    let (regions, plates) = cluster(9, 0, 20);
    assert_eq!(plates.len(), regions.len());
    assert!(plates.iter().all(|p| p.contained_regions.len() == 1));
}

#[test]
fn no_regions_and_no_plates_is_empty() {
    let mut rng = Pcg32::seed_from_u64(0);
    let plates = cluster_regions(&mut rng, &[], &[]).unwrap();
    assert!(plates.is_empty());
}

#[test]
fn planet_emits_three_vertices_per_region_with_sequential_indices() {
    let mut rng = Pcg32::seed_from_u64(0);
    let classes = classify(&mut rng, 1);
    let (vertices, indices) = build_planet(&mut rng, 0, &classes).unwrap();
    assert_eq!(vertices.len(), 60);
    assert_eq!(indices, (0..60u16).collect::<Vec<_>>());
    assert!(vertices.iter().all(|v| v.classification == classes[0]));
}

#[test]
fn planet_vertices_follow_plates_and_regions() {
    let (regions, plates) = cluster(4, 1, 3);
    let (vertices, indices) = planet_gen::planet_vertices(&regions, &plates);
    let mut expected = vec![];
    for p in &plates {
        for &r in &p.contained_regions {
            for c in regions[r].corners {
                expected.push((c, p.classification));
            }
        }
    }
    let got: Vec<_> = vertices.iter().map(|v| (v.corner, v.classification)).collect();
    assert_eq!(got, expected);
    assert_eq!(indices.len(), 240);
}

#[test]
fn same_seed_gives_identical_planets() {
    let run = |seed: u64| {
        let mut rng = Pcg32::seed_from_u64(seed);
        let classes = classify(&mut rng, 40);
        build_planet(&mut rng, 5, &classes).unwrap()
    };
    let (v1, i1) = run(1);
    let (v2, i2) = run(1);
    assert_eq!(v1, v2);
    assert_eq!(i1, i2);
    assert_eq!(v1.len(), 61440);
}

#[test]
fn unreachable_regions_is_reported_not_looped() {
    // Two regions that share no edge with each other or with the seed.
    let regions = vec![Region::new(0, 1, 2), Region::new(3, 4, 5), Region::new(6, 7, 8)];
    let mut rng = Pcg32::seed_from_u64(0);
    let classes = [TectonicPlateClassification::Oceanic];
    assert_eq!(
        cluster_regions(&mut rng, &regions, &classes).err(),
        Some(ClusterError::UnreachableRegions)
    );
}
