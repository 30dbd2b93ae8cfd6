use crate::icosphere::{icosphere_spec, pow4, MAX_SUBDIVISIONS};
use crate::regions::{create_regions, is_triangle_region, Region};
use crate::tectonic_plates::{
    cluster_regions, is_clustering, regions_multiset, ClusterError, TectonicPlate,
    TectonicPlateClassification,
};
use rand_pcg::Pcg32;
use vstd::prelude::*;

verus! {

/// One vertex of the planet's triangle list: a mesh vertex, coloured by the
/// classification of the plate that owns its triangle.
#[derive(Clone, Copy, PartialEq, Eq, Structural, Debug)]
pub struct PlanetVertex {
    /// Index of the vertex in the icosphere mesh.
    pub corner: u16,
    pub classification: TectonicPlateClassification,
}

/// The vertices of the first `k` regions of a plate, three per region.
pub open spec fn plate_vertices(p: TectonicPlate, regions: Seq<Region>, k: int) -> Seq<PlanetVertex> {
    Seq::new(
        (3 * k) as nat,
        |j: int|
            PlanetVertex {
                corner: regions[p.contained_regions@[j / 3] as int].corners@[j % 3],
                classification: p.classification,
            },
    )
}

/// The triangle list of the plates: plate by plate, region by region, the
/// three corners of each region.
pub open spec fn planet_vertices_spec(plates: Seq<TectonicPlate>, regions: Seq<Region>) -> Seq<
    PlanetVertex,
>
    decreases plates.len(),
{
    if plates.len() == 0 {
        Seq::empty()
    } else {
        planet_vertices_spec(plates.drop_last(), regions) + plate_vertices(
            plates.last(),
            regions,
            plates.last().contained_regions@.len() as int,
        )
    }
}

proof fn lemma_planet_vertices_len(plates: Seq<TectonicPlate>, regions: Seq<Region>)
    ensures
        planet_vertices_spec(plates, regions).len() == 3 * regions_multiset(plates).len(),
    decreases plates.len(),
{
    if plates.len() > 0 {
        lemma_planet_vertices_len(plates.drop_last(), regions);
        plates.last().contained_regions@.to_multiset_ensures();
    }
}

/// Emits the triangle list of the plates: three vertices per region, and
/// the index list `0, 1, 2, ...`, one index per vertex.
pub fn planet_vertices(regions: &[Region], plates: &[TectonicPlate]) -> (r: (Vec<PlanetVertex>, Vec<u16>))
    requires
        forall|p: int, k: int|
            0 <= p < plates.len() && 0 <= k < plates@[p].contained_regions@.len() ==> (
            #[trigger] plates@[p].contained_regions@[k] as int) < regions.len(),
        planet_vertices_spec(plates@, regions@).len() <= 65536,
    ensures
        r.0@ == planet_vertices_spec(plates@, regions@),
        r.1@.len() == r.0@.len(),
        forall|i: int| 0 <= i < r.1@.len() ==> r.1@[i] as int == i,
{
    let mut vertices: Vec<PlanetVertex> = Vec::new();
    for p in 0..plates.len()
        invariant
            forall|p: int, k: int|
                0 <= p < plates.len() && 0 <= k < plates@[p].contained_regions@.len() ==> (
                #[trigger] plates@[p].contained_regions@[k] as int) < regions.len(),
            vertices@ == planet_vertices_spec(plates@.subrange(0, p as int), regions@),
    {
        let plate = &plates[p];
        let ghost before = vertices@;
        for k in 0..plate.contained_regions.len()
            invariant
                0 <= p < plates.len(),
                plate == plates@[p as int],
                forall|k: int|
                    0 <= k < plate.contained_regions@.len() ==> (
                    #[trigger] plate.contained_regions@[k] as int) < regions.len(),
                vertices@ == before + plate_vertices(*plate, regions@, k as int),
        {
            let region = &regions[plate.contained_regions[k]];
            let ghost v0 = vertices@;
            for c in 0..3usize
                invariant
                    vertices@.len() == v0.len() + c,
                    forall|i: int| 0 <= i < v0.len() ==> vertices@[i] == v0[i],
                    forall|i: int|
                        0 <= i < c ==> vertices@[v0.len() + i] == (PlanetVertex {
                            corner: region.corners@[i],
                            classification: plate.classification,
                        }),
            {
                vertices.push(PlanetVertex { corner: region.corners[c], classification: plate.classification });
            }
            proof {
                let target = before + plate_vertices(*plate, regions@, k + 1);
                assert(v0.len() == before.len() + 3 * k);
                assert forall|i: int| 0 <= i < target.len() implies vertices@[i] == target[i] by {
                    if i >= v0.len() {
                        let j = i - before.len();
                        let c = i - v0.len();
                        assert(0 <= c < 3);
                        assert(j == 3 * k + c);
                        assert(j / 3 == k && j % 3 == c) by (nonlinear_arith)
                            requires
                                j == 3 * k + c,
                                0 <= c < 3,
                        ;
                        assert(vertices@[v0.len() + c] == (PlanetVertex {
                            corner: region.corners@[c],
                            classification: plate.classification,
                        }));
                    } else if i >= before.len() {
                        assert(vertices@[i] == v0[i]);
                        assert(v0[i] == plate_vertices(*plate, regions@, k as int)[i - before.len()]);
                    } else {
                        assert(vertices@[i] == v0[i]);
                    }
                }
                assert(vertices@ =~= target);
            }
        }
        proof {
            let s = plates@.subrange(0, p + 1);
            assert(s.drop_last() == plates@.subrange(0, p as int));
            assert(s.last() == plates@[p as int]);
        }
    }
    proof {
        assert(plates@.subrange(0, plates@.len() as int) == plates@);
    }
    let mut indices: Vec<u16> = Vec::new();
    let n = vertices.len();
    for i in 0..n
        invariant
            n <= 65536,
            indices@.len() == i,
            forall|j: int| 0 <= j < i ==> indices@[j] as int == j,
    {
        indices.push(i as u16);
    }
    (vertices, indices)
}

/// Builds the planet's triangle list: the icosphere's regions, clustered
/// into one plate per classification, emitted plate by plate.
pub fn build_planet(
    rng: &mut Pcg32,
    subdivisions: usize,
    classifications: &[TectonicPlateClassification],
) -> (r: Result<(Vec<PlanetVertex>, Vec<u16>), ClusterError>)
    requires
        subdivisions <= MAX_SUBDIVISIONS,
        classifications.len() <= 20 * pow4(subdivisions as nat),
    ensures
        match r {
            Ok((vertices, indices)) => {
                &&& exists|regions: Seq<Region>, plates: Seq<TectonicPlate>|
                    {
                        &&& regions.len() == 20 * pow4(subdivisions as nat)
                        &&& forall|t: int|
                            0 <= t < regions.len() ==> is_triangle_region(
                                #[trigger] regions[t],
                                icosphere_spec(subdivisions as nat).indices,
                                t,
                            )
                        &&& is_clustering(plates, regions, classifications@)
                        &&& vertices@ == planet_vertices_spec(plates, regions)
                    }
                &&& vertices@.len() == 60 * pow4(subdivisions as nat)
                &&& indices@.len() == vertices@.len()
                &&& forall|i: int| 0 <= i < indices@.len() ==> indices@[i] as int == i
            },
            Err(e) => e == ClusterError::UnreachableRegions && classifications.len() < 20 * pow4(
                subdivisions as nat,
            ),
        },
        classifications.len() == 0 ==> r is Err,
        classifications.len() >= 1 ==> r is Ok,
{
    let regions = create_regions(subdivisions);
    proof {
        assert(pow4(subdivisions as nat) >= 1) by {
            crate::icosphere::lemma_pow4_positive(subdivisions as nat);
        }
    }
    let plates = cluster_regions(rng, regions.as_slice(), classifications)?;
    let region_count = regions.len();
    proof {
        let n = region_count as nat;
        let range = Seq::new(n, |i: int| i as usize);
        crate::random::lemma_range_multiset(n, range);
        assert(regions_multiset(plates@) =~= range.to_multiset());
        range.to_multiset_ensures();
        lemma_planet_vertices_len(plates@, regions@);
        assert(pow4(subdivisions as nat) <= 1024) by {
            reveal_with_fuel(pow4, 6);
        }
    }
    let out = planet_vertices(regions.as_slice(), plates.as_slice());
    assert(is_clustering(plates@, regions@, classifications@));
    Ok(out)
}

} // verus!
