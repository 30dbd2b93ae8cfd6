use crate::edge_key::{edge_key, key_of};
use crate::icosphere::{icosphere_spec, pow4, subdivided_icosahedron, Icosphere, MAX_MESH_SUBDIVISIONS};
use vstd::prelude::*;

verus! {

/// One triangle of the mesh: its three corner vertices and the keys of its
/// three edges. It is also one node of the mesh's dual graph.
#[derive(Clone, Copy)]
pub struct Region {
    /// The corner vertices, in winding order.
    pub corners: [u16; 3],
    /// The keys of the edges `corners[0]-corners[1]`, `corners[1]-corners[2]`
    /// and `corners[2]-corners[0]`.
    pub edges: [u32; 3],
}

/// The region of the triangle `(a, b, c)`.
pub open spec fn is_region_of(r: Region, a: u16, b: u16, c: u16) -> bool {
    &&& r.corners@ == seq![a, b, c]
    &&& r.edges@ == seq![
        key_of(a as int, b as int) as u32,
        key_of(b as int, c as int) as u32,
        key_of(c as int, a as int) as u32,
    ]
}

/// The region of triangle `t` of the index list `ix`.
pub open spec fn is_triangle_region(r: Region, ix: Seq<u16>, t: int) -> bool {
    is_region_of(r, ix[3 * t], ix[3 * t + 1], ix[3 * t + 2])
}

/// Whether two regions share an edge key.
pub open spec fn shares_edge(r1: Region, r2: Region) -> bool {
    exists|i: int, j: int|
        #![trigger r1.edges@[i], r2.edges@[j]]
        0 <= i < 3 && 0 <= j < 3 && r1.edges@[i] == r2.edges@[j]
}

/// A closed mesh, or a part of one: an edge that two regions share lies
/// once on each of them and on no third region.
pub open spec fn regions_closed(regions: Seq<Region>) -> bool {
    forall|i: int, j: int, e: u32|
        0 <= i < regions.len() && 0 <= j < regions.len() && i != j
            && #[trigger] regions[i].edges@.contains(e) && #[trigger] regions[j].edges@.contains(e)
            ==> regions[i].edges@.to_multiset().count(e) == 1 && forall|r: int|
            0 <= r < regions.len() && r != i && r != j ==> !(#[trigger] regions[r].edges@.contains(e))
}

/// `s` holds some region index and misses another.
pub open spec fn splits(regions: Seq<Region>, s: Set<int>) -> bool {
    &&& exists|i: int| 0 <= i < regions.len() && s.contains(i)
    &&& exists|j: int| 0 <= j < regions.len() && !s.contains(j)
}

/// Some region inside `s` shares an edge with some region outside it.
pub open spec fn crossed(regions: Seq<Region>, s: Set<int>) -> bool {
    exists|i: int, j: int|
        0 <= i < regions.len() && 0 <= j < regions.len() && s.contains(i) && !s.contains(j)
            && shares_edge(regions[i], regions[j])
}

/// The regions form one piece: every way of cutting them in two cuts
/// through a shared edge.
pub open spec fn regions_connected(regions: Seq<Region>) -> bool {
    forall|s: Set<int>| #[trigger] splits(regions, s) ==> crossed(regions, s)
}

/// `regions` is the region list of the triangle list `ix`.
pub open spec fn regions_of_mesh(regions: Seq<Region>, ix: Seq<u16>) -> bool {
    &&& regions.len() == ix.len() / 3
    &&& forall|t: int| 0 <= t < regions.len() ==> is_triangle_region(#[trigger] regions[t], ix, t)
}

impl Region {
    /// The region of the triangle `(a, b, c)`.
    pub fn new(a: u16, b: u16, c: u16) -> (r: Region)
        ensures
            is_region_of(r, a, b, c),
    {
        let r = Region { corners: [a, b, c], edges: [edge_key(a, b), edge_key(b, c), edge_key(c, a)] };
        assert(r.corners@ =~= seq![a, b, c]);
        assert(r.edges@ =~= seq![
            key_of(a as int, b as int) as u32,
            key_of(b as int, c as int) as u32,
            key_of(c as int, a as int) as u32,
        ]);
        r
    }

    /// Whether `self` and `other` share an edge.
    pub fn borders(&self, other: &Region) -> (r: bool)
        ensures
            r == shares_edge(*self, *other),
    {
        let mut i: usize = 0;
        while i < 3
            invariant
                i <= 3,
                forall|i2: int, j: int|
                    #![trigger self.edges@[i2], other.edges@[j]]
                    0 <= i2 < i && 0 <= j < 3 ==> self.edges@[i2] != other.edges@[j],
            decreases 3 - i,
        {
            let mut j: usize = 0;
            while j < 3
                invariant
                    i < 3,
                    j <= 3,
                    forall|j2: int| 0 <= j2 < j ==> self.edges@[i as int] != #[trigger] other.edges@[j2],
                decreases 3 - j,
            {
                if self.edges[i] == other.edges[j] {
                    assert(self.edges@[i as int] == other.edges@[j as int]);
                    return true;
                }
                j += 1;
            }
            i += 1;
        }
        false
    }
}

impl Icosphere {
    /// One region per triangle, in triangle order.
    pub fn regions(&self) -> (rs: Vec<Region>)
        requires
            self@.wf(),
        ensures
            rs@.len() == self@.indices.len() / 3,
            forall|t: int| 0 <= t < rs@.len() ==> is_triangle_region(#[trigger] rs@[t], self@.indices, t),
    {
        let mut rs: Vec<Region> = Vec::new();
        let n = self.indices.len() / 3;
        assert(3 * n == self@.indices.len());
        for t in 0..n
            invariant
                n == self@.indices.len() / 3,
                3 * n == self@.indices.len(),
                self@.indices.len() <= usize::MAX,
                self@.wf(),
                rs@.len() == t,
                forall|t2: int| 0 <= t2 < t ==> is_triangle_region(#[trigger] rs@[t2], self@.indices, t2),
        {
            let r = Region::new(self.indices[3 * t], self.indices[3 * t + 1], self.indices[3 * t + 2]);
            rs.push(r);
        }
        rs
    }
}

/// The regions of the icosahedron subdivided `subdivisions` times: one per
/// triangle of [`subdivided_icosahedron`], `20 * 4^n` in all.
pub fn create_regions(subdivisions: usize) -> (rs: Vec<Region>)
    requires
        subdivisions <= MAX_MESH_SUBDIVISIONS,
    ensures
        rs@.len() == 20 * pow4(subdivisions as nat),
        regions_of_mesh(rs@, icosphere_spec(subdivisions as nat).indices),
        regions_closed(rs@),
        regions_connected(rs@),
        forall|i: int| 0 <= i < rs@.len() ==> #[trigger] crate::surface::three_neighbours(rs@, i),
        forall|t: int|
            0 <= t < rs@.len() ==> is_triangle_region(
                #[trigger] rs@[t],
                icosphere_spec(subdivisions as nat).indices,
                t,
            ),
{
    let mesh = subdivided_icosahedron(subdivisions);
    let rs = mesh.regions();
    proof {
        crate::surface::lemma_regions_of_closed_surface(rs@, mesh@.indices);
        assert forall|i: int| 0 <= i < rs@.len() implies #[trigger] crate::surface::three_neighbours(rs@, i) by {
            crate::surface::lemma_three_neighbours(rs@, mesh@.indices, i);
        }
    }
    rs
}

} // verus!
