use crate::parity_set::{lemma_toggle_seq_odd, meets, odd_keys, toggle_seq, ParitySet};
use crate::random::{lemma_range_multiset, lemma_shuffle_contains, shuffle};
use crate::regions::{crossed, regions_closed, regions_connected, shares_edge, splits, Region};
use rand_pcg::Pcg32;
use vstd::multiset::Multiset;
use vstd::prelude::*;

verus! {

/// The kind of crust a plate carries.
#[derive(Clone, Copy, PartialEq, Eq, Structural, Debug)]
pub enum TectonicPlateClassification {
    Oceanic,
    Continental,
}

impl Default for TectonicPlateClassification {
    fn default() -> (c: TectonicPlateClassification)
        ensures
            c == TectonicPlateClassification::Oceanic,
    {
        TectonicPlateClassification::Oceanic
    }
}

/// Why regions could not be grouped into plates.
#[derive(Clone, Copy, PartialEq, Eq, Structural, Debug)]
pub enum ClusterError {
    /// A full pass over the regions still waiting found none that touches a
    /// plate's boundary, so growth can make no more progress.
    UnreachableRegions,
}

/// A cluster of regions grown from one seed region.
pub struct TectonicPlate {
    pub classification: TectonicPlateClassification,
    /// The indices of the plate's regions, in the order they joined it.
    pub contained_regions: Vec<usize>,
    /// The plate's boundary: the edges that an odd number of its regions have.
    pub plate_edges: ParitySet,
}

/// All edge keys of the regions `ids`, with repetition.
pub open spec fn edge_multiset(regions: Seq<Region>, ids: Seq<usize>) -> Multiset<u32>
    decreases ids.len(),
{
    if ids.len() == 0 {
        Multiset::empty()
    } else {
        edge_multiset(regions, ids.drop_last()).add(regions[ids.last() as int].edges@.to_multiset())
    }
}

/// Every region after the first shares an edge with one that joined before it.
pub open spec fn grown_contiguously(regions: Seq<Region>, ids: Seq<usize>) -> bool {
    forall|k: int|
        1 <= k < ids.len() ==> exists|j: int|
            0 <= j < k && shares_edge(#[trigger] regions[ids[k] as int], regions[ids[j] as int])
}

/// A plate as clustering builds it: a non-empty, contiguous set of valid
/// region indices whose boundary is the parity set of their edges.
pub open spec fn plate_ok(p: TectonicPlate, regions: Seq<Region>) -> bool {
    let ids = p.contained_regions@;
    &&& ids.len() >= 1
    &&& forall|k: int| 0 <= k < ids.len() ==> (#[trigger] ids[k] as int) < regions.len()
    &&& p.plate_edges@ == odd_keys(edge_multiset(regions, ids))
    &&& grown_contiguously(regions, ids)
    &&& grown_at_boundary(regions, ids)
}

/// Every region after the first touched the boundary of the regions that
/// joined before it: one of its edges had an odd count among theirs.
pub open spec fn grown_at_boundary(regions: Seq<Region>, ids: Seq<usize>) -> bool {
    forall|k: int|
        1 <= k < ids.len() ==> meets(
            odd_keys(edge_multiset(regions, ids.subrange(0, k))),
            #[trigger] regions[ids[k] as int].edges@,
        )
}

/// The region indices held by all plates, with repetition.
pub open spec fn regions_multiset(plates: Seq<TectonicPlate>) -> Multiset<usize>
    decreases plates.len(),
{
    if plates.len() == 0 {
        Multiset::empty()
    } else {
        regions_multiset(plates.drop_last()).add(plates.last().contained_regions@.to_multiset())
    }
}

/// A valid outcome of clustering `regions` into plates with the given
/// classifications: one plate per classification, in order, each well
/// formed, and every region index in exactly one plate, exactly once.
pub open spec fn is_clustering(
    plates: Seq<TectonicPlate>,
    regions: Seq<Region>,
    classifications: Seq<TectonicPlateClassification>,
) -> bool {
    &&& plates.len() == classifications.len()
    &&& forall|i: int|
        0 <= i < plates.len() ==> (#[trigger] plates[i]).classification == classifications[i]
            && plate_ok(plates[i], regions)
    &&& forall|r: usize| #[trigger] regions_multiset(plates).count(r) == once_below(r, regions.len() as int)
}

/// Whether the plate at position `k` of `order` is the first in that order
/// whose boundary meets `edges`.
pub open spec fn is_first_bordering(
    plates: Seq<TectonicPlate>,
    order: Seq<usize>,
    edges: Seq<u32>,
    k: int,
) -> bool {
    &&& 0 <= k < order.len()
    &&& meets(plates[order[k] as int].plate_edges@, edges)
    &&& forall|k2: int|
        0 <= k2 < k ==> !meets(#[trigger] plates[order[k2] as int].plate_edges@, edges)
}

proof fn lemma_edge_multiset_source(regions: Seq<Region>, ids: Seq<usize>, e: u32)
    requires
        edge_multiset(regions, ids).count(e) > 0,
    ensures
        exists|j: int| 0 <= j < ids.len() && #[trigger] regions[ids[j] as int].edges@.contains(e),
    decreases ids.len(),
{
    let d = ids.drop_last();
    let last = regions[ids.last() as int].edges@;
    last.to_multiset_ensures();
    if edge_multiset(regions, d).count(e) > 0 {
        lemma_edge_multiset_source(regions, d, e);
        let j = choose|j: int| 0 <= j < d.len() && #[trigger] regions[d[j] as int].edges@.contains(e);
        assert(ids[j] == d[j]);
    } else {
        assert(last.to_multiset().count(e) > 0);
        assert(regions[ids[ids.len() - 1] as int].edges@.contains(e));
    }
}

proof fn lemma_regions_multiset_push(plates: Seq<TectonicPlate>, p: int, q: TectonicPlate, r: usize)
    requires
        0 <= p < plates.len(),
        q.contained_regions@ == plates[p].contained_regions@.push(r),
    ensures
        regions_multiset(plates.update(p, q)) == regions_multiset(plates).insert(r),
    decreases plates.len(),
{
    let u = plates.update(p, q);
    plates[p].contained_regions@.to_multiset_ensures();
    if p == plates.len() - 1 {
        assert(u.drop_last() == plates.drop_last());
        assert(regions_multiset(plates).insert(r) =~= regions_multiset(u));
    } else {
        assert(u.drop_last() == plates.drop_last().update(p, q));
        lemma_regions_multiset_push(plates.drop_last(), p, q, r);
        assert(regions_multiset(plates).insert(r) =~= regions_multiset(u));
    }
}

proof fn lemma_edge_count_absent(regions: Seq<Region>, ids: Seq<usize>, e: u32)
    requires
        forall|k: int| 0 <= k < ids.len() ==> !(#[trigger] regions[ids[k] as int].edges@.contains(e)),
    ensures
        edge_multiset(regions, ids).count(e) == 0,
    decreases ids.len(),
{
    if ids.len() > 0 {
        let d = ids.drop_last();
        assert forall|k: int| 0 <= k < d.len() implies !(#[trigger] regions[d[k] as int].edges@.contains(e)) by {
            assert(d[k] == ids[k]);
        }
        lemma_edge_count_absent(regions, d, e);
        let last = regions[ids.last() as int].edges@;
        last.to_multiset_ensures();
        assert(!last.contains(e)) by {
            assert(regions[ids[ids.len() - 1] as int].edges@ == last);
        }
    }
}

proof fn lemma_edge_count_once(regions: Seq<Region>, ids: Seq<usize>, i: usize, e: u32)
    requires
        ids.to_multiset().count(i) == 1,
        regions[i as int].edges@.to_multiset().count(e) == 1,
        forall|k: int|
            0 <= k < ids.len() && ids[k] != i ==> !(#[trigger] regions[ids[k] as int].edges@.contains(e)),
    ensures
        edge_multiset(regions, ids).count(e) == 1,
    decreases ids.len(),
{
    ids.to_multiset_ensures();
    assert(ids.contains(i));
    let d = ids.drop_last();
    assert(d.push(ids.last()) == ids);
    d.to_multiset_ensures();
    let last = regions[ids.last() as int].edges@;
    last.to_multiset_ensures();
    if ids.last() == i {
        assert(d.to_multiset().count(i) == 0);
        assert forall|k: int| 0 <= k < d.len() implies !(#[trigger] regions[d[k] as int].edges@.contains(e)) by {
            assert(d[k] == ids[k]);
            if d[k] == i {
                assert(d.contains(i));
            }
        }
        lemma_edge_count_absent(regions, d, e);
    } else {
        assert(!last.contains(e)) by {
            assert(regions[ids[ids.len() - 1] as int].edges@ == last);
        }
        assert forall|k: int| 0 <= k < d.len() && d[k] != i implies !(#[trigger] regions[d[k] as int].edges@.contains(e)) by {
            assert(d[k] == ids[k]);
        }
        lemma_edge_count_once(regions, d, i, e);
    }
}

proof fn lemma_plate_in_multiset(plates: Seq<TectonicPlate>, p: int, r: usize)
    requires
        0 <= p < plates.len(),
    ensures
        regions_multiset(plates).count(r) >= plates[p].contained_regions@.to_multiset().count(r),
    decreases plates.len(),
{
    if p < plates.len() - 1 {
        lemma_plate_in_multiset(plates.drop_last(), p, r);
    }
}

proof fn lemma_multiset_owner(plates: Seq<TectonicPlate>, r: usize)
    requires
        regions_multiset(plates).count(r) > 0,
    ensures
        exists|p: int| 0 <= p < plates.len() && (#[trigger] plates[p]).contained_regions@.contains(r),
    decreases plates.len(),
{
    let d = plates.drop_last();
    let ids = plates.last().contained_regions@;
    ids.to_multiset_ensures();
    if regions_multiset(d).count(r) > 0 {
        lemma_multiset_owner(d, r);
        let p = choose|p: int| 0 <= p < d.len() && (#[trigger] d[p]).contained_regions@.contains(r);
        assert(plates[p] == d[p]);
    } else {
        assert(ids.to_multiset().count(r) > 0);
        assert(plates[plates.len() - 1].contained_regions@.contains(r));
    }
}

/// On a closed, connected set of regions, growth cannot stall while some
/// region waits and some plate exists: a waiting region next to a placed
/// one shares an edge with it alone, so that edge lies on a plate boundary
/// and the waiting region touches it.
proof fn lemma_no_stall(plates: Seq<TectonicPlate>, regions: Seq<Region>, queue: Seq<usize>)
    requires
        regions_closed(regions),
        regions_connected(regions),
        plates.len() >= 1,
        queue.len() >= 1,
        regions.len() <= usize::MAX,
        forall|p: int| 0 <= p < plates.len() ==> plate_ok(#[trigger] plates[p], regions),
        forall|r: usize|
            regions_multiset(plates).count(r) + #[trigger] queue.to_multiset().count(r)
                == once_below(r, regions.len() as int),
    ensures
        exists|x: int, p: int|
            0 <= x < queue.len() && 0 <= p < plates.len() && meets(
                #[trigger] plates[p].plate_edges@,
                #[trigger] regions[queue[x] as int].edges@,
            ),
{
    let n = regions.len() as int;
    let placed = Set::new(|r: int| 0 <= r < n && regions_multiset(plates).count(r as usize) > 0);
    let ids0 = plates[0].contained_regions@;
    let i0 = ids0[0];
    ids0.to_multiset_ensures();
    assert(ids0.contains(i0));
    lemma_plate_in_multiset(plates, 0, i0);
    assert(placed.contains(i0 as int));
    let j0 = queue[0];
    queue.to_multiset_ensures();
    assert(queue.contains(j0));
    assert(queue.to_multiset().count(j0) > 0);
    assert(!placed.contains(j0 as int) && (j0 as int) < n);
    assert(splits(regions, placed));
    let (i, j) = choose|i: int, j: int|
        0 <= i < n && 0 <= j < n && placed.contains(i) && !placed.contains(j)
            && shares_edge(regions[i], regions[j]);
    let (si, sj) = choose|si: int, sj: int|
        #![trigger regions[i].edges@[si], regions[j].edges@[sj]]
        0 <= si < 3 && 0 <= sj < 3 && regions[i].edges@[si] == regions[j].edges@[sj];
    let e = regions[i].edges@[si];
    assert(regions[i].edges@.contains(e));
    assert(regions[j].edges@.contains(e));
    // The waiting region j sits somewhere in the queue.
    let ju = j as usize;
    assert(queue.to_multiset().count(ju) > 0);
    let x = choose|x: int| 0 <= x < queue.len() && queue[x] == ju;
    // The placed region i belongs to some plate p, once.
    let iu = i as usize;
    lemma_multiset_owner(plates, iu);
    let p = choose|p: int| 0 <= p < plates.len() && (#[trigger] plates[p]).contained_regions@.contains(iu);
    let ids = plates[p].contained_regions@;
    ids.to_multiset_ensures();
    lemma_plate_in_multiset(plates, p, iu);
    lemma_plate_in_multiset(plates, p, ju);
    assert(i != j);
    assert(regions_multiset(plates).count(iu) + queue.to_multiset().count(iu) == once_below(iu, n));
    assert(regions_multiset(plates).count(ju) + queue.to_multiset().count(ju) == once_below(ju, n));
    assert(ids.to_multiset().count(iu) > 0);
    assert(ids.to_multiset().count(iu) == 1);
    assert(regions[i].edges@.to_multiset().count(e) == 1);
    assert(ids.to_multiset().count(ju) == 0);
    assert forall|k: int| 0 <= k < ids.len() && ids[k] != iu implies !(#[trigger] regions[ids[k] as int].edges@.contains(e)) by {
        assert(ids.contains(ids[k]));
        if ids[k] == ju {
            assert(ids.to_multiset().count(ju) > 0);
        }
        assert((ids[k] as int) < n);
    }
    lemma_edge_count_once(regions, ids, iu, e);
    assert(plates[p].plate_edges@.contains(e));
    assert(meets(plates[p].plate_edges@, regions[queue[x] as int].edges@)) by {
        assert(regions[queue[x] as int].edges@[sj] == e);
    }
}

proof fn lemma_two_plates_in_multiset(plates: Seq<TectonicPlate>, p: int, q: int, r: usize)
    requires
        0 <= p < plates.len(),
        0 <= q < plates.len(),
        p != q,
    ensures
        regions_multiset(plates).count(r) >= plates[p].contained_regions@.to_multiset().count(r)
            + plates[q].contained_regions@.to_multiset().count(r),
    decreases plates.len(),
{
    let last = plates.len() - 1;
    if p == last {
        lemma_plate_in_multiset(plates.drop_last(), q, r);
    } else if q == last {
        lemma_plate_in_multiset(plates.drop_last(), p, r);
    } else {
        lemma_two_plates_in_multiset(plates.drop_last(), p, q, r);
    }
}

/// In a clustering of closed regions, two plates border each other exactly
/// when a region of one shares an edge with a region of the other.
pub proof fn lemma_plates_border_iff(
    plates: Seq<TectonicPlate>,
    regions: Seq<Region>,
    classifications: Seq<TectonicPlateClassification>,
    p: int,
    q: int,
)
    requires
        is_clustering(plates, regions, classifications),
        regions_closed(regions),
        regions.len() <= usize::MAX,
        0 <= p < plates.len(),
        0 <= q < plates.len(),
        p != q,
    ensures
        !plates[p].plate_edges@.disjoint(plates[q].plate_edges@) <==> exists|k1: int, k2: int|
            0 <= k1 < plates[p].contained_regions@.len() && 0 <= k2
                < plates[q].contained_regions@.len() && shares_edge(
                regions[plates[p].contained_regions@[k1] as int],
                regions[plates[q].contained_regions@[k2] as int],
            ),
{
    let idp = plates[p].contained_regions@;
    let idq = plates[q].contained_regions@;
    let n = regions.len() as int;
    assert(plate_ok(plates[p], regions) && plate_ok(plates[q], regions));
    if !plates[p].plate_edges@.disjoint(plates[q].plate_edges@) {
        let e = choose|e: u32| plates[p].plate_edges@.contains(e) && plates[q].plate_edges@.contains(e);
        lemma_edge_multiset_source(regions, idp, e);
        lemma_edge_multiset_source(regions, idq, e);
        let k1 = choose|j: int| 0 <= j < idp.len() && #[trigger] regions[idp[j] as int].edges@.contains(e);
        let k2 = choose|j: int| 0 <= j < idq.len() && #[trigger] regions[idq[j] as int].edges@.contains(e);
        let r1 = regions[idp[k1] as int].edges@;
        let r2 = regions[idq[k2] as int].edges@;
        let a = choose|a: int| 0 <= a < r1.len() && r1[a] == e;
        let b = choose|b: int| 0 <= b < r2.len() && r2[b] == e;
        assert(shares_edge(regions[idp[k1] as int], regions[idq[k2] as int]));
    }
    if exists|k1: int, k2: int|
        0 <= k1 < idp.len() && 0 <= k2 < idq.len() && shares_edge(
            regions[idp[k1] as int],
            regions[idq[k2] as int],
        ) {
        let (k1, k2) = choose|k1: int, k2: int|
            0 <= k1 < idp.len() && 0 <= k2 < idq.len() && shares_edge(
                regions[idp[k1] as int],
                regions[idq[k2] as int],
            );
        let (r1, r2) = (idp[k1], idq[k2]);
        let (e1, e2) = (regions[r1 as int].edges@, regions[r2 as int].edges@);
        let (a, b) = choose|a: int, b: int|
            #![trigger e1[a], e2[b]]
            0 <= a < 3 && 0 <= b < 3 && e1[a] == e2[b];
        let e = e1[a];
        assert(e1.contains(e) && e2.contains(e));
        idp.to_multiset_ensures();
        idq.to_multiset_ensures();
        assert(idp.contains(r1) && idq.contains(r2));
        lemma_two_plates_in_multiset(plates, p, q, r1);
        lemma_two_plates_in_multiset(plates, p, q, r2);
        assert(regions_multiset(plates).count(r1) == once_below(r1, n));
        assert(regions_multiset(plates).count(r2) == once_below(r2, n));
        assert((r1 as int) < n && (r2 as int) < n);
        assert(r1 != r2);
        assert(idp.to_multiset().count(r1) == 1 && idq.to_multiset().count(r2) == 1);
        assert(idp.to_multiset().count(r2) == 0 && idq.to_multiset().count(r1) == 0);
        assert(regions[r1 as int].edges@.to_multiset().count(e) == 1);
        assert(regions[r2 as int].edges@.to_multiset().count(e) == 1);
        assert forall|k: int| 0 <= k < idp.len() && idp[k] != r1 implies !(#[trigger] regions[idp[k] as int].edges@.contains(e)) by {
            assert(idp.contains(idp[k]));
            if idp[k] == r2 {
                assert(idp.to_multiset().count(r2) > 0);
            }
            assert((idp[k] as int) < n);
        }
        assert forall|k: int| 0 <= k < idq.len() && idq[k] != r2 implies !(#[trigger] regions[idq[k] as int].edges@.contains(e)) by {
            assert(idq.contains(idq[k]));
            if idq[k] == r1 {
                assert(idq.to_multiset().count(r1) > 0);
            }
            assert((idq[k] as int) < n);
        }
        lemma_edge_count_once(regions, idp, r1, e);
        lemma_edge_count_once(regions, idq, r2, e);
        assert(plates[p].plate_edges@.contains(e));
        assert(plates[q].plate_edges@.contains(e));
    }
}

impl TectonicPlate {
    /// A plate of one region.
    pub fn seeded(
        classification: TectonicPlateClassification,
        region_index: usize,
        region: &Region,
    ) -> (p: TectonicPlate)
        ensures
            p.classification == classification,
            p.contained_regions@ == seq![region_index],
            p.plate_edges@ == odd_keys(region.edges@.to_multiset()),
    {
        let mut plate_edges = ParitySet::new();
        plate_edges.toggle_all(&region.edges);
        proof {
            assert(odd_keys(Multiset::empty()) =~= Set::<u32>::empty());
            lemma_toggle_seq_odd(Multiset::empty(), region.edges@);
            assert(Multiset::<u32>::empty().add(region.edges@.to_multiset()) =~= region.edges@.to_multiset());
        }
        let mut contained_regions = Vec::new();
        contained_regions.push(region_index);
        TectonicPlate { classification, contained_regions, plate_edges }
    }

    /// Adds a region to the plate: its index joins the list and its edges are
    /// toggled into the boundary, so edges shared with the plate drop out.
    pub fn absorb(&mut self, region_index: usize, region: &Region)
        ensures
            final(self).classification == old(self).classification,
            final(self).contained_regions@ == old(self).contained_regions@.push(region_index),
            final(self).plate_edges@ == toggle_seq(old(self).plate_edges@, region.edges@),
    {
        self.contained_regions.push(region_index);
        self.plate_edges.toggle_all(&region.edges);
    }

    /// Whether the two plates' boundaries share an edge.
    pub fn borders(&self, other: &TectonicPlate) -> (r: bool)
        ensures
            r == !self.plate_edges@.disjoint(other.plate_edges@),
    {
        self.plate_edges.intersects(&other.plate_edges)
    }
}

/// The first plate, scanning in `order`, whose boundary touches one of
/// `edges`; `None` if no plate's does.
pub fn first_bordering_plate(plates: &[TectonicPlate], order: &[usize], edges: &[u32]) -> (r: Option<
    usize,
>)
    requires
        forall|k: int| 0 <= k < order.len() ==> (#[trigger] order@[k] as int) < plates.len(),
    ensures
        match r {
            Some(p) => exists|k: int| order@[k] == p && is_first_bordering(plates@, order@, edges@, k),
            None => forall|k: int|
                0 <= k < order.len() ==> !meets(#[trigger] plates@[order@[k] as int].plate_edges@, edges@),
        },
{
    for k in 0..order.len()
        invariant
            forall|k: int| 0 <= k < order.len() ==> (#[trigger] order@[k] as int) < plates.len(),
            forall|k2: int|
                0 <= k2 < k ==> !meets(#[trigger] plates@[order@[k2] as int].plate_edges@, edges@),
    {
        let p = order[k];
        if plates[p].plate_edges.contains_any(edges) {
            assert(is_first_bordering(plates@, order@, edges@, k as int));
            return Some(p);
        }
    }
    None
}

proof fn lemma_insert_front_multiset(q: Seq<usize>, r: usize)
    ensures
        q.insert(0, r).to_multiset() == q.push(r).to_multiset(),
{
    let q2 = q.insert(0, r);
    q.to_multiset_ensures();
    q2.to_multiset_ensures();
    assert(q2.remove(0) == q);
    assert(q2[0] == r);
    assert(q2.to_multiset().count(r) > 0);
    assert(q2.to_multiset() =~= q.to_multiset().insert(r));
}

/// The target count of each index: every region once.
pub open spec fn once_below(r: usize, n: int) -> nat {
    if (r as int) < n {
        1
    } else {
        0
    }
}

/// The plate that region `r` joins grows contiguously and keeps its
/// boundary the parity set of its edges, when some boundary edge is one of
/// the region's.
proof fn lemma_absorb_ok(old_p: TectonicPlate, new_p: TectonicPlate, regions: Seq<Region>, r: usize)
    requires
        plate_ok(old_p, regions),
        (r as int) < regions.len(),
        meets(old_p.plate_edges@, regions[r as int].edges@),
        new_p.contained_regions@ == old_p.contained_regions@.push(r),
        new_p.plate_edges@ == toggle_seq(old_p.plate_edges@, regions[r as int].edges@),
    ensures
        plate_ok(new_p, regions),
{
    let ids = old_p.contained_regions@;
    let ids2 = new_p.contained_regions@;
    let edges = regions[r as int].edges@;
    assert(ids2.drop_last() == ids);
    lemma_toggle_seq_odd(edge_multiset(regions, ids), edges);
    let i = choose|i: int| 0 <= i < edges.len() && old_p.plate_edges@.contains(#[trigger] edges[i]);
    let e = edges[i];
    lemma_edge_multiset_source(regions, ids, e);
    let j = choose|j: int| 0 <= j < ids.len() && #[trigger] regions[ids[j] as int].edges@.contains(e);
    let jj = choose|jj: int| 0 <= jj < regions[ids[j] as int].edges@.len() && regions[ids[j] as int].edges@[jj] == e;
    assert(regions[ids2[ids.len() as int] as int] == regions[r as int]);
    assert(shares_edge(regions[r as int], regions[ids[j] as int]));
    assert(ids2[j] == ids[j]);
    assert forall|k: int| 1 <= k < ids2.len() implies meets(
        odd_keys(edge_multiset(regions, ids2.subrange(0, k))),
        #[trigger] regions[ids2[k] as int].edges@,
    ) by {
        if k < ids.len() {
            assert(ids2.subrange(0, k) == ids.subrange(0, k));
            assert(ids2[k] == ids[k]);
        } else {
            assert(ids2.subrange(0, k) == ids);
        }
    }
    assert forall|k: int| 1 <= k < ids2.len() implies exists|j2: int|
        0 <= j2 < k && shares_edge(#[trigger] regions[ids2[k] as int], regions[ids2[j2] as int]) by {
        if k < ids.len() {
            assert(ids2[k] == ids[k]);
            let j2 = choose|j2: int| 0 <= j2 < k && shares_edge(regions[ids[k] as int], regions[ids[j2] as int]);
            assert(ids2[j2] == ids[j2]);
        } else {
            assert(shares_edge(regions[ids2[k] as int], regions[ids2[j] as int]));
        }
    }
}

/// Partitions the regions into one plate per entry of `classifications`
/// by random region growing.
///
/// The region indices are shuffled; plate `i` takes classification `i` and
/// is seeded with the last index of the shuffled queue, and so on. Then,
/// until the queue is empty, its last region is taken out and given to the
/// first plate, in the current plate order, whose boundary touches it; after
/// each such step the plate order is shuffled. A region that touches no
/// boundary goes back to the front of the queue. When a whole pass over the
/// queue makes no progress the plates can grow no further, and the result
/// is `ClusterError::UnreachableRegions`.
pub fn cluster_regions(
    rng: &mut Pcg32,
    regions: &[Region],
    classifications: &[TectonicPlateClassification],
) -> (res: Result<Vec<TectonicPlate>, ClusterError>)
    requires
        classifications.len() <= regions.len(),
    ensures
        match res {
            Ok(plates) => is_clustering(plates@, regions@, classifications@),
            Err(e) => e == ClusterError::UnreachableRegions && classifications.len() < regions.len(),
        },
        classifications.len() == 0 && regions.len() > 0 ==> res is Err,
        regions_closed(regions@) && regions_connected(regions@) && classifications.len() >= 1
            ==> res is Ok,
{
    let n = regions.len();
    let np = classifications.len();
    let mut queue: Vec<usize> = Vec::new();
    for i in 0..n
        invariant
            queue@.len() == i,
            forall|j: int| 0 <= j < i ==> queue@[j] == j,
    {
        queue.push(i);
    }
    proof {
        lemma_range_multiset(n as nat, queue@);
    }
    shuffle(rng, &mut queue);
    let mut plates: Vec<TectonicPlate> = Vec::new();
    let mut order: Vec<usize> = Vec::new();
    for i in 0..np
        invariant
            n == regions@.len(),
            np == classifications@.len(),
            np <= n,
            plates@.len() == i,
            order@.len() == i,
            forall|j: int| 0 <= j < i ==> order@[j] == j,
            queue@.len() == n - i,
            forall|j: int|
                0 <= j < i ==> (#[trigger] plates@[j]).classification == classifications@[j]
                    && plate_ok(plates@[j], regions@),
            forall|r: usize|
                regions_multiset(plates@).count(r) + #[trigger] queue@.to_multiset().count(r)
                    == once_below(r, n as int),
    {
        let ghost q = queue@;
        let r = queue.pop().unwrap();
        proof {
            q.to_multiset_ensures();
            queue@.to_multiset_ensures();
            assert(q == queue@.push(r));
            assert(q.to_multiset().count(r) > 0) by {
                assert(q[q.len() - 1] == r);
            }
        }
        let plate = TectonicPlate::seeded(classifications[i], r, &regions[r]);
        let ghost before = plates@;
        plates.push(plate);
        order.push(i);
        proof {
            let ids = plate.contained_regions@;
            assert(edge_multiset(regions@, ids) =~= regions@[r as int].edges@.to_multiset()) by {
                assert(ids.drop_last() =~= Seq::<usize>::empty());
                assert(ids.last() == r);
                assert(edge_multiset(regions@, ids.drop_last()) == Multiset::<u32>::empty());
                assert(Multiset::<u32>::empty().add(regions@[r as int].edges@.to_multiset())
                    =~= regions@[r as int].edges@.to_multiset());
            }
            assert(plates@.drop_last() == before);
            Seq::<usize>::empty().to_multiset_ensures();
            assert(ids == Seq::<usize>::empty().push(r));
            assert forall|x: usize| Seq::<usize>::empty().to_multiset().count(x) == 0 by {
                assert(!Seq::<usize>::empty().contains(x));
            }
            assert forall|x: usize|
                regions_multiset(plates@).count(x) + #[trigger] queue@.to_multiset().count(x)
                    == once_below(x, n as int) by {
                assert(q.to_multiset().count(x) == queue@.to_multiset().count(x) + if x == r { 1nat } else { 0nat });
            }
        }
    }
    let mut misses: usize = 0;
    assert forall|p: usize| p < np implies #[trigger] order@.contains(p) by {
        assert(order@[p as int] == p);
    }
    loop
        invariant
            n == regions@.len(),
            np == classifications@.len(),
            plates@.len() == np,
            order@.len() == np,
            forall|k: int| 0 <= k < np ==> (#[trigger] order@[k] as int) < np,
            queue@.len() <= n - np,
            np == 0 ==> queue@.len() == n,
            misses == 0 || misses < queue@.len(),
            forall|p: usize| p < np ==> #[trigger] order@.contains(p),
            forall|x: int, p: int|
                0 <= x < misses && 0 <= p < np ==> !meets(
                    #[trigger] plates@[p].plate_edges@,
                    #[trigger] regions@[queue@[x] as int].edges@,
                ),
            forall|j: int|
                0 <= j < np ==> (#[trigger] plates@[j]).classification == classifications@[j]
                    && plate_ok(plates@[j], regions@),
            forall|r: usize|
                regions_multiset(plates@).count(r) + #[trigger] queue@.to_multiset().count(r)
                    == once_below(r, n as int),
        ensures
            queue@.len() == 0,
            np == 0 ==> n == 0,
            forall|j: int|
                0 <= j < np ==> (#[trigger] plates@[j]).classification == classifications@[j]
                    && plate_ok(plates@[j], regions@),
            forall|r: usize|
                regions_multiset(plates@).count(r) + #[trigger] queue@.to_multiset().count(r)
                    == once_below(r, n as int),
        decreases queue@.len(), queue@.len() - misses,
    {
        let ghost q = queue@;
        let r = match queue.pop() {
            Some(r) => r,
            None => break,
        };
        let ghost q1 = queue@;
        proof {
            q.to_multiset_ensures();
            q1.to_multiset_ensures();
            assert(q == q1.push(r));
            assert(q.to_multiset().count(r) > 0) by {
                assert(q[q.len() - 1] == r);
            }
            assert(q.to_multiset().count(r) == q1.to_multiset().count(r) + 1);
        }
        let found = first_bordering_plate(plates.as_slice(), order.as_slice(), &regions[r].edges);
        match found {
            Some(p) => {
                let ghost before = plates@;
                plates[p].absorb(r, &regions[r]);
                proof {
                    let k = choose|k: int|
                        is_first_bordering(before, order@, regions@[r as int].edges@, k) && order@[k] == p;
                    assert(0 <= k < order@.len());
                    lemma_absorb_ok(before[p as int], plates@[p as int], regions@, r);
                    assert(plates@ == before.update(p as int, plates@[p as int]));
                    lemma_regions_multiset_push(before, p as int, plates@[p as int], r);
                    assert forall|x: usize|
                        regions_multiset(plates@).count(x) + #[trigger] queue@.to_multiset().count(x)
                            == once_below(x, n as int) by {
                        assert(q.to_multiset().count(x) == q1.to_multiset().count(x) + if x == r { 1nat } else { 0nat });
                    }
                    assert forall|j: int| 0 <= j < np implies (#[trigger] plates@[j]).classification
                        == classifications@[j] && plate_ok(plates@[j], regions@) by {
                        if j != p {
                            assert(plates@[j] == before[j]);
                        }
                    }
                }
                let ghost order0 = order@;
                shuffle(rng, &mut order);
                proof {
                    assert forall|k: int| 0 <= k < np implies (#[trigger] order@[k] as int) < np by {
                        lemma_shuffle_contains(order@, order0, order@[k]);
                        assert(order@.contains(order@[k]));
                    }
                    assert forall|pp: usize| pp < np implies #[trigger] order@.contains(pp) by {
                        lemma_shuffle_contains(order@, order0, pp);
                    }
                }
                misses = 0;
            },
            None => {
                proof {
                    assert forall|pp: int| 0 <= pp < np implies !meets(
                        #[trigger] plates@[pp].plate_edges@,
                        regions@[r as int].edges@,
                    ) by {
                        assert(order@.contains(pp as usize));
                        let k = choose|k: int| 0 <= k < order@.len() && order@[k] == pp as usize;
                        assert(!meets(plates@[order@[k] as int].plate_edges@, regions@[r as int].edges@));
                    }
                }
                let ghost misses0 = misses;
                queue.insert(0, r);
                proof {
                    lemma_insert_front_multiset(q1, r);
                }
                misses += 1;
                proof {
                    assert forall|x: int, pp: int| 0 <= x < misses && 0 <= pp < np implies !meets(
                        #[trigger] plates@[pp].plate_edges@,
                        #[trigger] regions@[queue@[x] as int].edges@,
                    ) by {
                        if x > 0 {
                            assert(queue@[x] == q1[x - 1]);
                            assert(q[x - 1] == q1[x - 1]);
                            assert(!meets(plates@[pp].plate_edges@, regions@[q[x - 1] as int].edges@));
                        } else {
                            assert(queue@[0] == r);
                        }
                    }
                }
                if misses >= queue.len() {
                    proof {
                        if regions_closed(regions@) && regions_connected(regions@) && np >= 1 {
                            assert forall|p: int| 0 <= p < plates@.len() implies plate_ok(
                                #[trigger] plates@[p],
                                regions@,
                            ) by {
                                assert(plates@[p].classification == classifications@[p]);
                            }
                            lemma_no_stall(plates@, regions@, queue@);
                        }
                    }
                    return Err(ClusterError::UnreachableRegions);
                }
            },
        }
    }
    proof {
        queue@.to_multiset_ensures();
        assert forall|x: usize| #[trigger]
            regions_multiset(plates@).count(x) == once_below(x, n as int) by {
            assert(!queue@.contains(x));
            assert(queue@.to_multiset().count(x) == 0);
        }
    }
    Ok(plates)
}

} // verus!
