use crate::edge_key::{key_of, lemma_edge_key_canonical};
use crate::icosphere::{base_indices, next_corner, scan_edges, sorted_pair};
use crate::regions::{
    crossed, is_triangle_region, regions_closed, regions_connected, regions_of_mesh, shares_edge,
    splits, Region,
};
use vstd::prelude::*;

verus! {

/// Every triangle has three distinct corners: no edge joins a vertex to itself.
pub open spec fn proper_edges(ix: Seq<u16>) -> bool {
    forall|j: int| 0 <= j < ix.len() ==> (#[trigger] scan_edges(ix)[j]).0 != scan_edges(ix)[j].1
}

/// Edge slot `k` is the one other slot, in another triangle, with the edge of slot `j`.
pub open spec fn twin_of(ix: Seq<u16>, j: int, k: int) -> bool {
    &&& 0 <= k < ix.len()
    &&& k / 3 != j / 3
    &&& scan_edges(ix)[k] == scan_edges(ix)[j]
    &&& forall|l: int|
        0 <= l < ix.len() && #[trigger] scan_edges(ix)[l] == scan_edges(ix)[j] ==> l == j || l == k
}

pub open spec fn has_twin(ix: Seq<u16>, j: int) -> bool {
    exists|k: int| twin_of(ix, j, k)
}

/// Each edge lies on exactly two triangles.
pub open spec fn edges_paired(ix: Seq<u16>) -> bool {
    forall|j: int| 0 <= j < ix.len() ==> #[trigger] has_twin(ix, j)
}

/// Two triangles that share two different edges are the same triangle.
pub open spec fn share_at_most_one(ix: Seq<u16>) -> bool {
    forall|j1: int, j2: int, k1: int, k2: int|
        #![trigger scan_edges(ix)[j1], scan_edges(ix)[j2], scan_edges(ix)[k1], scan_edges(ix)[k2]]
        0 <= j1 < ix.len() && 0 <= j2 < ix.len() && 0 <= k1 < ix.len() && 0 <= k2 < ix.len()
            && j1 / 3 == j2 / 3 && j1 != j2 && k1 / 3 == k2 / 3 && scan_edges(ix)[j1] == scan_edges(
            ix,
        )[k1] && scan_edges(ix)[j2] == scan_edges(ix)[k2] ==> j1 / 3 == k1 / 3
}

/// `s` holds some triangle of `ix` and misses another.
pub open spec fn tri_splits(ix: Seq<u16>, s: Set<int>) -> bool {
    &&& exists|t: int| 0 <= t < ix.len() / 3 && s.contains(t)
    &&& exists|t: int| 0 <= t < ix.len() / 3 && !s.contains(t)
}

/// A triangle inside `s` shares an edge with one outside it.
pub open spec fn tri_crossed(ix: Seq<u16>, s: Set<int>) -> bool {
    exists|j: int, k: int|
        0 <= j < ix.len() && 0 <= k < ix.len() && s.contains(j / 3) && !s.contains(k / 3)
            && scan_edges(ix)[j] == scan_edges(ix)[k]
}

/// The triangles form one piece.
pub open spec fn tris_connected(ix: Seq<u16>) -> bool {
    forall|s: Set<int>| #[trigger] tri_splits(ix, s) ==> tri_crossed(ix, s)
}

/// A closed, connected triangulated surface: whole triangles with distinct
/// corners, each edge on exactly two of them, no two sharing two edges.
pub open spec fn closed_surface(ix: Seq<u16>) -> bool {
    &&& ix.len() % 3 == 0
    &&& proper_edges(ix)
    &&& edges_paired(ix)
    &&& share_at_most_one(ix)
    &&& tris_connected(ix)
}

/// Triangles `t` and `u` share an edge.
pub open spec fn tris_adjacent(ix: Seq<u16>, t: int, u: int) -> bool {
    exists|a: int, b: int|
        #![trigger scan_edges(ix)[3 * t + a], scan_edges(ix)[3 * u + b]]
        0 <= a < 3 && 0 <= b < 3 && scan_edges(ix)[3 * t + a] == scan_edges(ix)[3 * u + b]
}

pub open spec fn listed(ord: spec_fn(int) -> int, n: int, t: int) -> bool {
    exists|k: int| 0 <= k < n && #[trigger] ord(k) == t
}

/// If the triangles can be listed so that each one after the first shares an
/// edge with an earlier one, they form one piece.
proof fn lemma_connected_by_order(ix: Seq<u16>, ord: spec_fn(int) -> int, par: spec_fn(int) -> int, n: int)
    requires
        n >= 1,
        ix.len() / 3 == n,
        forall|k: int| 0 <= k < n ==> 0 <= #[trigger] ord(k) < n,
        forall|t: int| 0 <= t < n ==> #[trigger] listed(ord, n, t),
        forall|k: int|
            1 <= k < n ==> 0 <= #[trigger] par(k) < k && tris_adjacent(ix, ord(k), ord(par(k))),
    ensures
        tris_connected(ix),
{
    assert forall|s: Set<int>| #[trigger] tri_splits(ix, s) implies tri_crossed(ix, s) by {
        let b0 = s.contains(ord(0));
        if !tri_crossed(ix, s) {
            lemma_uniform_prefix(ix, ord, par, n, s, n - 1);
            let t1 = choose|t: int| 0 <= t < n && s.contains(t);
            let t2 = choose|t: int| 0 <= t < n && !s.contains(t);
            assert(listed(ord, n, t1));
            assert(listed(ord, n, t2));
            let k1 = choose|k: int| 0 <= k < n && #[trigger] ord(k) == t1;
            let k2 = choose|k: int| 0 <= k < n && #[trigger] ord(k) == t2;
            assert(s.contains(ord(k1)) == b0);
            assert(s.contains(ord(k2)) == b0);
        }
    }
}

proof fn lemma_uniform_prefix(
    ix: Seq<u16>,
    ord: spec_fn(int) -> int,
    par: spec_fn(int) -> int,
    n: int,
    s: Set<int>,
    k: int,
)
    requires
        0 <= k < n,
        ix.len() / 3 == n,
        forall|k: int| 0 <= k < n ==> 0 <= #[trigger] ord(k) < n,
        forall|k: int|
            1 <= k < n ==> 0 <= #[trigger] par(k) < k && tris_adjacent(ix, ord(k), ord(par(k))),
        !tri_crossed(ix, s),
    ensures
        forall|k2: int| 0 <= k2 <= k ==> s.contains(#[trigger] ord(k2)) == s.contains(ord(0)),
    decreases k,
{
    if k > 0 {
        lemma_uniform_prefix(ix, ord, par, n, s, k - 1);
        let p = par(k);
        let t = ord(k);
        let u = ord(p);
        let (a, b) = choose|a: int, b: int|
            #![trigger scan_edges(ix)[3 * t + a], scan_edges(ix)[3 * u + b]]
            0 <= a < 3 && 0 <= b < 3 && scan_edges(ix)[3 * t + a] == scan_edges(ix)[3 * u + b];
        let j = 3 * ord(k) + a;
        let jj = 3 * ord(p) + b;
        assert(j / 3 == ord(k));
        assert(jj / 3 == ord(p));
        assert(s.contains(ord(p)) == s.contains(ord(0)));
        if s.contains(ord(k)) != s.contains(ord(0)) {
            if s.contains(ord(k)) {
                assert(tri_crossed(ix, s));
            } else {
                assert(tri_crossed(ix, s));
            }
        }
    }
}

spec fn base_edge(j: int) -> (u16, u16) {
    if j == 0 {
        (0u16, 11u16)
    } else if j == 1 {
        (5u16, 11u16)
    } else if j == 2 {
        (0u16, 5u16)
    } else if j == 3 {
        (0u16, 5u16)
    } else if j == 4 {
        (1u16, 5u16)
    } else if j == 5 {
        (0u16, 1u16)
    } else if j == 6 {
        (0u16, 1u16)
    } else if j == 7 {
        (1u16, 7u16)
    } else if j == 8 {
        (0u16, 7u16)
    } else if j == 9 {
        (0u16, 7u16)
    } else if j == 10 {
        (7u16, 10u16)
    } else if j == 11 {
        (0u16, 10u16)
    } else if j == 12 {
        (0u16, 10u16)
    } else if j == 13 {
        (10u16, 11u16)
    } else if j == 14 {
        (0u16, 11u16)
    } else if j == 15 {
        (1u16, 5u16)
    } else if j == 16 {
        (5u16, 9u16)
    } else if j == 17 {
        (1u16, 9u16)
    } else if j == 18 {
        (5u16, 11u16)
    } else if j == 19 {
        (4u16, 11u16)
    } else if j == 20 {
        (4u16, 5u16)
    } else if j == 21 {
        (10u16, 11u16)
    } else if j == 22 {
        (2u16, 10u16)
    } else if j == 23 {
        (2u16, 11u16)
    } else if j == 24 {
        (7u16, 10u16)
    } else if j == 25 {
        (6u16, 7u16)
    } else if j == 26 {
        (6u16, 10u16)
    } else if j == 27 {
        (1u16, 7u16)
    } else if j == 28 {
        (1u16, 8u16)
    } else if j == 29 {
        (7u16, 8u16)
    } else if j == 30 {
        (3u16, 9u16)
    } else if j == 31 {
        (4u16, 9u16)
    } else if j == 32 {
        (3u16, 4u16)
    } else if j == 33 {
        (3u16, 4u16)
    } else if j == 34 {
        (2u16, 4u16)
    } else if j == 35 {
        (2u16, 3u16)
    } else if j == 36 {
        (2u16, 3u16)
    } else if j == 37 {
        (2u16, 6u16)
    } else if j == 38 {
        (3u16, 6u16)
    } else if j == 39 {
        (3u16, 6u16)
    } else if j == 40 {
        (6u16, 8u16)
    } else if j == 41 {
        (3u16, 8u16)
    } else if j == 42 {
        (3u16, 8u16)
    } else if j == 43 {
        (8u16, 9u16)
    } else if j == 44 {
        (3u16, 9u16)
    } else if j == 45 {
        (4u16, 9u16)
    } else if j == 46 {
        (5u16, 9u16)
    } else if j == 47 {
        (4u16, 5u16)
    } else if j == 48 {
        (2u16, 4u16)
    } else if j == 49 {
        (4u16, 11u16)
    } else if j == 50 {
        (2u16, 11u16)
    } else if j == 51 {
        (2u16, 6u16)
    } else if j == 52 {
        (2u16, 10u16)
    } else if j == 53 {
        (6u16, 10u16)
    } else if j == 54 {
        (6u16, 8u16)
    } else if j == 55 {
        (6u16, 7u16)
    } else if j == 56 {
        (7u16, 8u16)
    } else if j == 57 {
        (8u16, 9u16)
    } else if j == 58 {
        (1u16, 8u16)
    } else {
        (1u16, 9u16)
    }
}

spec fn base_twin(j: int) -> int {
    if j == 0 {
        14
    } else if j == 1 {
        18
    } else if j == 2 {
        3
    } else if j == 3 {
        2
    } else if j == 4 {
        15
    } else if j == 5 {
        6
    } else if j == 6 {
        5
    } else if j == 7 {
        27
    } else if j == 8 {
        9
    } else if j == 9 {
        8
    } else if j == 10 {
        24
    } else if j == 11 {
        12
    } else if j == 12 {
        11
    } else if j == 13 {
        21
    } else if j == 14 {
        0
    } else if j == 15 {
        4
    } else if j == 16 {
        46
    } else if j == 17 {
        59
    } else if j == 18 {
        1
    } else if j == 19 {
        49
    } else if j == 20 {
        47
    } else if j == 21 {
        13
    } else if j == 22 {
        52
    } else if j == 23 {
        50
    } else if j == 24 {
        10
    } else if j == 25 {
        55
    } else if j == 26 {
        53
    } else if j == 27 {
        7
    } else if j == 28 {
        58
    } else if j == 29 {
        56
    } else if j == 30 {
        44
    } else if j == 31 {
        45
    } else if j == 32 {
        33
    } else if j == 33 {
        32
    } else if j == 34 {
        48
    } else if j == 35 {
        36
    } else if j == 36 {
        35
    } else if j == 37 {
        51
    } else if j == 38 {
        39
    } else if j == 39 {
        38
    } else if j == 40 {
        54
    } else if j == 41 {
        42
    } else if j == 42 {
        41
    } else if j == 43 {
        57
    } else if j == 44 {
        30
    } else if j == 45 {
        31
    } else if j == 46 {
        16
    } else if j == 47 {
        20
    } else if j == 48 {
        34
    } else if j == 49 {
        19
    } else if j == 50 {
        23
    } else if j == 51 {
        37
    } else if j == 52 {
        22
    } else if j == 53 {
        26
    } else if j == 54 {
        40
    } else if j == 55 {
        25
    } else if j == 56 {
        29
    } else if j == 57 {
        43
    } else if j == 58 {
        28
    } else {
        17
    }
}

spec fn base_order(j: int) -> int {
    if j == 0 {
        0
    } else if j == 1 {
        1
    } else if j == 2 {
        4
    } else if j == 3 {
        6
    } else if j == 4 {
        2
    } else if j == 5 {
        5
    } else if j == 6 {
        3
    } else if j == 7 {
        7
    } else if j == 8 {
        15
    } else if j == 9 {
        16
    } else if j == 10 {
        9
    } else if j == 11 {
        19
    } else if j == 12 {
        8
    } else if j == 13 {
        17
    } else if j == 14 {
        10
    } else if j == 15 {
        11
    } else if j == 16 {
        18
    } else if j == 17 {
        14
    } else if j == 18 {
        12
    } else {
        13
    }
}

spec fn base_parent(j: int) -> int {
    if j == 0 {
        0
    } else if j == 1 {
        0
    } else if j == 2 {
        0
    } else if j == 3 {
        0
    } else if j == 4 {
        1
    } else if j == 5 {
        1
    } else if j == 6 {
        2
    } else if j == 7 {
        2
    } else if j == 8 {
        3
    } else if j == 9 {
        3
    } else if j == 10 {
        4
    } else if j == 11 {
        5
    } else if j == 12 {
        6
    } else if j == 13 {
        7
    } else if j == 14 {
        8
    } else if j == 15 {
        9
    } else if j == 16 {
        10
    } else if j == 17 {
        11
    } else if j == 18 {
        13
    } else {
        16
    }
}

proof fn lemma_base_scan()
    ensures
        forall|j: int| 0 <= j < 60 ==> #[trigger] scan_edges(base_indices())[j] == base_edge(j),
{
    let ix = base_indices();
    assert forall|j: int| 0 <= j < 60 implies #[trigger] scan_edges(base_indices())[j] == base_edge(j) by {
        if j == 0 {
            assert(ix[0] == 0u16 && ix[1] == 11u16);
        } else if j == 1 {
            assert(ix[1] == 11u16 && ix[2] == 5u16);
        } else if j == 2 {
            assert(ix[2] == 5u16 && ix[0] == 0u16);
        } else if j == 3 {
            assert(ix[3] == 0u16 && ix[4] == 5u16);
        } else if j == 4 {
            assert(ix[4] == 5u16 && ix[5] == 1u16);
        } else if j == 5 {
            assert(ix[5] == 1u16 && ix[3] == 0u16);
        } else if j == 6 {
            assert(ix[6] == 0u16 && ix[7] == 1u16);
        } else if j == 7 {
            assert(ix[7] == 1u16 && ix[8] == 7u16);
        } else if j == 8 {
            assert(ix[8] == 7u16 && ix[6] == 0u16);
        } else if j == 9 {
            assert(ix[9] == 0u16 && ix[10] == 7u16);
        } else if j == 10 {
            assert(ix[10] == 7u16 && ix[11] == 10u16);
        } else if j == 11 {
            assert(ix[11] == 10u16 && ix[9] == 0u16);
        } else if j == 12 {
            assert(ix[12] == 0u16 && ix[13] == 10u16);
        } else if j == 13 {
            assert(ix[13] == 10u16 && ix[14] == 11u16);
        } else if j == 14 {
            assert(ix[14] == 11u16 && ix[12] == 0u16);
        } else if j == 15 {
            assert(ix[15] == 1u16 && ix[16] == 5u16);
        } else if j == 16 {
            assert(ix[16] == 5u16 && ix[17] == 9u16);
        } else if j == 17 {
            assert(ix[17] == 9u16 && ix[15] == 1u16);
        } else if j == 18 {
            assert(ix[18] == 5u16 && ix[19] == 11u16);
        } else if j == 19 {
            assert(ix[19] == 11u16 && ix[20] == 4u16);
        } else if j == 20 {
            assert(ix[20] == 4u16 && ix[18] == 5u16);
        } else if j == 21 {
            assert(ix[21] == 11u16 && ix[22] == 10u16);
        } else if j == 22 {
            assert(ix[22] == 10u16 && ix[23] == 2u16);
        } else if j == 23 {
            assert(ix[23] == 2u16 && ix[21] == 11u16);
        } else if j == 24 {
            assert(ix[24] == 10u16 && ix[25] == 7u16);
        } else if j == 25 {
            assert(ix[25] == 7u16 && ix[26] == 6u16);
        } else if j == 26 {
            assert(ix[26] == 6u16 && ix[24] == 10u16);
        } else if j == 27 {
            assert(ix[27] == 7u16 && ix[28] == 1u16);
        } else if j == 28 {
            assert(ix[28] == 1u16 && ix[29] == 8u16);
        } else if j == 29 {
            assert(ix[29] == 8u16 && ix[27] == 7u16);
        } else if j == 30 {
            assert(ix[30] == 3u16 && ix[31] == 9u16);
        } else if j == 31 {
            assert(ix[31] == 9u16 && ix[32] == 4u16);
        } else if j == 32 {
            assert(ix[32] == 4u16 && ix[30] == 3u16);
        } else if j == 33 {
            assert(ix[33] == 3u16 && ix[34] == 4u16);
        } else if j == 34 {
            assert(ix[34] == 4u16 && ix[35] == 2u16);
        } else if j == 35 {
            assert(ix[35] == 2u16 && ix[33] == 3u16);
        } else if j == 36 {
            assert(ix[36] == 3u16 && ix[37] == 2u16);
        } else if j == 37 {
            assert(ix[37] == 2u16 && ix[38] == 6u16);
        } else if j == 38 {
            assert(ix[38] == 6u16 && ix[36] == 3u16);
        } else if j == 39 {
            assert(ix[39] == 3u16 && ix[40] == 6u16);
        } else if j == 40 {
            assert(ix[40] == 6u16 && ix[41] == 8u16);
        } else if j == 41 {
            assert(ix[41] == 8u16 && ix[39] == 3u16);
        } else if j == 42 {
            assert(ix[42] == 3u16 && ix[43] == 8u16);
        } else if j == 43 {
            assert(ix[43] == 8u16 && ix[44] == 9u16);
        } else if j == 44 {
            assert(ix[44] == 9u16 && ix[42] == 3u16);
        } else if j == 45 {
            assert(ix[45] == 4u16 && ix[46] == 9u16);
        } else if j == 46 {
            assert(ix[46] == 9u16 && ix[47] == 5u16);
        } else if j == 47 {
            assert(ix[47] == 5u16 && ix[45] == 4u16);
        } else if j == 48 {
            assert(ix[48] == 2u16 && ix[49] == 4u16);
        } else if j == 49 {
            assert(ix[49] == 4u16 && ix[50] == 11u16);
        } else if j == 50 {
            assert(ix[50] == 11u16 && ix[48] == 2u16);
        } else if j == 51 {
            assert(ix[51] == 6u16 && ix[52] == 2u16);
        } else if j == 52 {
            assert(ix[52] == 2u16 && ix[53] == 10u16);
        } else if j == 53 {
            assert(ix[53] == 10u16 && ix[51] == 6u16);
        } else if j == 54 {
            assert(ix[54] == 8u16 && ix[55] == 6u16);
        } else if j == 55 {
            assert(ix[55] == 6u16 && ix[56] == 7u16);
        } else if j == 56 {
            assert(ix[56] == 7u16 && ix[54] == 8u16);
        } else if j == 57 {
            assert(ix[57] == 9u16 && ix[58] == 8u16);
        } else if j == 58 {
            assert(ix[58] == 8u16 && ix[59] == 1u16);
        } else if j == 59 {
            assert(ix[59] == 1u16 && ix[57] == 9u16);
        }
    }
}

/// The icosahedron is a closed, connected surface.
pub proof fn lemma_base_closed()
    ensures
        closed_surface(base_indices()),
{
    lemma_base_paired();
    lemma_base_share_one();
    lemma_base_connected();
    lemma_base_scan();
    let ix = base_indices();
    assert forall|j: int| 0 <= j < ix.len() implies (#[trigger] scan_edges(ix)[j]).0 != scan_edges(ix)[j].1 by {
        assert(scan_edges(ix)[j] == base_edge(j));
    }
}

#[verifier::rlimit(50)]
proof fn lemma_base_paired()
    ensures
        edges_paired(base_indices()),
{
    let ix = base_indices();
    lemma_base_scan();
    assert(ix.len() == 60);
    assert forall|j: int| 0 <= j < 60 implies #[trigger] has_twin(ix, j) by {
        assert(twin_of(ix, j, base_twin(j)));
    }
}

#[verifier::rlimit(50)]
proof fn lemma_base_share_one()
    ensures
        share_at_most_one(base_indices()),
{
    let ix = base_indices();
    lemma_base_scan();
    lemma_base_paired();
    assert(ix.len() == 60);
    assert forall|j1: int, j2: int, k1: int, k2: int|
        #![trigger scan_edges(ix)[j1], scan_edges(ix)[j2], scan_edges(ix)[k1], scan_edges(ix)[k2]]
        0 <= j1 < ix.len() && 0 <= j2 < ix.len() && 0 <= k1 < ix.len() && 0 <= k2 < ix.len()
            && j1 / 3 == j2 / 3 && j1 != j2 && k1 / 3 == k2 / 3 && scan_edges(ix)[j1] == scan_edges(
            ix,
        )[k1] && scan_edges(ix)[j2] == scan_edges(ix)[k2] implies j1 / 3 == k1 / 3 by {
        if j1 / 3 != k1 / 3 {
            assert(twin_of(ix, j1, base_twin(j1)));
            assert(twin_of(ix, j2, base_twin(j2)));
            assert(k1 == base_twin(j1));
            assert(k2 == base_twin(j2));
        }
    }
}

proof fn lemma_base_connected()
    ensures
        tris_connected(base_indices()),
{
    let ix = base_indices();
    lemma_base_scan();
    lemma_base_paired();
    assert(ix.len() == 60);
    let ord = |k: int| base_order(k);
    let par = |k: int| base_parent(k);
    assert forall|t: int| 0 <= t < 20 implies #[trigger] listed(ord, 20, t) by {
        let k = if t == 0 { 0 } else if t == 1 { 1 } else if t == 2 { 4 } else if t == 3 { 6 }
            else if t == 4 { 2 } else if t == 5 { 5 } else if t == 6 { 3 } else if t == 7 { 7 }
            else if t == 8 { 12 } else if t == 9 { 10 } else if t == 10 { 14 } else if t == 11 { 15 }
            else if t == 12 { 18 } else if t == 13 { 19 } else if t == 14 { 17 } else if t == 15 { 8 }
            else if t == 16 { 9 } else if t == 17 { 13 } else if t == 18 { 16 } else { 11 };
        assert(ord(k) == t);
    }
    assert forall|k: int| 1 <= k < 20 implies 0 <= #[trigger] par(k) < k && tris_adjacent(ix, ord(k), ord(par(k))) by {
        if k == 1 {
            assert(twin_of(ix, 3, 2));
            assert(scan_edges(ix)[3 * 1int + 0] == scan_edges(ix)[3 * 0int + 2]);
        } else if k == 2 {
            assert(twin_of(ix, 14, 0));
            assert(scan_edges(ix)[3 * 4int + 2] == scan_edges(ix)[3 * 0int + 0]);
        } else if k == 3 {
            assert(twin_of(ix, 18, 1));
            assert(scan_edges(ix)[3 * 6int + 0] == scan_edges(ix)[3 * 0int + 1]);
        } else if k == 4 {
            assert(twin_of(ix, 6, 5));
            assert(scan_edges(ix)[3 * 2int + 0] == scan_edges(ix)[3 * 1int + 2]);
        } else if k == 5 {
            assert(twin_of(ix, 15, 4));
            assert(scan_edges(ix)[3 * 5int + 0] == scan_edges(ix)[3 * 1int + 1]);
        } else if k == 6 {
            assert(twin_of(ix, 11, 12));
            assert(scan_edges(ix)[3 * 3int + 2] == scan_edges(ix)[3 * 4int + 0]);
        } else if k == 7 {
            assert(twin_of(ix, 21, 13));
            assert(scan_edges(ix)[3 * 7int + 0] == scan_edges(ix)[3 * 4int + 1]);
        } else if k == 8 {
            assert(twin_of(ix, 47, 20));
            assert(scan_edges(ix)[3 * 15int + 2] == scan_edges(ix)[3 * 6int + 2]);
        } else if k == 9 {
            assert(twin_of(ix, 49, 19));
            assert(scan_edges(ix)[3 * 16int + 1] == scan_edges(ix)[3 * 6int + 1]);
        } else if k == 10 {
            assert(twin_of(ix, 27, 7));
            assert(scan_edges(ix)[3 * 9int + 0] == scan_edges(ix)[3 * 2int + 1]);
        } else if k == 11 {
            assert(twin_of(ix, 59, 17));
            assert(scan_edges(ix)[3 * 19int + 2] == scan_edges(ix)[3 * 5int + 2]);
        } else if k == 12 {
            assert(twin_of(ix, 24, 10));
            assert(scan_edges(ix)[3 * 8int + 0] == scan_edges(ix)[3 * 3int + 1]);
        } else if k == 13 {
            assert(twin_of(ix, 52, 22));
            assert(scan_edges(ix)[3 * 17int + 1] == scan_edges(ix)[3 * 7int + 1]);
        } else if k == 14 {
            assert(twin_of(ix, 31, 45));
            assert(scan_edges(ix)[3 * 10int + 1] == scan_edges(ix)[3 * 15int + 0]);
        } else if k == 15 {
            assert(twin_of(ix, 34, 48));
            assert(scan_edges(ix)[3 * 11int + 1] == scan_edges(ix)[3 * 16int + 0]);
        } else if k == 16 {
            assert(twin_of(ix, 56, 29));
            assert(scan_edges(ix)[3 * 18int + 2] == scan_edges(ix)[3 * 9int + 2]);
        } else if k == 17 {
            assert(twin_of(ix, 43, 57));
            assert(scan_edges(ix)[3 * 14int + 1] == scan_edges(ix)[3 * 19int + 0]);
        } else if k == 18 {
            assert(twin_of(ix, 37, 51));
            assert(scan_edges(ix)[3 * 12int + 1] == scan_edges(ix)[3 * 17int + 0]);
        } else if k == 19 {
            assert(twin_of(ix, 40, 54));
            assert(scan_edges(ix)[3 * 13int + 1] == scan_edges(ix)[3 * 18int + 0]);
        }
    }
    lemma_connected_by_order(ix, ord, par, 20);
}


/// The key of an edge given as a pair of vertices.
spec fn key_pair(p: (u16, u16)) -> u32 {
    key_of(p.0 as int, p.1 as int) as u32
}

proof fn lemma_key_pair_injective(p: (u16, u16), q: (u16, u16))
    requires
        p.0 <= p.1,
        q.0 <= q.1,
        key_pair(p) == key_pair(q),
    ensures
        p == q,
{
    let (a, b, c, d) = (p.0 as int, p.1 as int, q.0 as int, q.1 as int);
    assert(0 <= a * 65536 + b < 0x1_0000_0000) by (nonlinear_arith)
        requires 0 <= a <= b < 65536;
    assert(0 <= c * 65536 + d < 0x1_0000_0000) by (nonlinear_arith)
        requires 0 <= c <= d < 65536;
    assert(key_of(a, b) == key_of(c, d));
    lemma_edge_key_canonical(p.0, p.1, q.0, q.1);
}

proof fn lemma_region_edge(regions: Seq<Region>, ix: Seq<u16>, t: int, s: int)
    requires
        regions_of_mesh(regions, ix),
        ix.len() % 3 == 0,
        0 <= t < regions.len(),
        0 <= s < 3,
    ensures
        regions[t].edges@[s] == key_pair(scan_edges(ix)[3 * t + s]),
        (scan_edges(ix)[3 * t + s]).0 <= (scan_edges(ix)[3 * t + s]).1,
{
    assert(is_triangle_region(regions[t], ix, t));
    let (a, b, c) = (ix[3 * t], ix[3 * t + 1], ix[3 * t + 2]);
    lemma_edge_key_canonical(a, b, b, a);
    lemma_edge_key_canonical(b, c, c, b);
    lemma_edge_key_canonical(c, a, a, c);
    assert(next_corner(3 * t) == 3 * t + 1);
    assert(next_corner(3 * t + 1) == 3 * t + 2);
    assert(next_corner(3 * t + 2) == 3 * t);
}

proof fn lemma_count_one(sq: Seq<u32>, s: int, e: u32)
    requires
        sq.len() == 3,
        0 <= s < 3,
        sq[s] == e,
        forall|s2: int| 0 <= s2 < 3 && s2 != s ==> sq[s2] != e,
    ensures
        sq.to_multiset().count(e) == 1,
{
    let s0 = Seq::<u32>::empty();
    let s1 = s0.push(sq[0]);
    let s2 = s1.push(sq[1]);
    assert(sq =~= s2.push(sq[2]));
    s0.to_multiset_ensures();
    s1.to_multiset_ensures();
    s2.to_multiset_ensures();
    assert(s0.to_multiset().count(e) == 0) by {
        assert(!s0.contains(e));
    }
}

/// The regions of a closed, connected surface are closed and connected.
pub proof fn lemma_regions_of_closed_surface(regions: Seq<Region>, ix: Seq<u16>)
    requires
        regions_of_mesh(regions, ix),
        closed_surface(ix),
    ensures
        regions_closed(regions),
        regions_connected(regions),
{
    let n = regions.len() as int;
    assert forall|i: int, j: int, e: u32|
        0 <= i < n && 0 <= j < n && i != j && #[trigger] regions[i].edges@.contains(e)
            && #[trigger] regions[j].edges@.contains(e) implies regions[i].edges@.to_multiset().count(e)
        == 1 && forall|r: int|
        0 <= r < n && r != i && r != j ==> !(#[trigger] regions[r].edges@.contains(e)) by {
        let si = choose|si: int| 0 <= si < regions[i].edges@.len() && regions[i].edges@[si] == e;
        let sj = choose|sj: int| 0 <= sj < regions[j].edges@.len() && regions[j].edges@[sj] == e;
        assert(regions[i].edges@.len() == 3);
        assert(regions[j].edges@.len() == 3);
        lemma_region_edge(regions, ix, i, si);
        lemma_region_edge(regions, ix, j, sj);
        let ji = 3 * i + si;
        let jj = 3 * j + sj;
        lemma_key_pair_injective(scan_edges(ix)[ji], scan_edges(ix)[jj]);
        assert(has_twin(ix, ji));
        let k = choose|k: int| twin_of(ix, ji, k);
        assert(ji / 3 == i && jj / 3 == j);
        assert(scan_edges(ix)[jj] == scan_edges(ix)[ji]);
        assert(jj == k);
        assert forall|s2: int| 0 <= s2 < 3 && s2 != si implies regions[i].edges@[s2] != e by {
            lemma_region_edge(regions, ix, i, s2);
            if regions[i].edges@[s2] == e {
                lemma_key_pair_injective(scan_edges(ix)[3 * i + s2], scan_edges(ix)[ji]);
                assert(scan_edges(ix)[3 * i + s2] == scan_edges(ix)[ji]);
                assert((3 * i + s2) / 3 == i);
            }
        }
        lemma_count_one(regions[i].edges@, si, e);
        assert forall|r: int| 0 <= r < n && r != i && r != j implies !(#[trigger] regions[r].edges@.contains(e)) by {
            if regions[r].edges@.contains(e) {
                let sr = choose|sr: int| 0 <= sr < regions[r].edges@.len() && regions[r].edges@[sr] == e;
                assert(regions[r].edges@.len() == 3);
                lemma_region_edge(regions, ix, r, sr);
                lemma_key_pair_injective(scan_edges(ix)[3 * r + sr], scan_edges(ix)[ji]);
                assert(scan_edges(ix)[3 * r + sr] == scan_edges(ix)[ji]);
                assert((3 * r + sr) / 3 == r);
            }
        }
    }
    assert forall|s: Set<int>| #[trigger] splits(regions, s) implies crossed(regions, s) by {
        assert(tri_splits(ix, s));
        let (j, k) = choose|j: int, k: int|
            0 <= j < ix.len() && 0 <= k < ix.len() && s.contains(j / 3) && !s.contains(k / 3)
                && scan_edges(ix)[j] == scan_edges(ix)[k];
        let (tj, sj, tk, sk) = (j / 3, j % 3, k / 3, k % 3);
        assert(j == 3 * tj + sj && k == 3 * tk + sk);
        lemma_region_edge(regions, ix, tj, sj);
        lemma_region_edge(regions, ix, tk, sk);
        assert(regions[tj].edges@[sj] == regions[tk].edges@[sk]);
        assert(shares_edge(regions[tj], regions[tk]));
    }
}


/// Position `j` of `s` holds a value found at exactly one other position.
pub open spec fn pair_at<A>(s: Seq<A>, j: int) -> bool {
    exists|k: int| #[trigger] partner(s, j, k)
}

/// Position `k` is the one other position holding the value at `j`.
pub open spec fn partner<A>(s: Seq<A>, j: int, k: int) -> bool {
    &&& 0 <= k < s.len()
    &&& k != j
    &&& s[k] == s[j]
    &&& forall|l: int| 0 <= l < s.len() && #[trigger] s[l] == s[j] ==> l == j || l == k
}

/// Every value of `s` occurs exactly twice.
pub open spec fn paired_seq<A>(s: Seq<A>) -> bool {
    forall|j: int| 0 <= j < s.len() ==> #[trigger] pair_at(s, j)
}

/// A sequence whose values each occur exactly twice holds half as many
/// distinct values as positions.
pub proof fn lemma_paired_len<A>(s: Seq<A>)
    requires
        paired_seq(s),
    ensures
        s.len() == 2 * s.to_set().len(),
    decreases s.len(),
{
    broadcast use vstd::seq_lib::seq_to_set_is_finite;

    if s.len() == 0 {
        assert(s.to_set() =~= Set::<A>::empty());
    } else {
        let n = s.len() as int;
        let x = s[n - 1];
        assert(pair_at(s, n - 1));
        let k = choose|k: int| #[trigger] partner(s, n - 1, k);
        let s2 = s.subrange(0, k) + s.subrange(k + 1, n - 1);
        assert(s2.len() == n - 2);
        assert forall|i: int| 0 <= i < s2.len() implies s2[i] == s[if i < k { i } else { i + 1 }] && s2[i] != x by {
            let j = if i < k { i } else { i + 1 };
            if i < k {
                assert(s2[i] == s[i]);
            } else {
                assert(s2[i] == s[i + 1]);
            }
            if s[j] == x {
                assert(s[j] == s[n - 1]);
            }
        }
        assert forall|i: int| 0 <= i < s2.len() implies #[trigger] pair_at(s2, i) by {
            let j = if i < k { i } else { i + 1 };
            assert(s2[i] == s[j]);
            assert(pair_at(s, j));
            let p = choose|p: int| #[trigger] partner(s, j, p);
            assert(p != k && p != n - 1) by {
                if p == k || p == n - 1 {
                    assert(s[j] == x);
                    assert(s[j] == s[n - 1]);
                }
            }
            let p2 = if p < k { p } else { p - 1 };
            assert(s2[p2] == s[p]);
            assert forall|l: int| 0 <= l < s2.len() && #[trigger] s2[l] == s2[i] implies l == i || l == p2 by {
                let lj = if l < k { l } else { l + 1 };
                assert(s2[l] == s[lj]);
                assert(s[lj] == s[j]);
            }
            assert(partner(s2, i, p2));
        }
        lemma_paired_len(s2);
        assert(s2.to_set() =~= s.to_set().remove(x)) by {
            assert forall|y: A| s.to_set().remove(x).contains(y) implies s2.to_set().contains(y) by {
                let i = choose|i: int| 0 <= i < s.len() && s[i] == y;
                assert(i != k && i != n - 1) by {
                    if i == k || i == n - 1 {
                        assert(s[i] == x);
                    }
                }
                let i2 = if i < k { i } else { i - 1 };
                assert(s2[i2] == y);
            }
            assert forall|y: A| s2.to_set().contains(y) implies s.to_set().remove(x).contains(y) by {
                let i = choose|i: int| 0 <= i < s2.len() && s2[i] == y;
                let j = if i < k { i } else { i + 1 };
                assert(s[j] == y);
            }
        }
        assert(s.to_set().contains(x)) by {
            assert(s[n - 1] == x);
        }
    }
}

/// On a closed surface the distinct edges are half the edge slots.
pub proof fn lemma_closed_edge_count(ix: Seq<u16>)
    requires
        closed_surface(ix),
    ensures
        ix.len() == 2 * scan_edges(ix).to_set().len(),
{
    let sc = scan_edges(ix);
    assert forall|j: int| 0 <= j < sc.len() implies #[trigger] pair_at(sc, j) by {
        assert(has_twin(ix, j));
        let k = choose|k: int| twin_of(ix, j, k);
        assert(k != j);
        assert forall|l: int| 0 <= l < sc.len() && #[trigger] sc[l] == sc[j] implies l == j || l == k by {
            assert(scan_edges(ix)[l] == scan_edges(ix)[j]);
        }
        assert(partner(sc, j, k));
    }
    lemma_paired_len(sc);
}


/// Region `i` borders exactly the three distinct regions `a`, `b` and `c`.
pub open spec fn borders_exactly(regions: Seq<Region>, i: int, a: int, b: int, c: int) -> bool {
    let n = regions.len() as int;
    &&& 0 <= a < n && 0 <= b < n && 0 <= c < n
    &&& a != b && b != c && a != c && a != i && b != i && c != i
    &&& shares_edge(regions[i], regions[a])
    &&& shares_edge(regions[i], regions[b])
    &&& shares_edge(regions[i], regions[c])
    &&& forall|j: int|
        0 <= j < n && j != i && #[trigger] shares_edge(regions[i], regions[j]) ==> j == a || j == b
            || j == c
}

/// Region `i` has exactly three neighbours.
pub open spec fn three_neighbours(regions: Seq<Region>, i: int) -> bool {
    exists|a: int, b: int, c: int| #[trigger] borders_exactly(regions, i, a, b, c)
}

/// On a closed surface every region has exactly three neighbours, one
/// across each edge.
pub proof fn lemma_three_neighbours(regions: Seq<Region>, ix: Seq<u16>, i: int)
    requires
        regions_of_mesh(regions, ix),
        closed_surface(ix),
        0 <= i < regions.len(),
    ensures
        three_neighbours(regions, i),
{
    let n = regions.len() as int;
    assert(has_twin(ix, 3 * i));
    assert(has_twin(ix, 3 * i + 1));
    assert(has_twin(ix, 3 * i + 2));
    let (j0, j1, j2) = (3 * i, 3 * i + 1, 3 * i + 2);
    let k0 = choose|k: int| twin_of(ix, j0, k);
    let k1 = choose|k: int| twin_of(ix, j1, k);
    let k2 = choose|k: int| twin_of(ix, j2, k);
    let (a, b, c) = (k0 / 3, k1 / 3, k2 / 3);
    assert((3 * i) / 3 == i && (3 * i + 1) / 3 == i && (3 * i + 2) / 3 == i);
    assert(k0 == 3 * a + k0 % 3 && k1 == 3 * b + k1 % 3 && k2 == 3 * c + k2 % 3);
    lemma_region_edge(regions, ix, i, 0);
    lemma_region_edge(regions, ix, i, 1);
    lemma_region_edge(regions, ix, i, 2);
    lemma_region_edge(regions, ix, a, k0 % 3);
    lemma_region_edge(regions, ix, b, k1 % 3);
    lemma_region_edge(regions, ix, c, k2 % 3);
    assert(regions[i].edges@[0] == regions[a].edges@[k0 % 3]);
    assert(regions[i].edges@[1] == regions[b].edges@[k1 % 3]);
    assert(regions[i].edges@[2] == regions[c].edges@[k2 % 3]);
    assert(a != b && b != c && a != c) by {
        if a == b {
            assert(scan_edges(ix)[3 * i] == scan_edges(ix)[k0]);
            assert(scan_edges(ix)[3 * i + 1] == scan_edges(ix)[k1]);
        }
        if b == c {
            assert(scan_edges(ix)[3 * i + 1] == scan_edges(ix)[k1]);
            assert(scan_edges(ix)[3 * i + 2] == scan_edges(ix)[k2]);
        }
        if a == c {
            assert(scan_edges(ix)[3 * i] == scan_edges(ix)[k0]);
            assert(scan_edges(ix)[3 * i + 2] == scan_edges(ix)[k2]);
        }
    }
    assert forall|j: int| 0 <= j < n && j != i && #[trigger] shares_edge(regions[i], regions[j]) implies j
        == a || j == b || j == c by {
        let (si, sj) = choose|si: int, sj: int|
            #![trigger regions[i].edges@[si], regions[j].edges@[sj]]
            0 <= si < 3 && 0 <= sj < 3 && regions[i].edges@[si] == regions[j].edges@[sj];
        lemma_region_edge(regions, ix, i, si);
        lemma_region_edge(regions, ix, j, sj);
        lemma_key_pair_injective(scan_edges(ix)[3 * i + si], scan_edges(ix)[3 * j + sj]);
        assert(scan_edges(ix)[3 * j + sj] == scan_edges(ix)[3 * i + si]);
        assert((3 * j + sj) / 3 == j);
    }
    assert(borders_exactly(regions, i, a, b, c));
}

} // verus!
