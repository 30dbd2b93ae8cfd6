use crate::edge_key::{edge_key, key_of, lemma_edge_key_canonical};
use crate::surface::{closed_surface, lemma_base_closed};
use crate::surface_step::lemma_subdivision_closed;
use std::collections::HashMap;
use vstd::prelude::*;

verus! {

broadcast use vstd::std_specs::hash::group_hash_axioms;

/// The number of vertices of the icosahedron the sphere starts from.
pub const BASE_VERTEX_COUNT: usize = 12;

/// The deepest subdivision a planet accepts. One level more would give
/// 3 * 20 * 4^6 emitted planet vertices, past what 16-bit indices address.
pub const MAX_SUBDIVISIONS: usize = 5;

/// The deepest subdivision of the mesh itself: 10 * 4^6 + 2 = 40962
/// vertices; one level more needs 163842, past what 16-bit indices address.
pub const MAX_MESH_SUBDIVISIONS: usize = 6;

/// The mesh of a subdivided icosahedron, without coordinates.
///
/// Vertex `i < 12` is corner `i` of the icosahedron; vertex `12 + i` is the
/// midpoint, pushed out to the unit sphere, of the edge `midpoints[i]`, whose
/// two vertices both come before it.
pub struct Icosphere {
    /// For each vertex after the icosahedron's corners, the edge (smaller
    /// vertex first) whose midpoint it is.
    pub midpoints: Vec<(u16, u16)>,
    /// Three vertex indices per triangle, in winding order.
    pub indices: Vec<u16>,
}

/// The view of an [`Icosphere`].
pub struct IcosphereView {
    pub midpoints: Seq<(u16, u16)>,
    pub indices: Seq<u16>,
}

impl View for Icosphere {
    type V = IcosphereView;

    open spec fn view(&self) -> IcosphereView {
        IcosphereView { midpoints: self.midpoints@, indices: self.indices@ }
    }
}

impl IcosphereView {
    pub open spec fn vertex_count(self) -> int {
        BASE_VERTEX_COUNT + self.midpoints.len()
    }

    /// Whole triangles, indices in range, each midpoint made from earlier
    /// vertices, and every vertex addressable with sixteen bits.
    pub open spec fn wf(self) -> bool {
        &&& self.indices.len() % 3 == 0
        &&& self.vertex_count() <= 65536
        &&& forall|j: int| 0 <= j < self.indices.len() ==> self.indices[j] < self.vertex_count()
        &&& forall|i: int|
            0 <= i < self.midpoints.len() ==> #[trigger] self.midpoints[i].0 <= self.midpoints[i].1
                < BASE_VERTEX_COUNT + i
    }
}

/// The triangles of the icosahedron.
pub open spec fn base_indices() -> Seq<u16> {
    seq![
        0u16, 11, 5, 0, 5, 1, 0, 1, 7, 0, 7, 10, 0, 10, 11,
        1, 5, 9, 5, 11, 4, 11, 10, 2, 10, 7, 6, 7, 1, 8,
        3, 9, 4, 3, 4, 2, 3, 2, 6, 3, 6, 8, 3, 8, 9,
        4, 9, 5, 2, 4, 11, 6, 2, 10, 8, 6, 7, 9, 8, 1,
    ]
}

/// `{a, b}` with the smaller index first.
pub open spec fn sorted_pair(a: u16, b: u16) -> (u16, u16) {
    if a <= b {
        (a, b)
    } else {
        (b, a)
    }
}

/// Position of the corner that follows corner `j` around its triangle.
pub open spec fn next_corner(j: int) -> int {
    if j % 3 == 2 {
        j - 2
    } else {
        j + 1
    }
}

/// The edges met walking each triangle's corners in turn: edge `3t + i`
/// joins corner `i` of triangle `t` to the next corner.
pub open spec fn scan_edges(ix: Seq<u16>) -> Seq<(u16, u16)> {
    Seq::new(ix.len(), |j: int| sorted_pair(ix[j], ix[next_corner(j)]))
}

/// The distinct elements of `s`, in the order of their first occurrence.
pub open spec fn first_occurrences<A>(s: Seq<A>) -> Seq<A>
    decreases s.len(),
{
    if s.len() == 0 {
        s
    } else {
        let p = first_occurrences(s.drop_last());
        if p.contains(s.last()) {
            p
        } else {
            p.push(s.last())
        }
    }
}

/// The edges that one subdivision splits, each once, in scan order.
pub open spec fn new_midpoints(ix: Seq<u16>) -> Seq<(u16, u16)> {
    first_occurrences(scan_edges(ix))
}

/// Which edge of the parent triangle slot `s` of its four children takes
/// its midpoint from (slots 0, 4 and 8 hold the parent's corners).
pub open spec fn slot_edge(s: int) -> int {
    if s == 1 || s == 3 || s == 9 {
        0
    } else if s == 5 || s == 7 || s == 10 {
        1
    } else {
        2
    }
}

/// Vertex `s` (of 12) of the four triangles that replace triangle `t`:
/// `(a, m_ab, m_ca)`, `(m_ab, b, m_bc)`, `(m_ca, m_bc, c)`, `(m_ab, m_bc, m_ca)`,
/// where the midpoint of an edge is numbered by its place in `mids`.
pub open spec fn split_vertex(nv: int, mids: Seq<(u16, u16)>, ix: Seq<u16>, t: int, s: int) -> int {
    if s == 0 {
        ix[3 * t] as int
    } else if s == 4 {
        ix[3 * t + 1] as int
    } else if s == 8 {
        ix[3 * t + 2] as int
    } else {
        nv + mids.index_of(scan_edges(ix)[3 * t + slot_edge(s)])
    }
}

/// One level of subdivision: every triangle becomes four, and each edge gets
/// one new vertex at its midpoint, shared by the triangles on both sides.
pub open spec fn subdivision(m: IcosphereView) -> IcosphereView {
    let mids = new_midpoints(m.indices);
    IcosphereView {
        midpoints: m.midpoints + mids,
        indices: Seq::new(
            4 * m.indices.len(),
            |j: int| split_vertex(m.vertex_count(), mids, m.indices, j / 12, j % 12) as u16,
        ),
    }
}

/// The icosahedron subdivided `n` times.
pub open spec fn icosphere_spec(n: nat) -> IcosphereView
    decreases n,
{
    if n == 0 {
        IcosphereView { midpoints: Seq::empty(), indices: base_indices() }
    } else {
        subdivision(icosphere_spec((n - 1) as nat))
    }
}

pub open spec fn pow4(n: nat) -> nat
    decreases n,
{
    if n == 0 {
        1
    } else {
        4 * pow4((n - 1) as nat)
    }
}

/// The cache maps the key of each new midpoint's edge to the midpoint's index.
spec fn cache_tracks(cache: Map<u32, u16>, mids: Seq<(u16, u16)>, nv: int) -> bool {
    &&& mids.no_duplicates()
    &&& forall|i: int|
        0 <= i < mids.len() ==> #[trigger] mids[i].0 <= mids[i].1 && mids[i].1 < nv
    &&& forall|i: int|
        0 <= i < mids.len() ==> cache.contains_key(key_of(#[trigger] mids[i].0 as int, mids[i].1 as int) as u32)
            && cache[key_of(mids[i].0 as int, mids[i].1 as int) as u32] == nv + i
    &&& forall|k: u32|
        cache.contains_key(k) ==> exists|i: int|
            0 <= i < mids.len() && key_of(#[trigger] mids[i].0 as int, mids[i].1 as int) == k
}

proof fn lemma_index_of_unique<A>(s: Seq<A>, i: int)
    requires
        s.no_duplicates(),
        0 <= i < s.len(),
    ensures
        s.index_of(s[i]) == i,
{
    assert(s.contains(s[i]));
}

proof fn lemma_first_occurrences<A>(s: Seq<A>)
    ensures
        first_occurrences(s).no_duplicates(),
        first_occurrences(s).len() <= s.len(),
        forall|x: A| first_occurrences(s).contains(x) <==> s.contains(x),
    decreases s.len(),
{
    if s.len() > 0 {
        let d = s.drop_last();
        lemma_first_occurrences(d);
        assert(s == d.push(s.last()));
        assert forall|x: A| s.contains(x) <==> (d.contains(x) || x == s.last()) by {
            if s.contains(x) {
                let i = choose|i: int| 0 <= i < s.len() && s[i] == x;
                if i < d.len() {
                    assert(d[i] == x);
                }
            }
            if d.contains(x) {
                let i = choose|i: int| 0 <= i < d.len() && d[i] == x;
                assert(s[i] == x);
            }
            if x == s.last() {
                assert(s[s.len() - 1] == x);
            }
        }
        let p = first_occurrences(d);
        if !p.contains(s.last()) {
            assert forall|x: A| p.push(s.last()).contains(x) <==> (p.contains(x) || x == s.last()) by {
                if p.push(s.last()).contains(x) {
                    let i = choose|i: int| 0 <= i < p.len() + 1 && p.push(s.last())[i] == x;
                    if i < p.len() {
                        assert(p[i] == x);
                    }
                }
                if p.contains(x) {
                    let i = choose|i: int| 0 <= i < p.len() && p[i] == x;
                    assert(p.push(s.last())[i] == x);
                }
                if x == s.last() {
                    assert(p.push(s.last())[p.len() as int] == x);
                }
            }
        }
    }
}

/// The index of the midpoint of the edge `{a, b}`: the one already made for
/// that edge, or a new vertex numbered after all others.
fn midpoint_of(
    mids: &mut Vec<(u16, u16)>,
    cache: &mut HashMap<u32, u16>,
    nv: usize,
    a: u16,
    b: u16,
) -> (m: u16)
    requires
        cache_tracks(old(cache)@, old(mids)@, nv as int),
        !old(mids)@.contains(sorted_pair(a, b)) ==> nv + old(mids)@.len() < 65536,
        (a as int) < nv,
        (b as int) < nv,
    ensures
        final(mids)@ == if old(mids)@.contains(sorted_pair(a, b)) {
            old(mids)@
        } else {
            old(mids)@.push(sorted_pair(a, b))
        },
        cache_tracks(final(cache)@, final(mids)@, nv as int),
        final(mids)@.contains(sorted_pair(a, b)),
        m as int == nv + final(mids)@.index_of(sorted_pair(a, b)),
{
    let ghost e = sorted_pair(a, b);
    let k = edge_key(a, b);
    let found = cache.get(&k);
    match found {
        Some(m) => {
            let m = *m;
            proof {
                let i = choose|i: int|
                    0 <= i < mids@.len() && key_of(#[trigger] mids@[i].0 as int, mids@[i].1 as int)
                        == k;
                lemma_edge_key_canonical(a, b, mids@[i].0, mids@[i].1);
                assert(mids@[i] == e);
                lemma_index_of_unique(mids@, i);
            }
            m
        },
        None => {
            let (lo, hi) = if a <= b {
                (a, b)
            } else {
                (b, a)
            };
            let m = (nv + mids.len()) as u16;
            proof {
                if mids@.contains(e) {
                    let i = choose|i: int| 0 <= i < mids@.len() && mids@[i] == e;
                    assert(key_of(mids@[i].0 as int, mids@[i].1 as int) == k);
                }
            }
            let ghost before = mids@;
            mids.push((lo, hi));
            cache.insert(k, m);
            proof {
                lemma_index_of_unique(mids@, before.len() as int);
                assert forall|i: int| 0 <= i < mids@.len() implies cache@.contains_key(
                    key_of(#[trigger] mids@[i].0 as int, mids@[i].1 as int) as u32,
                ) && cache@[key_of(mids@[i].0 as int, mids@[i].1 as int) as u32] == nv + i by {
                    if i < before.len() {
                        assert(mids@[i] == before[i]);
                        lemma_edge_key_canonical(a, b, before[i].0, before[i].1);
                    }
                }
                assert forall|kk: u32| cache@.contains_key(kk) implies exists|i: int|
                    0 <= i < mids@.len() && key_of(#[trigger] mids@[i].0 as int, mids@[i].1 as int)
                        == kk by {
                    if kk == k {
                        assert(key_of(mids@[before.len() as int].0 as int, mids@[before.len() as int].1 as int) == kk);
                    } else {
                        let i = choose|i: int|
                            0 <= i < before.len() && key_of(#[trigger] before[i].0 as int, before[i].1 as int)
                                == kk;
                        assert(mids@[i] == before[i]);
                    }
                }
            }
            m
        },
    }
}

proof fn lemma_index_of_prefix<A>(s1: Seq<A>, s2: Seq<A>, x: A)
    requires
        s2.no_duplicates(),
        s1.len() <= s2.len(),
        s2.subrange(0, s1.len() as int) == s1,
        s1.contains(x),
    ensures
        s2.index_of(x) == s1.index_of(x),
        0 <= s1.index_of(x) < s1.len(),
        s1[s1.index_of(x)] == x,
{
    let i = s1.index_of(x);
    assert(s2[i] == s1[i]);
    lemma_index_of_unique(s2, i);
}

/// A vertex of a child triangle is numbered the same against any extension
/// of the midpoint list that already holds its edge.
proof fn lemma_split_vertex_stable(
    nv: int,
    m1: Seq<(u16, u16)>,
    m2: Seq<(u16, u16)>,
    ix: Seq<u16>,
    t: int,
    s: int,
)
    requires
        m2.no_duplicates(),
        m1.len() <= m2.len(),
        m2.subrange(0, m1.len() as int) == m1,
        0 <= s < 12,
        0 <= t,
        3 * t + 2 < ix.len(),
        m1.contains(scan_edges(ix)[3 * t + slot_edge(s)]),
    ensures
        split_vertex(nv, m1, ix, t, s) == split_vertex(nv, m2, ix, t, s),
        s != 0 && s != 4 && s != 8 ==> nv <= split_vertex(nv, m1, ix, t, s) < nv + m1.len(),
{
    lemma_index_of_prefix(m1, m2, scan_edges(ix)[3 * t + slot_edge(s)]);
}

/// Extending the child list by the four children of triangle `t` keeps
/// the earlier children's numbering once the midpoint list grows.
proof fn lemma_split_step(
    nv: int,
    m0: Seq<(u16, u16)>,
    m3: Seq<(u16, u16)>,
    ix: Seq<u16>,
    out0: Seq<u16>,
    out: Seq<u16>,
    t: int,
)
    requires
        0 <= t,
        3 * t + 2 < ix.len(),
        m3.no_duplicates(),
        m0.len() <= m3.len(),
        m3.subrange(0, m0.len() as int) == m0,
        forall|e: (u16, u16)| scan_edges(ix).subrange(0, 3 * t).contains(e) ==> m0.contains(e),
        out0.len() == 12 * t,
        out.len() == 12 * t + 12,
        out.subrange(0, 12 * t) == out0,
        forall|j: int|
            0 <= j < 12 * t ==> #[trigger] out0[j] as int == split_vertex(nv, m0, ix, j / 12, j % 12)
                && out0[j] < nv + m0.len(),
        forall|k: int|
            0 <= k < 12 ==> #[trigger] out[12 * t + k] as int == split_vertex(nv, m3, ix, t, k)
                && out[12 * t + k] < nv + m3.len(),
    ensures
        forall|j: int|
            0 <= j < 12 * t + 12 ==> #[trigger] out[j] as int == split_vertex(nv, m3, ix, j / 12, j % 12)
                && out[j] < nv + m3.len(),
{
    let scan = scan_edges(ix);
    assert forall|j: int| 0 <= j < 12 * t + 12 implies #[trigger] out[j] as int == split_vertex(
        nv,
        m3,
        ix,
        j / 12,
        j % 12,
    ) && out[j] < nv + m3.len() by {
        let tt = j / 12;
        let ss = j % 12;
        assert(j == 12 * tt + ss && 0 <= ss < 12) by (nonlinear_arith)
            requires
                0 <= j,
                tt == j / 12,
                ss == j % 12,
        ;
        if j < 12 * t {
            assert(0 <= tt < t) by (nonlinear_arith)
                requires
                    j == 12 * tt + ss,
                    0 <= ss < 12,
                    0 <= j < 12 * t,
            ;
            assert(out[j] == out0[j]);
            let e = 3 * tt + slot_edge(ss);
            assert(scan.subrange(0, 3 * t)[e] == scan[e]);
            assert(scan.subrange(0, 3 * t).contains(scan[e]));
            if ss != 0 && ss != 4 && ss != 8 {
                lemma_split_vertex_stable(nv, m0, m3, ix, tt, ss);
            }
        } else {
            assert(tt == t) by (nonlinear_arith)
                requires
                    j == 12 * tt + ss,
                    0 <= ss < 12,
                    j >= 12 * t,
                    j < 12 * (t + 1),
            ;
            assert(out[12 * t + ss] as int == split_vertex(nv, m3, ix, t, ss));
        }
    }
}

/// `m` with `e` added at the end unless it is already there.
spec fn with_edge(m: Seq<(u16, u16)>, e: (u16, u16)) -> Seq<(u16, u16)> {
    if m.contains(e) {
        m
    } else {
        m.push(e)
    }
}

/// The twelve entries that replace triangle `(a, b, c)`.
spec fn children(a: u16, b: u16, c: u16, m_ab: u16, m_bc: u16, m_ca: u16) -> Seq<u16> {
    seq![a, m_ab, m_ca, m_ab, b, m_bc, m_ca, m_bc, c, m_ab, m_bc, m_ca]
}

/// Appends the four triangles that replace `(a, b, c)`, making the midpoints
/// of its edges that do not exist yet.
fn split_triangle(
    mids: &mut Vec<(u16, u16)>,
    cache: &mut HashMap<u32, u16>,
    out: &mut Vec<u16>,
    nv: usize,
    a: u16,
    b: u16,
    c: u16,
)
    requires
        cache_tracks(old(cache)@, old(mids)@, nv as int),
        nv + with_edge(
            with_edge(with_edge(old(mids)@, sorted_pair(a, b)), sorted_pair(b, c)),
            sorted_pair(c, a),
        ).len() <= 65536,
        (a as int) < nv,
        (b as int) < nv,
        (c as int) < nv,
    ensures
        final(mids)@ == with_edge(
            with_edge(with_edge(old(mids)@, sorted_pair(a, b)), sorted_pair(b, c)),
            sorted_pair(c, a),
        ),
        cache_tracks(final(cache)@, final(mids)@, nv as int),
        final(out)@ == old(out)@ + children(
            a,
            b,
            c,
            (nv + final(mids)@.index_of(sorted_pair(a, b))) as u16,
            (nv + final(mids)@.index_of(sorted_pair(b, c))) as u16,
            (nv + final(mids)@.index_of(sorted_pair(c, a))) as u16,
        ),
        final(mids)@.contains(sorted_pair(a, b)),
        final(mids)@.contains(sorted_pair(b, c)),
        final(mids)@.contains(sorted_pair(c, a)),
{
    let m_ab = midpoint_of(mids, cache, nv, a, b);
    let ghost m1 = mids@;
    let m_bc = midpoint_of(mids, cache, nv, b, c);
    let ghost m2 = mids@;
    let m_ca = midpoint_of(mids, cache, nv, c, a);
    proof {
        let m3 = mids@;
        assert(m3.subrange(0, m1.len() as int) == m1);
        assert(m3.subrange(0, m2.len() as int) == m2);
        assert(m3.subrange(0, m3.len() as int) == m3);
        lemma_index_of_prefix(m1, m3, sorted_pair(a, b));
        lemma_index_of_prefix(m2, m3, sorted_pair(b, c));
    }
    let ghost out0 = out@;
    out.push(a);
    out.push(m_ab);
    out.push(m_ca);
    out.push(m_ab);
    out.push(b);
    out.push(m_bc);
    out.push(m_ca);
    out.push(m_bc);
    out.push(c);
    out.push(m_ab);
    out.push(m_bc);
    out.push(m_ca);
    assert(out@ =~= out0 + children(a, b, c, m_ab, m_bc, m_ca));
}

/// The distinct elements of `s`, each once, in order of first occurrence.
pub proof fn lemma_first_occurrences_pub<A>(s: Seq<A>)
    ensures
        first_occurrences(s).no_duplicates(),
        first_occurrences(s).len() <= s.len(),
        forall|x: A| first_occurrences(s).contains(x) <==> s.contains(x),
{
    lemma_first_occurrences(s);
}

proof fn lemma_first_occurrences_push<A>(s: Seq<A>, x: A)
    ensures
        first_occurrences(s.push(x)) == if first_occurrences(s).contains(x) {
            first_occurrences(s)
        } else {
            first_occurrences(s).push(x)
        },
{
    assert(s.push(x).drop_last() == s);
}

/// After triangle `t` is split, the midpoint list is that of the scan up to
/// its last edge, and every child entry so far is numbered by that list.
proof fn lemma_triangle_step(
    nv: int,
    m0: Seq<(u16, u16)>,
    m3: Seq<(u16, u16)>,
    ix: Seq<u16>,
    out0: Seq<u16>,
    out: Seq<u16>,
    t: int,
)
    requires
        0 <= t,
        3 * t + 2 < ix.len(),
        m0 == first_occurrences(scan_edges(ix).subrange(0, 3 * t)),
        m3.no_duplicates(),
        m3 == with_edge(
            with_edge(with_edge(m0, sorted_pair(ix[3 * t], ix[3 * t + 1])), sorted_pair(ix[3 * t + 1], ix[3 * t + 2])),
            sorted_pair(ix[3 * t + 2], ix[3 * t]),
        ),
        m3.contains(sorted_pair(ix[3 * t], ix[3 * t + 1])),
        m3.contains(sorted_pair(ix[3 * t + 1], ix[3 * t + 2])),
        m3.contains(sorted_pair(ix[3 * t + 2], ix[3 * t])),
        out0.len() == 12 * t,
        forall|j: int|
            0 <= j < 12 * t ==> #[trigger] out0[j] as int == split_vertex(nv, m0, ix, j / 12, j % 12)
                && out0[j] < nv + m0.len(),
        out == out0 + children(
            ix[3 * t],
            ix[3 * t + 1],
            ix[3 * t + 2],
            (nv + m3.index_of(sorted_pair(ix[3 * t], ix[3 * t + 1]))) as u16,
            (nv + m3.index_of(sorted_pair(ix[3 * t + 1], ix[3 * t + 2]))) as u16,
            (nv + m3.index_of(sorted_pair(ix[3 * t + 2], ix[3 * t]))) as u16,
        ),
        nv + m3.len() <= 65536,
        ix[3 * t] < nv,
        ix[3 * t + 1] < nv,
        ix[3 * t + 2] < nv,
    ensures
        m3 == first_occurrences(scan_edges(ix).subrange(0, 3 * t + 3)),
        forall|j: int|
            0 <= j < 12 * t + 12 ==> #[trigger] out[j] as int == split_vertex(nv, m3, ix, j / 12, j % 12)
                && out[j] < nv + m3.len(),
{
    let scan = scan_edges(ix);
    let a = ix[3 * t];
    let b = ix[3 * t + 1];
    let c = ix[3 * t + 2];
    let pre = scan.subrange(0, 3 * t);
    assert(scan[3 * t] == sorted_pair(a, b));
    assert(scan[3 * t + 1] == sorted_pair(b, c));
    assert(scan[3 * t + 2] == sorted_pair(c, a));
    assert(scan.subrange(0, 3 * t + 1) == pre.push(scan[3 * t]));
    assert(scan.subrange(0, 3 * t + 2) == scan.subrange(0, 3 * t + 1).push(scan[3 * t + 1]));
    assert(scan.subrange(0, 3 * t + 3) == scan.subrange(0, 3 * t + 2).push(scan[3 * t + 2]));
    lemma_first_occurrences_push(pre, scan[3 * t]);
    lemma_first_occurrences_push(scan.subrange(0, 3 * t + 1), scan[3 * t + 1]);
    lemma_first_occurrences_push(scan.subrange(0, 3 * t + 2), scan[3 * t + 2]);
    assert(m3.subrange(0, m0.len() as int) == m0);
    lemma_first_occurrences(pre);
    let m_ab = (nv + m3.index_of(sorted_pair(a, b))) as u16;
    let m_bc = (nv + m3.index_of(sorted_pair(b, c))) as u16;
    let m_ca = (nv + m3.index_of(sorted_pair(c, a))) as u16;
    assert(m3.subrange(0, m3.len() as int) == m3);
    lemma_index_of_prefix(m3, m3, sorted_pair(a, b));
    lemma_index_of_prefix(m3, m3, sorted_pair(b, c));
    lemma_index_of_prefix(m3, m3, sorted_pair(c, a));
    assert forall|k: int| 0 <= k < 12 implies #[trigger] out[12 * t + k] as int == split_vertex(
        nv,
        m3,
        ix,
        t,
        k,
    ) && out[12 * t + k] < nv + m3.len() by {
        assert(out[12 * t + k] == children(a, b, c, m_ab, m_bc, m_ca)[k]);
        assert(m_ab as int == nv + m3.index_of(scan[3 * t]));
        assert(m_bc as int == nv + m3.index_of(scan[3 * t + 1]));
        assert(m_ca as int == nv + m3.index_of(scan[3 * t + 2]));
        assert(ix[3 * t] < nv && ix[3 * t + 1] < nv && ix[3 * t + 2] < nv);
    }
    assert(out.subrange(0, 12 * t) == out0);
    lemma_split_step(nv, m0, m3, ix, out0, out, t);
}

proof fn lemma_first_occurrences_prefix_len<A>(s: Seq<A>, k: int)
    requires
        0 <= k <= s.len(),
    ensures
        first_occurrences(s.subrange(0, k)).len() <= first_occurrences(s).len(),
    decreases s.len() - k,
{
    if k == s.len() {
        assert(s.subrange(0, k) == s);
    } else {
        assert(s.subrange(0, k + 1) == s.subrange(0, k).push(s[k]));
        lemma_first_occurrences_push(s.subrange(0, k), s[k]);
        lemma_first_occurrences_prefix_len(s, k + 1);
    }
}

/// The midpoint list after triangle `t` is the one before it with the
/// triangle's three edges added in turn.
proof fn lemma_scan_step(ix: Seq<u16>, t: int)
    requires
        0 <= t,
        3 * t + 2 < ix.len(),
    ensures
        first_occurrences(scan_edges(ix).subrange(0, 3 * t + 3)) == with_edge(
            with_edge(
                with_edge(
                    first_occurrences(scan_edges(ix).subrange(0, 3 * t)),
                    sorted_pair(ix[3 * t], ix[3 * t + 1]),
                ),
                sorted_pair(ix[3 * t + 1], ix[3 * t + 2]),
            ),
            sorted_pair(ix[3 * t + 2], ix[3 * t]),
        ),
{
    let scan = scan_edges(ix);
    let pre = scan.subrange(0, 3 * t);
    assert(scan[3 * t] == sorted_pair(ix[3 * t], ix[3 * t + 1]));
    assert(scan[3 * t + 1] == sorted_pair(ix[3 * t + 1], ix[3 * t + 2]));
    assert(scan[3 * t + 2] == sorted_pair(ix[3 * t + 2], ix[3 * t]));
    assert(scan.subrange(0, 3 * t + 1) == pre.push(scan[3 * t]));
    assert(scan.subrange(0, 3 * t + 2) == scan.subrange(0, 3 * t + 1).push(scan[3 * t + 1]));
    assert(scan.subrange(0, 3 * t + 3) == scan.subrange(0, 3 * t + 2).push(scan[3 * t + 2]));
    lemma_first_occurrences_push(pre, scan[3 * t]);
    lemma_first_occurrences_push(scan.subrange(0, 3 * t + 1), scan[3 * t + 1]);
    lemma_first_occurrences_push(scan.subrange(0, 3 * t + 2), scan[3 * t + 2]);
}

/// The distinct elements of `s` are as many as its first occurrences.
proof fn lemma_distinct_edge_count<A>(s: Seq<A>)
    ensures
        first_occurrences(s).len() == s.to_set().len(),
{
    let f = first_occurrences(s);
    lemma_first_occurrences(s);
    f.unique_seq_to_set();
    assert(f.to_set() =~= s.to_set());
}

impl Icosphere {
    /// Splits every triangle into four through the midpoints of its edges.
    /// Each edge's midpoint is made once, when the scan first meets the edge,
    /// and shared by the triangles on both sides.
    pub fn subdivide(&mut self)
        requires
            old(self)@.wf(),
            old(self)@.vertex_count() + new_midpoints(old(self)@.indices).len() <= 65536,
        ensures
            final(self)@ == subdivision(old(self)@),
            final(self)@.wf(),
            final(self)@.vertex_count() == old(self)@.vertex_count() + scan_edges(
                old(self)@.indices,
            ).to_set().len(),
            final(self)@.indices.len() == 4 * old(self)@.indices.len(),
            closed_surface(old(self)@.indices) ==> closed_surface(final(self)@.indices),
            closed_surface(old(self)@.indices) ==> final(self)@.vertex_count()
                == old(self)@.vertex_count() + old(self)@.indices.len() / 2,
    {
        let nv: usize = BASE_VERTEX_COUNT + self.midpoints.len();
        let mut cache: HashMap<u32, u16> = HashMap::new();
        let mut mids: Vec<(u16, u16)> = Vec::new();
        let mut out: Vec<u16> = Vec::new();
        let ntri: usize = self.indices.len() / 3;
        let ghost ix = self.indices@;
        let ghost scan = scan_edges(ix);
        proof {
            assert(scan.subrange(0, 0) =~= Seq::<(u16, u16)>::empty());
        }
        for t in 0..ntri
            invariant
                self@ == old(self)@,
                ix == self.indices@,
                scan == scan_edges(ix),
                3 * ntri == ix.len(),
                nv == BASE_VERTEX_COUNT + self.midpoints@.len(),
                nv + first_occurrences(scan).len() <= 65536,
                ix.len() <= usize::MAX,
                forall|j: int| 0 <= j < ix.len() ==> ix[j] < nv,
                mids@ == first_occurrences(scan.subrange(0, 3 * t)),
                cache_tracks(cache@, mids@, nv as int),
                mids@.len() <= 3 * t,
                out@.len() == 12 * t,
                forall|j: int|
                    0 <= j < 12 * t ==> #[trigger] out@[j] as int == split_vertex(
                        nv as int,
                        mids@,
                        ix,
                        j / 12,
                        j % 12,
                    ) && out@[j] < nv + mids@.len(),
        {
            let a = self.indices[3 * t];
            let b = self.indices[3 * t + 1];
            let c = self.indices[3 * t + 2];
            let ghost m0 = mids@;
            let ghost out0 = out@;
            proof {
                lemma_scan_step(ix, t as int);
                lemma_first_occurrences_prefix_len(scan, 3 * t + 3);
            }
            split_triangle(&mut mids, &mut cache, &mut out, nv, a, b, c);
            proof {
                lemma_triangle_step(nv as int, m0, mids@, ix, out0, out@, t as int);
            }
        }
        proof {
            assert(scan.subrange(0, 3 * ntri as int) == scan);
            lemma_first_occurrences(scan);
            lemma_distinct_edge_count(scan);
        }
        let ghost old_view = self@;
        let ghost mids_v = mids@;
        let ghost out_v = out@;
        self.midpoints.append(&mut mids);
        self.indices = out;
        proof {
            let target = subdivision(old_view);
            assert(self@.indices.len() == 12 * ntri);
            assert((12 * ntri) % 3 == 0) by (nonlinear_arith);
            assert(self@.vertex_count() <= 65536);
            assert forall|j: int| 0 <= j < self@.indices.len() implies self@.indices[j]
                < self@.vertex_count() by {
                assert(out_v[j] < nv + mids_v.len());
            }
            assert(self@.indices.len() == target.indices.len());
            assert forall|j: int| 0 <= j < self@.indices.len() implies self@.indices[j]
                == target.indices[j] by {
                assert(out_v[j] as int == split_vertex(nv as int, mids_v, ix, j / 12, j % 12));
            }
            assert(self@.indices =~= target.indices);
            assert forall|i: int| 0 <= i < self@.midpoints.len() implies #[trigger] self@.midpoints[i].0
                <= self@.midpoints[i].1 < BASE_VERTEX_COUNT + i by {
                if i >= old_view.midpoints.len() {
                    let k = i - old_view.midpoints.len();
                    assert(self@.midpoints[i] == mids_v[k]);
                    assert(mids_v[k].0 <= mids_v[k].1 && mids_v[k].1 < nv);
                } else {
                    assert(self@.midpoints[i] == old_view.midpoints[i]);
                    assert(old_view.midpoints[i].0 <= old_view.midpoints[i].1 < BASE_VERTEX_COUNT + i);
                }
            }
            assert(self@.wf());
            if closed_surface(old_view.indices) {
                assert(self@ == subdivision(old_view));
                lemma_subdivision_closed(old_view);
                crate::surface::lemma_closed_edge_count(old_view.indices);
                lemma_distinct_edge_count(scan_edges(old_view.indices));
            }
        }
    }
}

/// Building the mesh twice at the same depth gives the same mesh, vertex
/// for vertex and index for index: it depends on the depth alone.
pub proof fn lemma_icosphere_deterministic(n: nat, a: IcosphereView, b: IcosphereView)
    requires
        a == icosphere_spec(n),
        b == icosphere_spec(n),
    ensures
        a.midpoints == b.midpoints,
        a.indices == b.indices,
{
}

pub proof fn lemma_pow4_positive(k: nat)
    ensures
        pow4(k) >= 1,
    decreases k,
{
    if k > 0 {
        lemma_pow4_positive((k - 1) as nat);
    }
}

proof fn lemma_pow4_small(k: nat)
    requires
        k <= 5,
    ensures
        pow4(k) <= 1024,
{
    reveal_with_fuel(pow4, 6);
}

/// The icosahedron's mesh, subdivided `subdivisions` times: `20 * 4^n`
/// triangles over `10 * 4^n + 2` vertices.
pub fn subdivided_icosahedron(subdivisions: usize) -> (m: Icosphere)
    requires
        subdivisions <= MAX_MESH_SUBDIVISIONS,
    ensures
        m@ == icosphere_spec(subdivisions as nat),
        m@.vertex_count() == 10 * pow4(subdivisions as nat) + 2,
        m@.wf(),
        m@.indices.len() == 60 * pow4(subdivisions as nat),
        closed_surface(m@.indices),
{
    let indices: Vec<u16> = vec![
        0, 11, 5, 0, 5, 1, 0, 1, 7, 0, 7, 10, 0, 10, 11,
        1, 5, 9, 5, 11, 4, 11, 10, 2, 10, 7, 6, 7, 1, 8,
        3, 9, 4, 3, 4, 2, 3, 2, 6, 3, 6, 8, 3, 8, 9,
        4, 9, 5, 2, 4, 11, 6, 2, 10, 8, 6, 7, 9, 8, 1,
    ];
    let mut m = Icosphere { midpoints: Vec::new(), indices };
    assert(m@.indices =~= base_indices());
    assert(m@ == icosphere_spec(0));
    proof {
        lemma_base_closed();
    }
    for k in 0..subdivisions
        invariant
            subdivisions <= MAX_MESH_SUBDIVISIONS,
            closed_surface(m@.indices),
            m@ == icosphere_spec(k as nat),
            m@.wf(),
            m@.indices.len() == 60 * pow4(k as nat),
            m@.vertex_count() == 10 * pow4(k as nat) + 2,
    {
        proof {
            lemma_pow4_small(k as nat);
        }
        let ghost before = m@;
        proof {
            lemma_distinct_edge_count(scan_edges(before.indices));
            crate::surface::lemma_closed_edge_count(before.indices);
        }
        m.subdivide();
        proof {
            assert(pow4((k + 1) as nat) == 4 * pow4(k as nat));
        }
    }
    m
}

} // verus!
