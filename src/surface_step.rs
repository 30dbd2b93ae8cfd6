use crate::icosphere::{
    new_midpoints, next_corner, scan_edges, slot_edge, sorted_pair, split_vertex, subdivision,
    IcosphereView,
};
use crate::surface::{
    closed_surface, edges_paired, has_twin, proper_edges, share_at_most_one, tri_crossed, tri_splits,
    tris_connected, twin_of,
};
use vstd::prelude::*;

verus! {

/// The new vertex at the midpoint of edge `e`.
spec fn nmid(m: IcosphereView, e: (u16, u16)) -> u16 {
    (m.vertex_count() + new_midpoints(m.indices).index_of(e)) as u16
}

/// End `side` (0: start, 1: finish) of edge slot `k`.
spec fn endp(ix: Seq<u16>, k: int, side: int) -> u16 {
    if side == 0 {
        ix[k]
    } else {
        ix[next_corner(k)]
    }
}

/// Slots of the four children that run from a parent's corner to the
/// midpoint of one of its edges.
spec fn is_half(s: int) -> bool {
    s == 0 || s == 2 || s == 3 || s == 4 || s == 7 || s == 8
}

/// For such a slot, the parent's edge it halves.
spec fn hq(s: int) -> int {
    if s == 0 || s == 3 {
        0
    } else if s == 4 || s == 7 {
        1
    } else {
        2
    }
}

/// For such a slot, the end of the parent's edge it keeps.
spec fn hside(s: int) -> int {
    if s == 0 || s == 4 || s == 8 {
        0
    } else {
        1
    }
}

/// For the other slots, the two parent edges whose midpoints they join.
spec fn ia(s: int) -> int {
    if s == 1 || s == 9 {
        0
    } else if s == 5 || s == 10 {
        1
    } else {
        2
    }
}

spec fn ib(s: int) -> int {
    if s == 5 || s == 11 {
        0
    } else if s == 6 || s == 9 {
        1
    } else {
        2
    }
}

/// The edge at slot `s` of the children of triangle `t`.
spec fn new_edge(m: IcosphereView, t: int, s: int) -> (u16, u16) {
    let ix = m.indices;
    if is_half(s) {
        sorted_pair(endp(ix, 3 * t + hq(s), hside(s)), nmid(m, scan_edges(ix)[3 * t + hq(s)]))
    } else {
        sorted_pair(nmid(m, scan_edges(ix)[3 * t + ia(s)]), nmid(m, scan_edges(ix)[3 * t + ib(s)]))
    }
}

spec fn step_ok(m: IcosphereView) -> bool {
    &&& m.wf()
    &&& subdivision(m).wf()
}

proof fn lemma_mid_facts(m: IcosphereView, k: int)
    requires
        step_ok(m),
        0 <= k < m.indices.len(),
    ensures
        new_midpoints(m.indices).contains(scan_edges(m.indices)[k]),
        m.vertex_count() <= nmid(m, scan_edges(m.indices)[k]),
        nmid(m, scan_edges(m.indices)[k]) as int == m.vertex_count() + new_midpoints(m.indices).index_of(
            scan_edges(m.indices)[k],
        ),
        new_midpoints(m.indices)[new_midpoints(m.indices).index_of(scan_edges(m.indices)[k])]
            == scan_edges(m.indices)[k],
        (m.indices[k] as int) < m.vertex_count(),
        (m.indices[next_corner(k)] as int) < m.vertex_count(),
{
    let ix = m.indices;
    let mids = new_midpoints(ix);
    crate::icosphere::lemma_first_occurrences_pub(scan_edges(ix));
    assert(scan_edges(ix).contains(scan_edges(ix)[k]));
    let i = mids.index_of(scan_edges(ix)[k]);
    assert(subdivision(m).vertex_count() == m.vertex_count() + mids.len());
    assert(0 <= i < mids.len());
    assert(0 <= next_corner(k) < ix.len()) by {
        assert(ix.len() % 3 == 0);
    }
}

proof fn lemma_mid_injective(m: IcosphereView, k1: int, k2: int)
    requires
        step_ok(m),
        0 <= k1 < m.indices.len(),
        0 <= k2 < m.indices.len(),
        nmid(m, scan_edges(m.indices)[k1]) == nmid(m, scan_edges(m.indices)[k2]),
    ensures
        scan_edges(m.indices)[k1] == scan_edges(m.indices)[k2],
{
    lemma_mid_facts(m, k1);
    lemma_mid_facts(m, k2);
}

/// The edge at new slot `12 t + s` is `new_edge(m, t, s)`.
proof fn lemma_new_edge(m: IcosphereView, t: int, s: int)
    requires
        step_ok(m),
        0 <= t,
        3 * t + 2 < m.indices.len(),
        0 <= s < 12,
    ensures
        scan_edges(subdivision(m).indices)[12 * t + s] == new_edge(m, t, s),
{
    let ix = m.indices;
    let nv = m.vertex_count();
    let mids = new_midpoints(ix);
    let n = subdivision(m).indices;
    let j = 12 * t + s;
    let ns = next_corner(s);
    assert(0 <= ns < 12);
    assert(next_corner(j) == 12 * t + ns);
    assert(j / 12 == t && j % 12 == s) by (nonlinear_arith)
        requires j == 12 * t + s, 0 <= s < 12;
    assert((12 * t + ns) / 12 == t && (12 * t + ns) % 12 == ns) by (nonlinear_arith)
        requires 0 <= ns < 12;
    assert(j < n.len());
    assert(12 * t + ns < n.len());
    assert(n[j] == split_vertex(nv, mids, ix, t, s) as u16);
    assert(n[12 * t + ns] == split_vertex(nv, mids, ix, t, ns) as u16);
    assert(next_corner(3 * t) == 3 * t + 1);
    assert(next_corner(3 * t + 1) == 3 * t + 2);
    assert(next_corner(3 * t + 2) == 3 * t);
    lemma_mid_facts(m, 3 * t);
    lemma_mid_facts(m, 3 * t + 1);
    lemma_mid_facts(m, 3 * t + 2);
}


/// The other slot of an edge slot's edge.
spec fn old_twin(ix: Seq<u16>, k: int) -> int {
    choose|k2: int| twin_of(ix, k, k2)
}

/// The half slot for edge `q` of a parent, keeping end `side`.
spec fn slot_of(q: int, side: int) -> int {
    if q == 0 {
        if side == 0 { 0 } else { 3 }
    } else if q == 1 {
        if side == 0 { 4 } else { 7 }
    } else {
        if side == 0 { 8 } else { 2 }
    }
}

/// The inner slot of the same parent joining the same two midpoints.
spec fn itw(s: int) -> int {
    if s == 1 { 11 } else if s == 11 { 1 } else if s == 5 { 9 } else if s == 9 { 5 } else if s == 6 { 10 } else { 6 }
}

/// The twin of new slot `12 t + s`.
spec fn ntw(m: IcosphereView, t: int, s: int) -> int {
    let ix = m.indices;
    if is_half(s) {
        let k = 3 * t + hq(s);
        let k2 = old_twin(ix, k);
        let side2 = if endp(ix, k2, 0) == endp(ix, k, hside(s)) { 0int } else { 1int };
        12 * (k2 / 3) + slot_of(k2 % 3, side2)
    } else {
        12 * t + itw(s)
    }
}

spec fn surface_step_ok(m: IcosphereView) -> bool {
    &&& step_ok(m)
    &&& closed_surface(m.indices)
}

proof fn lemma_tri_edges_distinct(ix: Seq<u16>, t: int)
    requires
        proper_edges(ix),
        ix.len() % 3 == 0,
        0 <= t,
        3 * t + 2 < ix.len(),
    ensures
        scan_edges(ix)[3 * t] != scan_edges(ix)[3 * t + 1],
        scan_edges(ix)[3 * t + 1] != scan_edges(ix)[3 * t + 2],
        scan_edges(ix)[3 * t + 2] != scan_edges(ix)[3 * t],
{
    assert(next_corner(3 * t) == 3 * t + 1);
    assert(next_corner(3 * t + 1) == 3 * t + 2);
    assert(next_corner(3 * t + 2) == 3 * t);
    assert(scan_edges(ix)[3 * t].0 != scan_edges(ix)[3 * t].1);
    assert(scan_edges(ix)[3 * t + 1].0 != scan_edges(ix)[3 * t + 1].1);
    assert(scan_edges(ix)[3 * t + 2].0 != scan_edges(ix)[3 * t + 2].1);
}

proof fn lemma_split_slot(j: int, len: int)
    requires
        0 <= j < 4 * len,
        len % 3 == 0,
    ensures
        j == 12 * (j / 12) + j % 12,
        0 <= j % 12 < 12,
        0 <= j / 12,
        3 * (j / 12) + 2 < len,
        j / 3 == 4 * (j / 12) + (j % 12) / 3,
{
    let t = j / 12;
    let s = j % 12;
    assert(j == 12 * t + s && 0 <= s < 12 && 0 <= t) by (nonlinear_arith)
        requires 0 <= j, t == j / 12, s == j % 12;
    assert(12 * t < 4 * len) by (nonlinear_arith)
        requires j == 12 * t + s, 0 <= s, j < 4 * len;
    assert(j / 3 == 4 * t + s / 3) by (nonlinear_arith)
        requires j == 12 * t + s, 0 <= s < 12;
}

proof fn lemma_new_proper(m: IcosphereView, t: int, s: int)
    requires
        surface_step_ok(m),
        0 <= t,
        3 * t + 2 < m.indices.len(),
        0 <= s < 12,
    ensures
        new_edge(m, t, s).0 != new_edge(m, t, s).1,
{
    let ix = m.indices;
    lemma_mid_facts(m, 3 * t);
    lemma_mid_facts(m, 3 * t + 1);
    lemma_mid_facts(m, 3 * t + 2);
    lemma_tri_edges_distinct(ix, t);
    if !is_half(s) {
        if nmid(m, scan_edges(ix)[3 * t + ia(s)]) == nmid(m, scan_edges(ix)[3 * t + ib(s)]) {
            lemma_mid_injective(m, 3 * t + ia(s), 3 * t + ib(s));
        }
    } else {
        assert(next_corner(3 * t + hq(s)) == 3 * t + hq(s) + 1 || next_corner(3 * t + hq(s)) == 3 * t);
    }
}

proof fn lemma_tri_facts(m: IcosphereView, t: int)
    requires
        surface_step_ok(m),
        0 <= t,
        3 * t + 2 < m.indices.len(),
    ensures
        next_corner(3 * t) == 3 * t + 1,
        next_corner(3 * t + 1) == 3 * t + 2,
        next_corner(3 * t + 2) == 3 * t,
        scan_edges(m.indices)[3 * t] != scan_edges(m.indices)[3 * t + 1],
        scan_edges(m.indices)[3 * t + 1] != scan_edges(m.indices)[3 * t + 2],
        scan_edges(m.indices)[3 * t + 2] != scan_edges(m.indices)[3 * t],
        scan_edges(m.indices)[3 * t].0 != scan_edges(m.indices)[3 * t].1,
        scan_edges(m.indices)[3 * t + 1].0 != scan_edges(m.indices)[3 * t + 1].1,
        scan_edges(m.indices)[3 * t + 2].0 != scan_edges(m.indices)[3 * t + 2].1,
{
    lemma_tri_edges_distinct(m.indices, t);
    lemma_mid_facts(m, 3 * t);
    lemma_mid_facts(m, 3 * t + 1);
    lemma_mid_facts(m, 3 * t + 2);
}

proof fn lemma_half_unique(m: IcosphereView, t: int, s: int, k2: int, l: int)
    requires
        surface_step_ok(m),
        0 <= t,
        3 * t + 2 < m.indices.len(),
        0 <= s < 12,
        is_half(s),
        twin_of(m.indices, 3 * t + hq(s), k2),
        0 <= l < 4 * m.indices.len(),
        scan_edges(subdivision(m).indices)[l] == new_edge(m, t, s),
    ensures
        l == 12 * t + s || l == 12 * (k2 / 3) + slot_of(
            k2 % 3,
            if endp(m.indices, k2, 0) == endp(m.indices, 3 * t + hq(s), hside(s)) { 0int } else { 1int },
        ),
{
    let ix = m.indices;
    let len = ix.len() as int;
    let k = 3 * t + hq(s);
    let v = endp(ix, k, hside(s));
    lemma_split_slot(l, len);
    let t3 = l / 12;
    let s3 = l % 12;
    lemma_new_edge(m, t3, s3);
    lemma_tri_facts(m, t);
    lemma_tri_facts(m, t3);
    lemma_mid_facts(m, 3 * t3);
    lemma_mid_facts(m, 3 * t3 + 1);
    lemma_mid_facts(m, 3 * t3 + 2);
    lemma_mid_facts(m, k);
    let t2 = k2 / 3;
    lemma_tri_facts(m, t2);
    assert(k2 == 3 * t2 + k2 % 3);
    if is_half(s3) {
        let k3 = 3 * t3 + hq(s3);
        assert(endp(ix, k3, hside(s3)) == v);
        assert(nmid(m, scan_edges(ix)[k3]) == nmid(m, scan_edges(ix)[k]));
        lemma_mid_injective(m, k3, k);
        assert(k3 == k || k3 == k2);
    }
}

proof fn lemma_inner_unique(m: IcosphereView, t: int, s: int, l: int)
    requires
        surface_step_ok(m),
        0 <= t,
        3 * t + 2 < m.indices.len(),
        0 <= s < 12,
        !is_half(s),
        0 <= l < 4 * m.indices.len(),
        scan_edges(subdivision(m).indices)[l] == new_edge(m, t, s),
    ensures
        l == 12 * t + s || l == 12 * t + itw(s),
{
    let ix = m.indices;
    let len = ix.len() as int;
    lemma_split_slot(l, len);
    let t3 = l / 12;
    let s3 = l % 12;
    lemma_new_edge(m, t3, s3);
    lemma_tri_facts(m, t);
    lemma_tri_facts(m, t3);
    lemma_mid_facts(m, 3 * t);
    lemma_mid_facts(m, 3 * t + 1);
    lemma_mid_facts(m, 3 * t + 2);
    lemma_mid_facts(m, 3 * t3);
    lemma_mid_facts(m, 3 * t3 + 1);
    lemma_mid_facts(m, 3 * t3 + 2);
    if !is_half(s3) {
        let (a, b) = (3 * t + ia(s), 3 * t + ib(s));
        let (a3, b3) = (3 * t3 + ia(s3), 3 * t3 + ib(s3));
        if nmid(m, scan_edges(ix)[a3]) == nmid(m, scan_edges(ix)[a]) {
            lemma_mid_injective(m, a3, a);
            lemma_mid_injective(m, b3, b);
            assert(a / 3 == b / 3 && a3 / 3 == b3 / 3);
            assert(scan_edges(ix)[a] == scan_edges(ix)[a3] && scan_edges(ix)[b] == scan_edges(ix)[b3]);
            assert(a / 3 == a3 / 3);
        } else {
            lemma_mid_injective(m, a3, b);
            lemma_mid_injective(m, b3, a);
            assert(a / 3 == b / 3 && b3 / 3 == a3 / 3);
            assert(scan_edges(ix)[a] == scan_edges(ix)[b3] && scan_edges(ix)[b] == scan_edges(ix)[a3]);
            assert(a / 3 == b3 / 3);
        }
        assert(t3 == t);
    }
}

/// Slot `12 t + s` of the subdivided mesh has its twin at `ntw(m, t, s)`.
proof fn lemma_new_twin(m: IcosphereView, t: int, s: int)
    requires
        surface_step_ok(m),
        0 <= t,
        3 * t + 2 < m.indices.len(),
        0 <= s < 12,
    ensures
        twin_of(subdivision(m).indices, 12 * t + s, ntw(m, t, s)),
{
    let ix = m.indices;
    let n = subdivision(m).indices;
    let len = ix.len() as int;
    let j = 12 * t + s;
    lemma_new_edge(m, t, s);
    lemma_split_slot(j, len);
    lemma_tri_facts(m, t);
    if is_half(s) {
        let k = 3 * t + hq(s);
        let v = endp(ix, k, hside(s));
        assert(has_twin(ix, k));
        let k2 = old_twin(ix, k);
        assert(twin_of(ix, k, k2));
        let t2 = k2 / 3;
        let q2 = k2 % 3;
        assert(k2 == 3 * t2 + q2);
        let side2 = if endp(ix, k2, 0) == v { 0int } else { 1int };
        let s2 = slot_of(q2, side2);
        lemma_mid_facts(m, k);
        lemma_mid_facts(m, k2);
        lemma_tri_facts(m, t2);
        assert(endp(ix, k2, side2) == v);
        lemma_new_edge(m, t2, s2);
        let j2 = 12 * t2 + s2;
        lemma_split_slot(j2, len);
        assert forall|l: int| 0 <= l < n.len() && #[trigger] scan_edges(n)[l] == scan_edges(n)[j]
            implies l == j || l == j2 by {
            lemma_half_unique(m, t, s, k2, l);
        }
    } else {
        let j2 = 12 * t + itw(s);
        lemma_new_edge(m, t, itw(s));
        lemma_split_slot(j2, len);
        assert forall|l: int| 0 <= l < n.len() && #[trigger] scan_edges(n)[l] == scan_edges(n)[j]
            implies l == j || l == j2 by {
            lemma_inner_unique(m, t, s, l);
        }
    }
}


/// Where the twin of new slot `12 t + s` lies: in the children of the
/// parent's neighbour across the halved edge, or of the parent itself.
proof fn lemma_ntw_block(m: IcosphereView, t: int, s: int)
    requires
        surface_step_ok(m),
        0 <= t,
        3 * t + 2 < m.indices.len(),
        0 <= s < 12,
    ensures
        ntw(m, t, s) / 3 == 4 * (ntw(m, t, s) / 12) + (ntw(m, t, s) % 12) / 3,
        is_half(s) ==> twin_of(m.indices, 3 * t + hq(s), old_twin(m.indices, 3 * t + hq(s)))
            && ntw(m, t, s) / 12 == old_twin(m.indices, 3 * t + hq(s)) / 3
            && ntw(m, t, s) / 12 != t,
        !is_half(s) ==> ntw(m, t, s) / 12 == t && (ntw(m, t, s) % 12) / 3 == itw(s) / 3,
{
    let ix = m.indices;
    let w = ntw(m, t, s);
    if is_half(s) {
        let k = 3 * t + hq(s);
        assert(has_twin(ix, k));
        let k2 = old_twin(ix, k);
        assert(twin_of(ix, k, k2));
        assert(k / 3 == t);
        let side2 = if endp(ix, k2, 0) == endp(ix, k, hside(s)) { 0int } else { 1int };
        let y = slot_of(k2 % 3, side2);
        let x = k2 / 3;
        assert(w == 12 * x + y && 0 <= y < 12);
        assert(w / 12 == x && w % 12 == y && w / 3 == 4 * x + y / 3) by (nonlinear_arith)
            requires w == 12 * x + y, 0 <= y < 12;
    } else {
        let y = itw(s);
        assert(w == 12 * t + y && 0 <= y < 12);
        assert(w / 12 == t && w % 12 == y && w / 3 == 4 * t + y / 3) by (nonlinear_arith)
            requires w == 12 * t + y, 0 <= y < 12;
    }
}

/// Twins of two slots of one child triangle lie in different triangles.
proof fn lemma_twins_apart(m: IcosphereView, t: int, s1: int, s2: int)
    requires
        surface_step_ok(m),
        0 <= t,
        3 * t + 2 < m.indices.len(),
        0 <= s1 < 12,
        0 <= s2 < 12,
        s1 != s2,
        s1 / 3 == s2 / 3,
    ensures
        ntw(m, t, s1) / 3 != ntw(m, t, s2) / 3,
{
    let ix = m.indices;
    let w1 = ntw(m, t, s1);
    let w2 = ntw(m, t, s2);
    lemma_ntw_block(m, t, s1);
    lemma_ntw_block(m, t, s2);
    if w1 / 3 == w2 / 3 {
        let (a, b, c, d) = (w1 / 12, w2 / 12, (w1 % 12) / 3, (w2 % 12) / 3);
        assert(0 <= c < 4 && 0 <= d < 4);
        assert(a == b && c == d) by (nonlinear_arith)
            requires 4 * a + c == 4 * b + d, 0 <= c < 4, 0 <= d < 4;
        if is_half(s1) && is_half(s2) {
            let ka = 3 * t + hq(s1);
            let kb = 3 * t + hq(s2);
            let k2a = old_twin(ix, ka);
            let k2b = old_twin(ix, kb);
            assert(hq(s1) != hq(s2));
            assert(ka / 3 == t && kb / 3 == t);
            assert(scan_edges(ix)[ka] == scan_edges(ix)[k2a]);
            assert(scan_edges(ix)[kb] == scan_edges(ix)[k2b]);
            assert(ka / 3 == k2a / 3);
        }
    }
}

proof fn lemma_new_share_one(m: IcosphereView)
    requires
        surface_step_ok(m),
    ensures
        share_at_most_one(subdivision(m).indices),
{
    let ix = m.indices;
    let n = subdivision(m).indices;
    let len = ix.len() as int;
    assert forall|j1: int, j2: int, k1: int, k2: int|
        #![trigger scan_edges(n)[j1], scan_edges(n)[j2], scan_edges(n)[k1], scan_edges(n)[k2]]
        0 <= j1 < n.len() && 0 <= j2 < n.len() && 0 <= k1 < n.len() && 0 <= k2 < n.len()
            && j1 / 3 == j2 / 3 && j1 != j2 && k1 / 3 == k2 / 3 && scan_edges(n)[j1] == scan_edges(
            n,
        )[k1] && scan_edges(n)[j2] == scan_edges(n)[k2] implies j1 / 3 == k1 / 3 by {
        lemma_split_slot(j1, len);
        lemma_split_slot(j2, len);
        let (t1, s1) = (j1 / 12, j1 % 12);
        let (t2, s2) = (j2 / 12, j2 % 12);
        assert(t1 == t2 && s1 / 3 == s2 / 3) by (nonlinear_arith)
            requires
                4 * t1 + s1 / 3 == 4 * t2 + s2 / 3,
                0 <= s1 < 12,
                0 <= s2 < 12,
        ;
        lemma_new_twin(m, t1, s1);
        lemma_new_twin(m, t1, s2);
        if k1 != j1 && k2 != j2 {
            assert(k1 == ntw(m, t1, s1));
            assert(k2 == ntw(m, t1, s2));
            lemma_twins_apart(m, t1, s1, s2);
        }
    }
}

spec fn child_differs(s: Set<int>, t: int, c: int) -> bool {
    s.contains(4 * t + c) != s.contains(4 * t + 3)
}

proof fn lemma_cut_inside(m: IcosphereView, s: Set<int>, t: int, c: int)
    requires
        surface_step_ok(m),
        0 <= t,
        3 * t + 2 < m.indices.len(),
        0 <= c < 3,
        child_differs(s, t, c),
    ensures
        tri_crossed(subdivision(m).indices, s),
{
    let n = subdivision(m).indices;
    let len = m.indices.len() as int;
    let sc = if c == 0 { 1int } else if c == 1 { 5int } else { 6int };
    lemma_new_edge(m, t, sc);
    lemma_new_edge(m, t, itw(sc));
    let j = 12 * t + sc;
    let k = 12 * t + itw(sc);
    lemma_split_slot(j, len);
    lemma_split_slot(k, len);
    assert(j / 3 == 4 * t + c);
    assert(k / 3 == 4 * t + 3);
    assert(scan_edges(n)[k] == scan_edges(n)[j]);
    if s.contains(j / 3) {
        assert(tri_crossed(n, s));
    } else {
        assert(tri_crossed(n, s));
    }
}

proof fn lemma_twin_same_edge(m: IcosphereView, t: int, s: int)
    requires
        surface_step_ok(m),
        0 <= t,
        3 * t + 2 < m.indices.len(),
        0 <= s < 12,
    ensures
        0 <= ntw(m, t, s) < subdivision(m).indices.len(),
        scan_edges(subdivision(m).indices)[ntw(m, t, s)] == scan_edges(subdivision(m).indices)[12 * t + s],
{
    lemma_new_twin(m, t, s);
}

#[verifier::rlimit(100)]
proof fn lemma_cut_between(m: IcosphereView, s: Set<int>)
    requires
        surface_step_ok(m),
        tri_splits(subdivision(m).indices, s),
        forall|u: int|
            0 <= u < 4 * (m.indices.len() / 3) ==> #[trigger] s.contains(u) == s.contains(4 * (u / 4) + 3),
    ensures
        tri_crossed(subdivision(m).indices, s),
{
    let ix = m.indices;
    let n = subdivision(m).indices;
    let len = ix.len() as int;
    let nt = len / 3;
    assert(n.len() == 4 * len);
    let sp = Set::new(|t: int| s.contains(4 * t + 3));
    let a = choose|t: int| 0 <= t < n.len() / 3 && s.contains(t);
    let b = choose|t: int| 0 <= t < n.len() / 3 && !s.contains(t);
    assert(a == 4 * (a / 4) + a % 4 && b == 4 * (b / 4) + b % 4);
    assert(0 <= a / 4 < nt && 0 <= b / 4 < nt);
    assert(sp.contains(a / 4));
    assert(!sp.contains(b / 4));
    assert(tri_splits(ix, sp));
    let (j, k) = choose|j: int, k: int|
        0 <= j < ix.len() && 0 <= k < ix.len() && sp.contains(j / 3) && !sp.contains(k / 3)
            && scan_edges(ix)[j] == scan_edges(ix)[k];
    let tj = j / 3;
    let q = j % 3;
    assert(j == 3 * tj + q);
    let sj = slot_of(q, 0);
    assert(hq(sj) == q && is_half(sj));
    lemma_twin_same_edge(m, tj, sj);
    lemma_ntw_block(m, tj, sj);
    let jj = 12 * tj + sj;
    let kk = ntw(m, tj, sj);
    let k2 = old_twin(ix, j);
    assert(k == k2);
    lemma_split_slot(jj, len);
    lemma_split_slot(kk, len);
    assert(kk / 12 == k / 3);
    assert(s.contains(jj / 3) == s.contains(4 * tj + 3));
    assert(s.contains(kk / 3) == s.contains(4 * (k / 3) + 3));
    assert(scan_edges(n)[kk] == scan_edges(n)[jj]);
    assert(tri_crossed(n, s));
}

proof fn lemma_new_connected(m: IcosphereView)
    requires
        surface_step_ok(m),
    ensures
        tris_connected(subdivision(m).indices),
{
    let ix = m.indices;
    let n = subdivision(m).indices;
    let len = ix.len() as int;
    let nt = len / 3;
    assert forall|s: Set<int>| #[trigger] tri_splits(n, s) implies tri_crossed(n, s) by {
        if exists|t: int, c: int| 0 <= t < nt && 0 <= c < 3 && #[trigger] child_differs(s, t, c) {
            let (t, c) = choose|t: int, c: int| 0 <= t < nt && 0 <= c < 3 && #[trigger] child_differs(s, t, c);
            lemma_cut_inside(m, s, t, c);
        } else {
            assert forall|u: int| 0 <= u < 4 * nt implies #[trigger] s.contains(u) == s.contains(4 * (u / 4) + 3) by {
                let t = u / 4;
                let c = u % 4;
                assert(u == 4 * t + c && 0 <= t < nt);
                if c < 3 {
                    assert(!child_differs(s, t, c));
                }
            }
            lemma_cut_between(m, s);
        }
    }
}

/// Subdividing a closed, connected surface gives a closed, connected surface.
pub proof fn lemma_subdivision_closed(m: IcosphereView)
    requires
        m.wf(),
        subdivision(m).wf(),
        closed_surface(m.indices),
    ensures
        closed_surface(subdivision(m).indices),
{
    let ix = m.indices;
    let n = subdivision(m).indices;
    let len = ix.len() as int;
    assert(n.len() == 4 * len);
    assert forall|j: int| 0 <= j < n.len() implies (#[trigger] scan_edges(n)[j]).0 != scan_edges(n)[j].1 by {
        lemma_split_slot(j, len);
        lemma_new_edge(m, j / 12, j % 12);
        lemma_new_proper(m, j / 12, j % 12);
    }
    assert forall|j: int| 0 <= j < n.len() implies #[trigger] has_twin(n, j) by {
        lemma_split_slot(j, len);
        lemma_new_twin(m, j / 12, j % 12);
    }
    lemma_new_share_one(m);
    lemma_new_connected(m);
}

} // verus!
