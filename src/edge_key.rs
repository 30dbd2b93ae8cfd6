use vstd::prelude::*;

verus! {

/// The largest vertex index that an edge key can hold.
pub const MAX_VERTEX_INDEX: u16 = 65535;

/// The key of the unordered pair `{a, b}`: the smaller index in the high
/// sixteen bits, the larger in the low sixteen.
pub open spec fn key_of(a: int, b: int) -> int {
    if a <= b {
        a * 65536 + b
    } else {
        b * 65536 + a
    }
}

/// The canonical, order-independent key of the edge between vertices `a` and `b`.
pub fn edge_key(a: u16, b: u16) -> (k: u32)
    ensures
        k as int == key_of(a as int, b as int),
{
    let (lo, hi) = if a <= b {
        (a, b)
    } else {
        (b, a)
    };
    let k = ((lo as u32) << 16u32) | (hi as u32);
    assert(((lo as u32) << 16u32) | (hi as u32) == (lo as u32) * 65536 + (hi as u32)) by (bit_vector)
        requires
            lo <= 0xffff,
            hi <= 0xffff,
    ;
    k
}

/// An edge key does not depend on the order of its two indices, and two keys
/// are equal exactly when they name the same unordered pair of indices.
pub proof fn lemma_edge_key_canonical(a: u16, b: u16, c: u16, d: u16)
    ensures
        key_of(a as int, b as int) == key_of(b as int, a as int),
        key_of(a as int, b as int) == key_of(c as int, d as int) <==> ((a == c && b == d) || (a
            == d && b == c)),
{
    let (lo1, hi1) = if a <= b { (a as int, b as int) } else { (b as int, a as int) };
    let (lo2, hi2) = if c <= d { (c as int, d as int) } else { (d as int, c as int) };
    if lo1 * 65536 + hi1 == lo2 * 65536 + hi2 {
        assert(lo1 == lo2 && hi1 == hi2) by (nonlinear_arith)
            requires
                lo1 * 65536 + hi1 == lo2 * 65536 + hi2,
                0 <= hi1 < 65536,
                0 <= hi2 < 65536,
                0 <= lo1,
                0 <= lo2,
        ;
    }
}

} // verus!
