use rand::seq::SliceRandom;
use rand_pcg::Lcg64Xsh32;
use vstd::prelude::*;

verus! {

/// rand_pcg's PCG32 generator (`rand_pcg::Pcg32`), carried through unopened.
#[verifier::external_type_specification]
#[verifier::external_body]
pub struct ExLcg64Xsh32(Lcg64Xsh32);

/// Relies on rand's `SliceRandom::shuffle`: a Fisher-Yates shuffle that only
/// swaps elements, so the vector keeps its length and its items.
#[verifier::external_body]
pub(crate) fn shuffle<T>(rng: &mut Lcg64Xsh32, v: &mut Vec<T>)
    ensures
        final(v)@.len() == old(v)@.len(),
        final(v)@.to_multiset() == old(v)@.to_multiset(),
{
    v.shuffle(rng)
}

/// A shuffle keeps which values occur.
pub proof fn lemma_shuffle_contains<T>(a: Seq<T>, b: Seq<T>, x: T)
    requires
        a.to_multiset() == b.to_multiset(),
    ensures
        a.contains(x) <==> b.contains(x),
{
    a.to_multiset_ensures();
    b.to_multiset_ensures();
    assert(a.contains(x) <==> a.to_multiset().count(x) > 0);
    assert(b.contains(x) <==> b.to_multiset().count(x) > 0);
}

/// The multiset of the values in `0..n`: each once.
pub proof fn lemma_range_multiset(n: nat, s: Seq<usize>)
    requires
        s.len() == n,
        forall|i: int| 0 <= i < n ==> s[i] == i,
    ensures
        forall|r: usize| s.to_multiset().count(r) == if (r as int) < n { 1nat } else { 0nat },
    decreases n,
{
    s.to_multiset_ensures();
    if n == 0 {
        assert forall|r: usize| s.to_multiset().count(r) == 0 by {
            assert(!s.contains(r));
        }
    } else {
        let d = s.drop_last();
        lemma_range_multiset((n - 1) as nat, d);
        assert(d.push(s.last()) == s);
        d.to_multiset_ensures();
    }
}

} // verus!
