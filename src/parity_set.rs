use std::collections::HashSet;
use vstd::multiset::Multiset;
use vstd::prelude::*;
use vstd::std_specs::iter::IteratorSpec;

verus! {

broadcast use vstd::std_specs::hash::group_hash_axioms;

/// The keys that occur an odd number of times in `m`.
pub open spec fn odd_keys(m: Multiset<u32>) -> Set<u32> {
    Set::new(|k: u32| m.count(k) % 2 == 1)
}

/// `s` with `k` removed if it was there, added if it was not.
pub open spec fn toggled(s: Set<u32>, k: u32) -> Set<u32> {
    if s.contains(k) {
        s.remove(k)
    } else {
        s.insert(k)
    }
}

/// `s` after toggling each key of `keys` in turn.
pub open spec fn toggle_seq(s: Set<u32>, keys: Seq<u32>) -> Set<u32>
    decreases keys.len(),
{
    if keys.len() == 0 {
        s
    } else {
        toggled(toggle_seq(s, keys.drop_last()), keys.last())
    }
}

/// Toggling keys one by one into the odd-count set of `m` gives the
/// odd-count set of `m` with those keys added: shared keys cancel in pairs.
pub proof fn lemma_toggle_seq_odd(m: Multiset<u32>, keys: Seq<u32>)
    ensures
        toggle_seq(odd_keys(m), keys) == odd_keys(m.add(keys.to_multiset())),
    decreases keys.len(),
{
    if keys.len() == 0 {
        keys.to_multiset_ensures();
        assert(forall|k: u32| !keys.contains(k));
        assert(m.add(keys.to_multiset()) =~= m);
    } else {
        let rest = keys.drop_last();
        lemma_toggle_seq_odd(m, rest);
        lemma_toggle_odd(m.add(rest.to_multiset()), keys.last());
        assert(rest.push(keys.last()) == keys);
        rest.to_multiset_ensures();
        assert(m.add(rest.to_multiset()).insert(keys.last()) =~= m.add(keys.to_multiset()));
    }
}

/// Whether some key of `keys` is in `s`.
pub open spec fn meets(s: Set<u32>, keys: Seq<u32>) -> bool {
    exists|i: int| 0 <= i < keys.len() && s.contains(#[trigger] keys[i])
}

/// Toggling a key in the odd-count set of a multiset gives the odd-count
/// set of the multiset with one more copy of that key.
pub proof fn lemma_toggle_odd(m: Multiset<u32>, k: u32)
    ensures
        toggled(odd_keys(m), k) == odd_keys(m.insert(k)),
{
    assert(toggled(odd_keys(m), k) =~= odd_keys(m.insert(k)));
}

/// A set that keeps exactly the keys inserted an odd number of times:
/// inserting a key that is present removes it.
pub struct ParitySet {
    keys: HashSet<u32>,
}

impl View for ParitySet {
    type V = Set<u32>;

    closed spec fn view(&self) -> Set<u32> {
        self.keys@
    }
}

impl ParitySet {
    /// The empty set.
    pub fn new() -> (s: ParitySet)
        ensures
            s@ == Set::<u32>::empty(),
    {
        ParitySet { keys: HashSet::new() }
    }

    /// Adds `k` if it is absent, removes it if it is present.
    pub fn toggle(&mut self, k: u32)
        ensures
            final(self)@ == toggled(old(self)@, k),
    {
        if !self.keys.insert(k) {
            self.keys.remove(&k);
        }
    }

    /// Toggles each key of `keys` in turn.
    pub fn toggle_all(&mut self, keys: &[u32])
        ensures
            final(self)@ == toggle_seq(old(self)@, keys@),
    {
        let ghost start = self@;
        for i in 0..keys.len()
            invariant
                self@ == toggle_seq(start, keys@.subrange(0, i as int)),
        {
            self.toggle(keys[i]);
            assert(keys@.subrange(0, i + 1).drop_last() == keys@.subrange(0, i as int));
        }
        assert(keys@.subrange(0, keys@.len() as int) == keys@);
    }

    /// The number of keys in the set.
    pub fn len(&self) -> (n: usize)
        ensures
            n == self@.len(),
    {
        self.keys.len()
    }

    /// Whether the set holds no key.
    pub fn is_empty(&self) -> (r: bool)
        ensures
            r == (self@ == Set::<u32>::empty()),
    {
        let r = self.keys.is_empty();
        proof {
            if r {
                assert(self@ =~= Set::<u32>::empty());
            }
        }
        r
    }

    /// Whether `k` is in the set.
    pub fn contains(&self, k: u32) -> (r: bool)
        ensures
            r == self@.contains(k),
    {
        self.keys.contains(&k)
    }

    /// Whether some key of `keys` is in the set.
    pub fn contains_any(&self, keys: &[u32]) -> (r: bool)
        ensures
            r == meets(self@, keys@),
    {
        for i in 0..keys.len()
            invariant
                !meets(self@, keys@.subrange(0, i as int)),
        {
            if self.keys.contains(&keys[i]) {
                assert(keys@[i as int] == keys@[i as int]);
                return true;
            }
            assert(keys@.subrange(0, i + 1) == keys@.subrange(0, i as int).push(keys@[i as int]));
        }
        assert(keys@.subrange(0, keys@.len() as int) == keys@);
        false
    }

    /// Whether the two sets share a key.
    pub fn intersects(&self, other: &ParitySet) -> (r: bool)
        ensures
            r == !self@.disjoint(other@),
    {
        let ghost ks = vstd::std_specs::hash::spec_hash_keys_iter(&self.keys).remaining();
        let ghost mut seen: int = 0;
        for k in it: self.keys.iter()
            invariant
                it.seq() == ks,
                seen == it.index(),
                forall|j: int| 0 <= j < seen ==> !other@.contains(*#[trigger] ks[j]),
        {
            if other.keys.contains(k) {
                assert(self@.contains(*k)) by {
                    assert(ks.unref()[seen] == *k);
                }
                return true;
            }
            proof {
                seen = seen + 1;
            }
        }
        assert forall|k: u32| self@.contains(k) implies !other@.contains(k) by {
            assert(ks.unref().to_set().contains(k));
            let j = choose|j: int| 0 <= j < ks.unref().len() && ks.unref()[j] == k;
            assert(*ks[j] == k);
        }
        false
    }
}

} // verus!
