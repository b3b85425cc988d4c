//! A map for very few keys, searched in order.

use vstd::prelude::*;
use vstd::std_specs::cmp::PartialEqSpec;

verus! {

/// Intended for very small (most of the time there should be no more than 8)
/// hereditary maps of keys to values, kept in insertion order.
pub struct SmallMap<K, V> {
    set: Vec<(K, V)>,
}

/// The first place in `s` whose key equals `k`, if any.
pub open spec fn first_key_match<K: PartialEq + PartialEqSpec, V>(s: Seq<(K, V)>, k: K, i: int) -> bool {
    &&& 0 <= i < s.len()
    &&& s[i].0.eq_spec(&k)
    &&& forall|j: int| 0 <= j < i ==> !(#[trigger] s[j].0.eq_spec(&k))
}

impl<K, V> SmallMap<K, V> {
    /// The entries, in insertion order.
    pub closed spec fn entries(&self) -> Seq<(K, V)> {
        self.set@
    }

    pub fn new() -> (r: Self)
        ensures
            r.entries() == Seq::<(K, V)>::empty(),
    {
        SmallMap { set: Vec::new() }
    }
}

impl<K: PartialEq + PartialEqSpec, V> SmallMap<K, V> {
    /// Inserts key `k` and value `v` into the map. If `k` is equal to a key
    /// already in the map, `v` replaces the value and the old value is
    /// returned.
    pub fn insert(&mut self, k: K, v: V) -> (r: Result<(), V>)
        requires
            K::obeys_eq_spec(),
        ensures
            r is Ok <==> forall|j: int| 0 <= j < old(self).entries().len() ==> !(#[trigger] old(self).entries()[j].0.eq_spec(&k)),
            r is Ok ==> final(self).entries() == old(self).entries().push((k, v)),
            r matches Err(old_v) ==> exists|i: int|
                first_key_match(old(self).entries(), k, i) && old_v == old(self).entries()[i].1
                    && final(self).entries() == old(self).entries().update(i, (old(self).entries()[i].0, v)),
    {
        let n = self.set.len();
        let mut i: usize = 0;
        while i < n
            invariant
                K::obeys_eq_spec(),
                n == self.set@.len(),
                self.set@ == old(self).set@,
                i <= n,
                forall|j: int| 0 <= j < i ==> !(#[trigger] self.set@[j].0.eq_spec(&k)),
            decreases n - i,
        {
            if self.set[i].0 == k {
                let ghost old_s = self.set@;
                let (k1, v1) = self.set.remove(i);
                self.set.insert(i, (k1, v));
                proof {
                    assert(old_s == old(self).entries());
                    assert(first_key_match(old(self).entries(), k, i as int));
                    assert(self.set@ =~= old_s.update(i as int, (old_s[i as int].0, v)));
                    assert(self.entries() == old(self).entries().update(i as int, (old(self).entries()[i as int].0, v)));
                    assert(old(self).entries()[i as int].0.eq_spec(&k));
                }
                return Err(v1);
            }
            i = i + 1;
        }
        self.set.push((k, v));
        Ok(())
    }
}

impl<K, V> Default for SmallMap<K, V> {
    fn default() -> (r: Self)
        ensures
            r.entries() == Seq::<(K, V)>::empty(),
    {
        Self::new()
    }
}

} // verus!
