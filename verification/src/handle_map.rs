//! A small map from integer handles to owned values, kept as an association
//! list. The arena stores its pipeline objects in these; lookups walk the
//! list, and the mathematical view is the finite `Map` the list denotes.

use vstd::prelude::*;

verus! {

/// The map an association list denotes: later entries win, though the
/// arena never stores one key twice.
pub open spec fn spec_assoc_map<V>(entries: Seq<(u64, V)>) -> Map<u64, V>
    decreases entries.len(),
{
    if entries.len() == 0 {
        Map::empty()
    } else {
        spec_assoc_map(entries.drop_last()).insert(entries.last().0, entries.last().1)
    }
}

/// No key occurs twice.
pub open spec fn unique_keys<V>(entries: Seq<(u64, V)>) -> bool {
    forall|i: int, j: int|
        0 <= i < j < entries.len() ==> (#[trigger] entries[i]).0 != (#[trigger] entries[j]).0
}

/// A map from handles to values, backed by an association list with unique
/// keys.
#[verifier::reject_recursive_types(V)]
pub struct HandleMap<V> {
    entries: Vec<(u64, V)>,
}

impl<V> View for HandleMap<V> {
    type V = Map<u64, V>;

    closed spec fn view(&self) -> Map<u64, V> {
        spec_assoc_map(self.entries@)
    }
}

proof fn lemma_assoc_found<V>(entries: Seq<(u64, V)>, i: int)
    requires
        unique_keys(entries),
        0 <= i < entries.len(),
    ensures
        spec_assoc_map(entries).contains_key(entries[i].0),
        spec_assoc_map(entries)[entries[i].0] == entries[i].1,
    decreases entries.len(),
{
    if i == entries.len() - 1 {
    } else {
        assert(entries.drop_last() =~= entries.subrange(0, entries.len() - 1));
        assert(entries.drop_last()[i] == entries[i]);
        lemma_assoc_found(entries.drop_last(), i);
        assert(entries[i].0 != entries.last().0);
    }
}

proof fn lemma_assoc_absent<V>(entries: Seq<(u64, V)>, k: u64)
    requires
        forall|i: int| 0 <= i < entries.len() ==> (#[trigger] entries[i]).0 != k,
    ensures
        !spec_assoc_map(entries).contains_key(k),
    decreases entries.len(),
{
    if entries.len() > 0 {
        assert(forall|i: int|
            0 <= i < entries.drop_last().len() ==> (#[trigger] entries.drop_last()[i]).0 != k);
        lemma_assoc_absent(entries.drop_last(), k);
        assert(entries.last().0 != k);
    }
}

proof fn lemma_assoc_remove<V>(entries: Seq<(u64, V)>, i: int)
    requires
        unique_keys(entries),
        0 <= i < entries.len(),
    ensures
        spec_assoc_map(entries.remove(i)) == spec_assoc_map(entries).remove(entries[i].0),
    decreases entries.len(),
{
    let k = entries[i].0;
    if i == entries.len() - 1 {
        assert(entries.remove(i) =~= entries.drop_last());
        assert(forall|j: int|
            0 <= j < entries.drop_last().len() ==> (#[trigger] entries.drop_last()[j]).0 != k);
        lemma_assoc_absent(entries.drop_last(), k);
        assert(spec_assoc_map(entries.drop_last()) =~= spec_assoc_map(entries.drop_last()).insert(
            k,
            entries[i].1,
        ).remove(k));
    } else {
        let shorter = entries.remove(i);
        assert(shorter.drop_last() =~= entries.drop_last().remove(i));
        assert(shorter.last() == entries.last());
        assert(entries.drop_last()[i] == entries[i]);
        lemma_assoc_remove(entries.drop_last(), i);
        assert(entries.last().0 != k);
        assert(spec_assoc_map(entries.drop_last()).remove(k).insert(
            entries.last().0,
            entries.last().1,
        ) =~= spec_assoc_map(entries.drop_last()).insert(
            entries.last().0,
            entries.last().1,
        ).remove(k));
    }
}

impl<V> HandleMap<V> {
    /// Keys are never stored twice.
    pub closed spec fn wf(&self) -> bool {
        unique_keys(self.entries@)
    }

    pub fn new() -> (r: HandleMap<V>)
        ensures
            r.wf(),
            r@ == Map::<u64, V>::empty(),
    {
        HandleMap { entries: Vec::new() }
    }

    /// The position of `k`'s entry, if the map holds one.
    fn find_index(&self, k: u64) -> (r: Option<usize>)
        ensures
            match r {
                Some(i) => i < self.entries@.len() && self.entries@[i as int].0 == k,
                None => forall|i: int|
                    0 <= i < self.entries@.len() ==> (#[trigger] self.entries@[i]).0 != k,
            },
    {
        let n = self.entries.len();
        let mut i: usize = 0;
        while i < n
            invariant
                0 <= i <= n,
                n == self.entries@.len(),
                forall|j: int| 0 <= j < i ==> (#[trigger] self.entries@[j]).0 != k,
            decreases n - i,
        {
            if self.entries[i].0 == k {
                return Some(i);
            }
            i = i + 1;
        }
        None
    }

    /// Adds a value under a key the map does not hold yet.
    pub fn insert(&mut self, k: u64, v: V)
        requires
            old(self).wf(),
            !old(self)@.contains_key(k),
        ensures
            final(self).wf(),
            final(self)@ == old(self)@.insert(k, v),
    {
        proof {
            let es = self.entries@;
            assert forall|i: int| 0 <= i < es.len() implies (#[trigger] es[i]).0 != k by {
                if es[i].0 == k {
                    lemma_assoc_found(es, i);
                }
            }
        }
        self.entries.push((k, v));
        proof {
            assert(self.entries@.drop_last() =~= old(self).entries@);
        }
    }

    /// Removes and returns the value under `k`; `None` (and no change) when
    /// the map does not hold the key.
    pub fn take(&mut self, k: u64) -> (r: Option<V>)
        requires
            old(self).wf(),
        ensures
            final(self).wf(),
            match r {
                Some(v) => {
                    &&& old(self)@.contains_key(k)
                    &&& v == old(self)@[k]
                    &&& final(self)@ == old(self)@.remove(k)
                },
                None => {
                    &&& !old(self)@.contains_key(k)
                    &&& final(self)@ == old(self)@
                },
            },
    {
        match self.find_index(k) {
            Some(i) => {
                proof {
                    lemma_assoc_found(self.entries@, i as int);
                    lemma_assoc_remove(self.entries@, i as int);
                    assert(self.entries@.remove(i as int) =~= self.entries@.subrange(0, i as int)
                        + self.entries@.subrange(i + 1, self.entries@.len() as int));
                }
                let entry = self.entries.remove(i);
                proof {
                    assert(self.entries@ =~= old(self).entries@.remove(i as int));
                }
                Some(entry.1)
            },
            None => {
                proof {
                    lemma_assoc_absent(self.entries@, k);
                }
                None
            },
        }
    }

    /// Removes the value under `k`; a no-op when the map does not hold it.
    pub fn remove(&mut self, k: u64)
        requires
            old(self).wf(),
        ensures
            final(self).wf(),
            final(self)@ == old(self)@.remove(k),
    {
        let r = self.take(k);
        proof {
            if r is None {
                assert(final(self)@ =~= old(self)@.remove(k));
            }
        }
    }

    /// Borrows the value under `k`.
    pub fn get(&self, k: u64) -> (r: Option<&V>)
        requires
            self.wf(),
        ensures
            match r {
                Some(v) => self@.contains_key(k) && *v == self@[k],
                None => !self@.contains_key(k),
            },
    {
        match self.find_index(k) {
            Some(i) => {
                proof {
                    lemma_assoc_found(self.entries@, i as int);
                }
                Some(&self.entries[i].1)
            },
            None => {
                proof {
                    lemma_assoc_absent(self.entries@, k);
                }
                None
            },
        }
    }
}

} // verus!
