//! A map that keeps its entries in the order in which their keys were first inserted.

use crate::ids::{DbId, TableId};
use vstd::prelude::*;

verus! {

/// A key whose equality is that of its value.
pub trait MapKey: Sized {
    /// Whether the two keys are equal.
    fn same(&self, other: &Self) -> (r: bool)
        ensures
            r == (*self == *other),
    ;
}

impl MapKey for DbId {
    fn same(&self, other: &DbId) -> (r: bool) {
        self.0 == other.0
    }
}

impl MapKey for TableId {
    fn same(&self, other: &TableId) -> (r: bool) {
        self.0 == other.0
    }
}

impl MapKey for (DbId, TableId) {
    fn same(&self, other: &(DbId, TableId)) -> (r: bool) {
        self.0.0 == other.0.0 && self.1.0 == other.1.0
    }
}

/// A map that keeps its entries in the order in which their keys were first inserted.
#[derive(Debug)]
pub struct VecMap<K, V> {
    pub entries: Vec<(K, V)>,
}

impl<K, V> VecMap<K, V> {
    /// No two entries have one key.
    pub open spec fn wf(&self) -> bool {
        forall|i: int, j: int|
            0 <= i < j < self.entries@.len() ==> (#[trigger] self.entries@[i]).0 != (
            #[trigger] self.entries@[j]).0
    }

    /// Entry `i` is the one for `k`.
    pub open spec fn entry_for(&self, i: int, k: K) -> bool {
        0 <= i < self.entries@.len() && self.entries@[i].0 == k
    }

    /// The map from keys to values.
    pub open spec fn view(&self) -> Map<K, V> {
        Map::new(
            |k: K| exists|i: int| self.entry_for(i, k),
            |k: K| self.entries@[choose|i: int| self.entry_for(i, k)].1,
        )
    }

    /// An empty map.
    pub fn new() -> (r: VecMap<K, V>)
        ensures
            r.wf(),
            r@ == Map::<K, V>::empty(),
            r.entries@ == Seq::<(K, V)>::empty(),
    {
        let r = VecMap { entries: Vec::new() };
        assert(r@ =~= Map::<K, V>::empty());
        r
    }

    /// The number of entries.
    pub fn len(&self) -> (r: usize)
        ensures
            r == self.entries@.len(),
            self.wf() ==> self@.dom().finite() && r == self@.dom().len(),
    {
        proof {
            if self.wf() {
                self.lemma_len();
            }
        }
        self.entries.len()
    }

    /// Whether there are no entries.
    pub fn is_empty(&self) -> (r: bool)
        ensures
            r == (self.entries@.len() == 0),
            r == (self@ == Map::<K, V>::empty()),
    {
        proof {
            if self.entries@.len() == 0 {
                assert(self@ =~= Map::<K, V>::empty());
            } else {
                assert(self.entry_for(0, self.entries@[0].0));
                assert(self@.contains_key(self.entries@[0].0));
            }
        }
        self.entries.len() == 0
    }

    /// The entry at a position is what the map holds for its key.
    pub proof fn lemma_entry(&self, i: int)
        requires
            self.wf(),
            0 <= i < self.entries@.len(),
        ensures
            self@.contains_key(self.entries@[i].0),
            self@[self.entries@[i].0] == self.entries@[i].1,
    {
        let k = self.entries@[i].0;
        assert(self.entry_for(i, k));
        let j = choose|j: int| self.entry_for(j, k);
        assert(self.entry_for(j, k));
        assert(self.entries@[i].0 == self.entries@[j].0);
    }

    spec fn insert_matches(self, after: VecMap<K, V>, k: K, key: K, value: V) -> bool {
        &&& after@.contains_key(k) == (k == key || self@.contains_key(k))
        &&& after@.contains_key(k) ==> after@[k] == (if k == key {
            value
        } else {
            self@[k]
        })
    }

    proof fn lemma_insert_matches(self, after: VecMap<K, V>, key: K, value: V)
        requires
            forall|k: K| #[trigger] self.insert_matches(after, k, key, value),
        ensures
            after@ == self@.insert(key, value),
    {
        let expected = self@.insert(key, value);
        assert forall|k: K| after@.contains_key(k) == expected.contains_key(k) by {
            assert(self.insert_matches(after, k, key, value));
        }
        assert forall|k: K| after@.contains_key(k) implies after@[k] == expected[k] by {
            assert(self.insert_matches(after, k, key, value));
        }
        assert(after@ =~= expected);
    }

    proof fn lemma_len(&self)
        requires
            self.wf(),
        ensures
            self@.dom().finite(),
            self@.dom().len() == self.entries@.len(),
    {
        let keys = self.entries@.map_values(|e: (K, V)| e.0);
        assert(keys.no_duplicates()) by {
            assert forall|i: int, j: int|
                0 <= i < keys.len() && 0 <= j < keys.len() && i != j implies keys[i] != keys[j] by {
                assert(keys[i] == self.entries@[i].0);
                assert(keys[j] == self.entries@[j].0);
            }
        }
        keys.unique_seq_to_set();
        assert(keys.to_set() =~= self@.dom()) by {
            assert forall|k: K| keys.to_set().contains(k) == self@.dom().contains(k) by {
                if keys.contains(k) {
                    let i = choose|i: int| 0 <= i < keys.len() && keys[i] == k;
                    assert(self.entry_for(i, k));
                }
                if self@.contains_key(k) {
                    let i = choose|i: int| self.entry_for(i, k);
                    assert(self.entry_for(i, k));
                    assert(keys[i] == k);
                }
            }
        }
    }
}

impl<K: MapKey, V> VecMap<K, V> {
    /// The position of the entry for `key`.
    pub(crate) fn position(&self, key: &K) -> (r: Option<usize>)
        ensures
            match r {
                Some(i) => self.entry_for(i as int, *key),
                None => !self@.contains_key(*key),
            },
    {
        let mut i: usize = 0;
        while i < self.entries.len()
            invariant
                i <= self.entries@.len(),
                forall|j: int| 0 <= j < i ==> (#[trigger] self.entries@[j]).0 != *key,
            decreases self.entries@.len() - i,
        {
            if self.entries[i].0.same(key) {
                return Some(i);
            }
            i = i + 1;
        }
        None
    }

    /// The value for `key`.
    pub fn get(&self, key: &K) -> (r: Option<&V>)
        requires
            self.wf(),
        ensures
            match r {
                Some(v) => self@.contains_key(*key) && *v == self@[*key],
                None => !self@.contains_key(*key),
            },
    {
        match self.position(key) {
            Some(i) => {
                proof {
                    self.lemma_entry(i as int);
                }
                Some(&self.entries[i].1)
            },
            None => None,
        }
    }

    /// Let `key` have `value`, in its place where there is an entry for it and last where there
    /// is none.
    pub fn insert(&mut self, key: K, value: V)
        requires
            old(self).wf(),
        ensures
            final(self).wf(),
            final(self)@ == old(self)@.insert(key, value),
            old(self)@.contains_key(key) ==> exists|i: int| #[trigger]
                old(self).entry_for(i, key) && final(self).entries@
                    == old(self).entries@.update(i, (key, value)),
            !old(self)@.contains_key(key) ==> final(self).entries@ == old(self).entries@.push(
                (key, value),
            ),
    {
        let ghost before = *self;
        match self.position(&key) {
            Some(i) => {
                proof {
                    self.lemma_entry(i as int);
                }
                self.entries[i] = (key, value);
                proof {
                    assert(before.entry_for(i as int, key));
                    lemma_replaced(before, *self, i as int, value);
                }
            },
            None => {
                proof {
                    assert forall|j: int| 0 <= j < before.entries@.len() implies (
                    #[trigger] before.entries@[j]).0 != key by {
                        if before.entries@[j].0 == key {
                            assert(before.entry_for(j, key));
                        }
                    }
                }
                self.entries.push((key, value));
                proof {
                    assert forall|k: K| #[trigger] before.insert_matches(*self, k, key, value) by {
                        if k == key {
                            assert(self.entry_for(before.entries@.len() as int, key));
                            self.lemma_entry(before.entries@.len() as int);
                        } else if before@.contains_key(k) {
                            let j = choose|j: int| before.entry_for(j, k);
                            assert(before.entry_for(j, k));
                            assert(self.entry_for(j, k));
                            assert(self.entries@[j] == before.entries@[j]);
                            self.lemma_entry(j);
                            before.lemma_entry(j);
                        } else if self@.contains_key(k) {
                            let j = choose|j: int| self.entry_for(j, k);
                            assert(self.entry_for(j, k));
                            assert(before.entry_for(j, k));
                        }
                    }
                    before.lemma_insert_matches(*self, key, value);
                }
            },
        }
    }
}

/// Replacing the value of one entry.
pub proof fn lemma_replaced<K, V>(before: VecMap<K, V>, after: VecMap<K, V>, i: int, value: V)
    requires
        before.wf(),
        0 <= i < before.entries@.len(),
        after.entries@ == before.entries@.update(i, (before.entries@[i].0, value)),
    ensures
        after.wf(),
        after@ == before@.insert(before.entries@[i].0, value),
{
    let key = before.entries@[i].0;
    assert forall|a: int, b: int| 0 <= a < b < after.entries@.len() implies (
    #[trigger] after.entries@[a]).0 != (#[trigger] after.entries@[b]).0 by {
        assert(before.entries@[a].0 == after.entries@[a].0);
        assert(before.entries@[b].0 == after.entries@[b].0);
    }
    let expected = before@.insert(key, value);
    assert forall|k: K| #[trigger] before.insert_matches(after, k, key, value) by {
        if after@.contains_key(k) {
            let j = choose|j: int| after.entry_for(j, k);
            assert(after.entry_for(j, k));
            assert(before.entry_for(j, k));
            after.lemma_entry(j);
            before.lemma_entry(j);
            assert(k == key ==> i == j);
        }
        if k == key {
            assert(after.entry_for(i, k));
        } else if before@.contains_key(k) {
            let j = choose|j: int| before.entry_for(j, k);
            assert(before.entry_for(j, k));
            assert(after.entry_for(j, k));
        }
    }
    before.lemma_insert_matches(after, key, value);
}

} // verus!
