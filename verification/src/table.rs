//! A small map from content identifiers to values, kept in insertion order.

use crate::hbfi::HBFI;
use vstd::prelude::*;

verus! {

/// A map keyed by `HBFI`. Keys are compared structurally and occur once.
pub struct Table<V> {
    keys: Vec<HBFI>,
    values: Vec<V>,
}

impl<V> Table<V> {
    /// The keys in insertion order.
    pub closed spec fn keys(&self) -> Seq<HBFI> {
        self.keys@
    }

    /// The values, each at the position of its key.
    pub closed spec fn values(&self) -> Seq<V> {
        self.values@
    }

    /// Every key has one value and occurs once.
    pub open spec fn wf(&self) -> bool {
        &&& self.keys().len() == self.values().len()
        &&& self.keys().no_duplicates()
    }

    /// The map that the table holds.
    pub open spec fn view(&self) -> Map<HBFI, V> {
        Map::new(
            |k: HBFI| self.keys().contains(k),
            |k: HBFI| self.values()[self.keys().index_of(k)],
        )
    }

    /// In a well-formed table the value of the key at `i` is the value at `i`.
    pub proof fn lemma_entry(&self, i: int)
        requires
            self.wf(),
            0 <= i < self.keys().len(),
        ensures
            self@.contains_key(self.keys()[i]),
            self@[self.keys()[i]] == self.values()[i],
    {
        let k = self.keys()[i];
        assert(self.keys().contains(k));
        let j = self.keys().index_of(k);
        assert(0 <= j < self.keys().len() && self.keys()[j] == k);
    }

    /// The domain of the map is finite: it has as many keys as the table
    /// has entries.
    pub proof fn lemma_domain(&self)
        requires
            self.wf(),
        ensures
            self@.dom() =~= self.keys().to_set(),
            self@.dom().finite(),
            self@.dom().len() == self.keys().len(),
    {
        self.keys().unique_seq_to_set();
        vstd::seq_lib::seq_to_set_is_finite(self.keys());
    }

    /// An empty table.
    pub fn new() -> (table: Table<V>)
        ensures
            table.wf(),
            table@ == Map::<HBFI, V>::empty(),
            table.keys().len() == 0,
    {
        let table = Table { keys: Vec::new(), values: Vec::new() };
        assert(table@ =~= Map::<HBFI, V>::empty());
        table
    }

    /// Number of entries.
    pub fn len(&self) -> (n: usize)
        requires
            self.wf(),
        ensures
            n == self.keys().len(),
            n == self@.dom().len(),
    {
        proof {
            self.lemma_domain();
        }
        self.keys.len()
    }

    /// The key at position `i`.
    pub fn key_at(&self, i: usize) -> (k: HBFI)
        requires
            i < self.keys().len(),
        ensures
            k == self.keys()[i as int],
    {
        self.keys[i]
    }

    /// The value at position `i`.
    pub fn value_at(&self, i: usize) -> (v: &V)
        requires
            self.wf(),
            i < self.keys().len(),
        ensures
            *v == self.values()[i as int],
            *v == self@[self.keys()[i as int]],
    {
        proof {
            self.lemma_entry(i as int);
        }
        &self.values[i]
    }

    /// Where `key` stands, if it is there.
    pub fn position(&self, key: &HBFI) -> (r: Option<usize>)
        requires
            self.wf(),
        ensures
            r is Some <==> self@.contains_key(*key),
            r matches Some(i) ==> i < self.keys().len() && self.keys()[i as int] == *key,
    {
        let mut i: usize = 0;
        while i < self.keys.len()
            invariant
                0 <= i <= self.keys@.len(),
                forall|j: int| 0 <= j < i ==> self.keys@[j] != *key,
            decreases self.keys@.len() - i,
        {
            if self.keys[i].equals(key) {
                assert(self.keys().contains(*key));
                return Some(i);
            }
            i = i + 1;
        }
        None
    }

    /// The value of `key`, if it has one.
    pub fn get(&self, key: &HBFI) -> (r: Option<&V>)
        requires
            self.wf(),
        ensures
            r is Some <==> self@.contains_key(*key),
            r matches Some(v) ==> *v == self@[*key],
    {
        match self.position(key) {
            Some(i) => {
                proof {
                    self.lemma_entry(i as int);
                }
                Some(&self.values[i])
            },
            None => None,
        }
    }

    /// Gives `key` the value `value`, in place of the one it had, if any.
    pub fn insert(&mut self, key: HBFI, value: V)
        requires
            old(self).wf(),
        ensures
            final(self).wf(),
            final(self)@ == old(self)@.insert(key, value),
    {
        match self.position(&key) {
            Some(i) => {
                self.values.set(i, value);
                proof {
                    assert forall|k: HBFI| self@.contains_key(k) implies #[trigger] self@[k] == old(
                        self,
                    )@.insert(key, value)[k] by {
                        let j = self.keys().index_of(k);
                        assert(0 <= j < self.keys().len() && self.keys()[j] == k);
                    }
                    assert(self@ =~= old(self)@.insert(key, value));
                }
            },
            None => {
                self.keys.push(key);
                self.values.push(value);
                proof {
                    let n = old(self).keys().len() as int;
                    assert forall|k: HBFI| #[trigger]
                        self.keys().contains(k) == (k == key || old(self).keys().contains(k)) by {
                        if k == key {
                            assert(self.keys()[n] == k);
                        } else if old(self).keys().contains(k) {
                            let j = old(self).keys().index_of(k);
                            assert(self.keys()[j] == k);
                        } else if self.keys().contains(k) {
                            let j = self.keys().index_of(k);
                            assert(j < n);
                            assert(old(self).keys()[j] == k);
                        }
                    }
                    assert forall|k: HBFI| self@.contains_key(k) implies #[trigger] self@[k] == old(
                        self,
                    )@.insert(key, value)[k] by {
                        let j = self.keys().index_of(k);
                        assert(0 <= j < self.keys().len() && self.keys()[j] == k);
                        if k != key {
                            assert(j < n);
                            let i = old(self).keys().index_of(k);
                            assert(0 <= i < n && old(self).keys()[i] == k);
                            assert(self.keys()[i] == k);
                            assert(i == j);
                        }
                    }
                    assert(self@ =~= old(self)@.insert(key, value));
                }
            },
        }
    }

    /// Takes out the entry at position `i`.
    pub fn remove_at(&mut self, i: usize) -> (entry: (HBFI, V))
        requires
            old(self).wf(),
            i < old(self).keys().len(),
        ensures
            final(self).wf(),
            entry.0 == old(self).keys()[i as int],
            entry.1 == old(self).values()[i as int],
            final(self)@ == old(self)@.remove(entry.0),
            final(self).keys() == old(self).keys().remove(i as int),
            final(self).values() == old(self).values().remove(i as int),
    {
        let key = self.keys.remove(i);
        let value = self.values.remove(i);
        proof {
            let before = old(self).keys();
            let after = self.keys();
            assert forall|a: int, b: int|
                0 <= a < after.len() && 0 <= b < after.len() && a != b implies after[a]
                != after[b] by {
                let x = if a < i { a } else { a + 1 };
                let y = if b < i { b } else { b + 1 };
                assert(after[a] == before[x]);
                assert(after[b] == before[y]);
            }
            assert forall|k: HBFI| #[trigger]
                after.contains(k) == (k != key && before.contains(k)) by {
                if after.contains(k) {
                    let a = after.index_of(k);
                    let x = if a < i { a } else { a + 1 };
                    assert(before[x] == k);
                }
                if k != key && before.contains(k) {
                    let x = before.index_of(k);
                    let a = if x < i { x } else { x - 1 };
                    assert(after[a] == k);
                }
            }
            assert forall|k: HBFI| self@.contains_key(k) implies #[trigger] self@[k] == old(
                self,
            )@[k] by {
                let a = after.index_of(k);
                assert(0 <= a < after.len() && after[a] == k);
                let x = if a < i { a } else { a + 1 };
                assert(before[x] == k);
                let y = before.index_of(k);
                assert(0 <= y < before.len() && before[y] == k);
                assert(x == y);
            }
            assert(self@ =~= old(self)@.remove(key));
        }
        (key, value)
    }

    /// Takes out the entry of `key`, if there is one, and hands back its
    /// value.
    pub fn remove(&mut self, key: &HBFI) -> (r: Option<V>)
        requires
            old(self).wf(),
        ensures
            final(self).wf(),
            final(self)@ == old(self)@.remove(*key),
            r is Some <==> old(self)@.contains_key(*key),
            r matches Some(v) ==> v == old(self)@[*key],
    {
        match self.position(key) {
            Some(i) => {
                proof {
                    self.lemma_entry(i as int);
                }
                let entry = self.remove_at(i);
                Some(entry.1)
            },
            None => {
                assert(self@ =~= old(self)@.remove(*key));
                None
            },
        }
    }
}

} // verus!
