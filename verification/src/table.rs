//! An insertion-ordered map keyed by strings.
//!
//! A [`Table`] keeps its entries in the order in which their keys first
//! arrived, so walking it by position is deterministic, and it keeps a hash
//! index beside them so that a lookup by key does not scan.

use crate::text::copy_strings;
use vstd::hash_map::StringHashMap;
use vstd::prelude::*;

verus! {

/// A map from string keys to values that remembers the order of first insertion.
pub struct Table<V> {
    keys: Vec<String>,
    values: Vec<V>,
    index: StringHashMap<usize>,
}

impl<V: DeepView> Table<V> {
    /// The keys, in order of first insertion.
    pub closed spec fn keys(&self) -> Seq<Seq<char>> {
        Seq::new(self.keys@.len(), |i: int| self.keys@[i]@)
    }

    /// The values, each at the position of its key.
    pub closed spec fn values(&self) -> Seq<V> {
        self.values@
    }

    /// The representation is coherent: one value per key, and the hash index
    /// maps every key to its position and nothing else.
    pub closed spec fn wf(&self) -> bool {
        &&& self.keys@.len() == self.values@.len()
        &&& forall|i: int|
            0 <= i < self.keys@.len() ==> {
                &&& self.index@.contains_key(#[trigger] self.keys@[i]@)
                &&& self.index@[self.keys@[i]@] == i
            }
        &&& forall|k: Seq<char>| #[trigger]
            self.index@.contains_key(k) ==> {
                &&& self.index@[k] < self.keys@.len()
                &&& self.keys@[self.index@[k] as int]@ == k
            }
    }

    /// The position of `key` among the keys (meaningful when the key is present).
    pub open spec fn position_of(&self, key: Seq<char>) -> int {
        self.keys().index_of(key)
    }

    /// The table as a map from keys to the deep views of their values.
    pub open spec fn as_map(&self) -> Map<Seq<char>, V::V> {
        Map::new(
            |k: Seq<char>| self.keys().contains(k),
            |k: Seq<char>| self.values()[self.position_of(k)].deep_view(),
        )
    }

    /// What well-formedness means for the abstract state: keys and values
    /// line up, no key occurs twice, and the map view reads each value at the
    /// position of its key.
    pub proof fn lemma_wf(&self)
        requires
            self.wf(),
        ensures
            self.keys().len() == self.values().len(),
            self.keys().no_duplicates(),
            self@.dom() == self.keys().to_set(),
            self@.dom().finite(),
            forall|i: int|
                0 <= i < self.keys().len() ==> {
                    &&& self.position_of(#[trigger] self.keys()[i]) == i
                    &&& self@.contains_key(self.keys()[i])
                    &&& self@[self.keys()[i]] == self.values()[i].deep_view()
                },
            forall|k: Seq<char>| #[trigger]
                self@.contains_key(k) ==> {
                    &&& 0 <= self.position_of(k) < self.keys().len()
                    &&& self.keys()[self.position_of(k)] == k
                },
    {
        let keys = self.keys();
        assert forall|i: int, j: int|
            0 <= i < keys.len() && 0 <= j < keys.len() && i != j implies keys[i] != keys[j] by {
            assert(self.index@[self.keys@[i]@] == i);
            assert(self.index@[self.keys@[j]@] == j);
        }
        assert forall|i: int| 0 <= i < keys.len() implies self.position_of(#[trigger] keys[i])
            == i by {
            let p = keys.index_of(keys[i]);
            assert(keys[i] == keys[i]);
            assert(0 <= p < keys.len() && keys[p] == keys[i]);
        }
        assert(self@.dom() =~= keys.to_set());
        vstd::seq_lib::seq_to_set_is_finite(keys);
    }

    /// A table whose value at one position was replaced reads as before
    /// but at the key of that position.
    pub proof fn lemma_value_replaced(&self, before: &Self, i: int)
        requires
            before.wf(),
            self.wf(),
            0 <= i < before.keys().len(),
            self.keys() == before.keys(),
            self.values() == before.values().update(i, self.values()[i]),
        ensures
            self@ == before@.insert(before.keys()[i], self.values()[i].deep_view()),
    {
        self.lemma_wf();
        before.lemma_wf();
        assert forall|k: Seq<char>| #[trigger]
            self@.contains_key(k) && k != before.keys()[i] implies self@[k] == before@[k] by {
            let p = self.position_of(k);
            assert(self.values()[p] == before.values()[p]);
        }
        assert(self@ =~= before@.insert(before.keys()[i], self.values()[i].deep_view()));
    }

    /// An empty table.
    pub fn new() -> (table: Self)
        ensures
            table.wf(),
            table.keys() == Seq::<Seq<char>>::empty(),
            table.values() == Seq::<V>::empty(),
            table@ == Map::<Seq<char>, V::V>::empty(),
    {
        let table = Table { keys: Vec::new(), values: Vec::new(), index: StringHashMap::new() };
        assert(table.keys() =~= Seq::<Seq<char>>::empty());
        assert(table@ =~= Map::<Seq<char>, V::V>::empty());
        table
    }

    /// The number of entries.
    pub fn len(&self) -> (n: usize)
        requires
            self.wf(),
        ensures
            n == self.keys().len(),
            n == self.values().len(),
            n == self@.dom().len(),
    {
        proof {
            self.lemma_wf();
            self.keys().unique_seq_to_set();
        }
        self.keys.len()
    }

    /// Whether the table has no entries.
    pub fn is_empty(&self) -> (empty: bool)
        requires
            self.wf(),
        ensures
            empty == (self.keys().len() == 0),
    {
        self.keys.len() == 0
    }

    /// The key at position `i`.
    pub fn key_at(&self, i: usize) -> (key: &String)
        requires
            self.wf(),
            i < self.keys().len(),
        ensures
            key@ == self.keys()[i as int],
    {
        &self.keys[i]
    }

    /// A copy of the keys, in order of first insertion.
    pub fn key_list(&self) -> (out: Vec<String>)
        requires
            self.wf(),
        ensures
            out.deep_view() == self.keys(),
    {
        let out = copy_strings(&self.keys);
        assert(out.deep_view() =~= self.keys());
        out
    }

    /// The value at position `i`.
    pub fn value_at(&self, i: usize) -> (value: &V)
        requires
            self.wf(),
            i < self.keys().len(),
        ensures
            *value == self.values()[i as int],
            value.deep_view() == self@[self.keys()[i as int]],
    {
        proof {
            self.lemma_wf();
        }
        &self.values[i]
    }

    /// The position of `key`, if the table holds it.
    pub fn position(&self, key: &str) -> (found: Option<usize>)
        requires
            self.wf(),
        ensures
            match found {
                Some(i) => i < self.keys().len() && self.keys()[i as int] == key@
                    && self.position_of(key@) == i,
                None => !self.keys().contains(key@),
            },
            found is Some <==> self@.contains_key(key@),
    {
        proof {
            self.lemma_wf();
        }
        match self.index.get(key) {
            Some(i) => {
                assert(self.keys()[*i as int] == key@);
                Some(*i)
            },
            None => {
                assert forall|i: int| 0 <= i < self.keys().len() implies self.keys()[i] != key@ by {
                    assert(self.index@.contains_key(self.keys@[i]@));
                }
                None
            },
        }
    }

    /// Whether the table holds `key`.
    pub fn contains_key(&self, key: &str) -> (present: bool)
        requires
            self.wf(),
        ensures
            present == self@.contains_key(key@),
    {
        self.position(key).is_some()
    }

    /// The value stored under `key`, if any.
    pub fn get(&self, key: &str) -> (value: Option<&V>)
        requires
            self.wf(),
        ensures
            match value {
                Some(v) => self@.contains_key(key@) && v.deep_view() == self@[key@]
                    && *v == self.values()[self.position_of(key@)],
                None => !self@.contains_key(key@),
            },
    {
        match self.position(key) {
            Some(i) => Some(self.value_at(i)),
            None => None,
        }
    }

    /// Stores `value` under `key`. A key that is already present keeps its
    /// position and has its value replaced; a new key goes to the end.
    pub fn insert(&mut self, key: String, value: V)
        requires
            old(self).wf(),
        ensures
            final(self).wf(),
            final(self)@ == old(self)@.insert(key@, value.deep_view()),
            old(self)@.contains_key(key@) ==> {
                &&& final(self).keys() == old(self).keys()
                &&& final(self).values() == old(self).values().update(
                    old(self).position_of(key@),
                    value,
                )
            },
            !old(self)@.contains_key(key@) ==> {
                &&& final(self).keys() == old(self).keys().push(key@)
                &&& final(self).values() == old(self).values().push(value)
            },
    {
        proof {
            self.lemma_wf();
        }
        match self.position(key.as_str()) {
            Some(i) => {
                self.values[i] = value;
                proof {
                    assert(self.keys() == old(self).keys());
                    self.lemma_wf();
                    assert(self@ =~= old(self)@.insert(key@, value.deep_view()));
                }
            },
            None => {
                let n = self.keys.len();
                self.index.insert(key.clone(), n);
                self.keys.push(key);
                self.values.push(value);
                proof {
                    assert(self.keys() =~= old(self).keys().push(key@));
                    assert(self.wf()) by {
                        assert forall|i: int| 0 <= i < self.keys@.len() implies {
                            &&& self.index@.contains_key(#[trigger] self.keys@[i]@)
                            &&& self.index@[self.keys@[i]@] == i
                        } by {
                            if i < n {
                                assert(old(self).keys()[i] == self.keys@[i]@);
                            }
                        }
                    }
                    self.lemma_wf();
                    assert(self.keys()[n as int] == key@);
                    assert forall|k: Seq<char>| #[trigger]
                        old(self)@.contains_key(k) implies self@.contains_key(k) && self@[k] == old(
                            self,
                        )@[k] by {
                        let p = old(self).position_of(k);
                        assert(self.keys()[p] == k);
                    }
                    assert forall|k: Seq<char>| #[trigger]
                        self@.contains_key(k) && k != key@ implies old(self)@.contains_key(k) by {
                        let p = self.position_of(k);
                        assert(old(self).keys()[p] == k);
                    }
                    assert(self@ =~= old(self)@.insert(key@, value.deep_view()));
                }
            },
        }
    }

    /// Replaces the value at position `i`, leaving its key where it is.
    pub fn set_value_at(&mut self, i: usize, value: V)
        requires
            old(self).wf(),
            i < old(self).keys().len(),
        ensures
            final(self).wf(),
            final(self).keys() == old(self).keys(),
            final(self).values() == old(self).values().update(i as int, value),
            final(self)@ == old(self)@.insert(old(self).keys()[i as int], value.deep_view()),
    {
        proof {
            self.lemma_wf();
        }
        self.values[i] = value;
        proof {
            assert(self.keys() == old(self).keys());
            self.lemma_wf();
            assert(self@ =~= old(self)@.insert(old(self).keys()[i as int], value.deep_view()));
        }
    }

    /// Mutable access to the value at position `i`; its key stays where it is.
    pub fn value_at_mut(&mut self, i: usize) -> (value: &mut V)
        requires
            old(self).wf(),
            i < old(self).keys().len(),
        ensures
            *value == old(self).values()[i as int],
            final(self).wf(),
            final(self).keys() == old(self).keys(),
            final(self).values() == old(self).values().update(i as int, *final(value)),
    {
        &mut self.values[i]
    }
}

impl<V: DeepView> View for Table<V> {
    type V = Map<Seq<char>, V::V>;

    open spec fn view(&self) -> Map<Seq<char>, V::V> {
        self.as_map()
    }
}

impl<V: DeepView> DeepView for Table<V> {
    type V = Map<Seq<char>, V::V>;

    open spec fn deep_view(&self) -> Map<Seq<char>, V::V> {
        self.as_map()
    }
}

} // verus!
