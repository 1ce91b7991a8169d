//! A map from strings to values that keeps its entries in the order of its
//! keys, as a pair of vectors.

use crate::text::{
    lemma_precedes_irreflexive, lemma_precedes_total, lemma_precedes_transitive, precedes, rank,
    texts, Rank,
};
use vstd::prelude::*;

verus! {

/// A finite map keyed by strings. Its entries are held in ascending order of
/// their keys, by code point, so no key occurs twice and the entries are
/// walked in that order.
#[derive(Debug, Clone)]
pub struct SortedMap<V> {
    keys: Vec<String>,
    values: Vec<V>,
}

/// Each key but the last precedes all the keys after it.
pub open spec fn ascending(keys: Seq<Seq<char>>) -> bool {
    forall|i: int, j: int| 0 <= i < j < keys.len() ==> precedes(#[trigger] keys[i], #[trigger] keys[j])
}

/// The keys of an ascending sequence are distinct.
pub proof fn lemma_ascending_distinct(keys: Seq<Seq<char>>)
    requires
        ascending(keys),
    ensures
        keys.no_duplicates(),
{
    assert forall|i: int, j: int| 0 <= i < keys.len() && 0 <= j < keys.len() && i != j implies keys[i]
        != keys[j] by {
        lemma_precedes_irreflexive(keys[i]);
        if i < j {
            assert(precedes(keys[i], keys[j]));
        } else {
            assert(precedes(keys[j], keys[i]));
        }
    }
}

impl<V> SortedMap<V> {
    /// The keys, in ascending order.
    pub closed spec fn ordered_keys(&self) -> Seq<Seq<char>> {
        texts(self.keys@)
    }

    /// The values, in the order of their keys.
    pub closed spec fn ordered_values(&self) -> Seq<V> {
        self.values@
    }

    /// The map is well formed: each key has its value, and the keys ascend.
    pub open spec fn wf(&self) -> bool {
        &&& self.ordered_keys().len() == self.ordered_values().len()
        &&& ascending(self.ordered_keys())
    }

    /// The map as a mathematical map from the characters of a key to its
    /// value.
    pub open spec fn view(&self) -> Map<Seq<char>, V> {
        Map::new(
            |key: Seq<char>| self.ordered_keys().contains(key),
            |key: Seq<char>| self.ordered_values()[self.ordered_keys().index_of(key)],
        )
    }

    /// In a well-formed map, the entry at each position of the order is the
    /// entry of the map under that key.
    pub proof fn lemma_entries(&self)
        requires
            self.wf(),
        ensures
            self.ordered_keys().no_duplicates(),
            self@.dom().finite(),
            self@.dom() == self.ordered_keys().to_set(),
            self@.len() == self.ordered_keys().len(),
            forall|i: int|
                0 <= i < self.ordered_keys().len() ==> self@.contains_key(
                    #[trigger] self.ordered_keys()[i],
                ) && self@[self.ordered_keys()[i]] == self.ordered_values()[i],
    {
        let keys = self.ordered_keys();
        lemma_ascending_distinct(keys);
        assert(self@.dom() =~= keys.to_set());
        keys.unique_seq_to_set();
        assert forall|i: int| 0 <= i < keys.len() implies self@.contains_key(#[trigger] keys[i])
            && self@[keys[i]] == self.ordered_values()[i] by {
            assert(keys.contains(keys[i]));
            assert(keys.index_of(keys[i]) == i);
        }
    }

    /// A map without entries.
    pub fn new() -> (map: Self)
        ensures
            map.wf(),
            map@ == Map::<Seq<char>, V>::empty(),
            map.ordered_keys() == Seq::<Seq<char>>::empty(),
            map.ordered_values() == Seq::<V>::empty(),
    {
        let map = SortedMap { keys: Vec::new(), values: Vec::new() };
        assert(map.ordered_keys() =~= Seq::empty());
        assert(map@ =~= Map::empty());
        map
    }

    /// The number of entries.
    pub fn len(&self) -> (n: usize)
        requires
            self.wf(),
        ensures
            n == self@.len(),
            n == self.ordered_keys().len(),
    {
        proof {
            self.lemma_entries();
        }
        self.keys.len()
    }

    /// Whether the map has no entries.
    pub fn is_empty(&self) -> (empty: bool)
        requires
            self.wf(),
        ensures
            empty == (self@.len() == 0),
    {
        proof {
            self.lemma_entries();
        }
        self.keys.len() == 0
    }

    /// Where `key` stands in the order of the keys: the position of the first
    /// key that does not precede it, and whether that key is `key` itself.
    fn search(&self, key: &str) -> (place: (usize, bool))
        requires
            self.wf(),
        ensures
            place.0 <= self.ordered_keys().len(),
            forall|i: int| 0 <= i < place.0 ==> precedes(self.ordered_keys()[i], key@),
            place.1 ==> place.0 < self.ordered_keys().len() && self.ordered_keys()[place.0 as int]
                == key@,
            !place.1 ==> forall|i: int|
                place.0 <= i < self.ordered_keys().len() ==> precedes(
                    key@,
                    self.ordered_keys()[i],
                ),
            place.1 == self@.contains_key(key@),
    {
        let mut index: usize = 0;
        let mut found = false;
        loop
            invariant_except_break
                !found,
            invariant
                self.wf(),
                index <= self.keys@.len(),
                forall|i: int| 0 <= i < index ==> precedes(self.ordered_keys()[i], key@),
            ensures
                found ==> index < self.keys@.len() && self.ordered_keys()[index as int] == key@,
                !found ==> index == self.keys@.len() || precedes(
                    key@,
                    self.ordered_keys()[index as int],
                ),
            decreases self.keys@.len() - index,
        {
            if index >= self.keys.len() {
                break;
            }
            match rank(self.keys[index].as_str(), key) {
                Rank::Before => {
                    index += 1;
                },
                Rank::Same => {
                    found = true;
                    break;
                },
                Rank::After => {
                    proof {
                        lemma_precedes_total(self.ordered_keys()[index as int], key@);
                    }
                    break;
                },
            }
        }
        proof {
            let keys = self.ordered_keys();
            lemma_precedes_irreflexive(key@);
            if !found {
                assert forall|i: int| index <= i < keys.len() implies precedes(key@, keys[i]) by {
                    if i > index {
                        assert(precedes(keys[index as int], keys[i]));
                        lemma_precedes_transitive(key@, keys[index as int], keys[i]);
                    }
                }
                assert forall|i: int| 0 <= i < keys.len() implies keys[i] != key@ by {
                    if i < index {
                        assert(precedes(keys[i], key@));
                    } else {
                        assert(precedes(key@, keys[i]));
                    }
                }
            } else {
                assert(keys.contains(key@));
            }
        }
        (index, found)
    }

    /// The position of `key` in the order of the keys, if the map has it.
    pub fn position(&self, key: &str) -> (found: Option<usize>)
        requires
            self.wf(),
        ensures
            match found {
                Some(index) => index < self.ordered_keys().len() && self.ordered_keys()[index as int]
                    == key@,
                None => !self@.contains_key(key@),
            },
    {
        let (index, found) = self.search(key);
        if found {
            Some(index)
        } else {
            None
        }
    }

    /// Whether the map has an entry under `key`.
    pub fn contains_key(&self, key: &str) -> (found: bool)
        requires
            self.wf(),
        ensures
            found == self@.contains_key(key@),
    {
        self.position(key).is_some()
    }

    /// The value under `key`, if the map has one.
    pub fn get(&self, key: &str) -> (found: Option<&V>)
        requires
            self.wf(),
        ensures
            match found {
                Some(value) => self@.contains_key(key@) && *value == self@[key@],
                None => !self@.contains_key(key@),
            },
    {
        proof {
            self.lemma_entries();
        }
        match self.position(key) {
            Some(index) => Some(&self.values[index]),
            None => None,
        }
    }

    /// The key at a position of the order.
    pub fn key_at(&self, index: usize) -> (key: &String)
        requires
            self.wf(),
            index < self.ordered_keys().len(),
        ensures
            key@ == self.ordered_keys()[index as int],
    {
        &self.keys[index]
    }

    /// The value at a position of the order.
    pub fn value_at(&self, index: usize) -> (value: &V)
        requires
            self.wf(),
            index < self.ordered_keys().len(),
        ensures
            *value == self.ordered_values()[index as int],
    {
        &self.values[index]
    }

    /// The value at a position of the order, to be changed in place. The keys
    /// and the other values stay as they are.
    pub fn value_mut(&mut self, index: usize) -> (value: &mut V)
        requires
            old(self).wf(),
            index < old(self).ordered_keys().len(),
        ensures
            *value == old(self).ordered_values()[index as int],
            final(self).wf(),
            final(self).ordered_keys() == old(self).ordered_keys(),
            final(self).ordered_values() == old(self).ordered_values().update(
                index as int,
                *final(value),
            ),
            final(self)@ == old(self)@.insert(old(self).ordered_keys()[index as int], *final(value)),
    {
        proof {
            self.lemma_entries();
        }
        &mut self.values[index]
    }

    /// Puts `value` under `key`. A value that was there before is replaced and
    /// returned.
    pub fn insert(&mut self, key: String, value: V) -> (previous: Option<V>)
        requires
            old(self).wf(),
        ensures
            final(self).wf(),
            final(self)@ == old(self)@.insert(key@, value),
            match previous {
                Some(replaced) => old(self)@.contains_key(key@) && replaced == old(self)@[key@],
                None => !old(self)@.contains_key(key@),
            },
    {
        proof {
            self.lemma_entries();
        }
        let (index, found) = self.search(key.as_str());
        if found {
            self.values.push(value);
            let replaced = self.values.swap_remove(index);
            proof {
                assert(self.ordered_values() =~= old(self).ordered_values().update(
                    index as int,
                    value,
                ));
                self.lemma_entries();
                assert(self@ =~= old(self)@.insert(key@, value));
            }
            return Some(replaced);
        }
        self.keys.insert(index, key);
        self.values.insert(index, value);
        proof {
            let before = old(self).ordered_keys();
            let after = self.ordered_keys();
            assert(after =~= before.insert(index as int, key@));
            assert forall|i: int, j: int| 0 <= i < j < after.len() implies precedes(
                #[trigger] after[i],
                #[trigger] after[j],
            ) by {
                if j == index {
                    assert(after[i] == before[i]);
                } else if i == index {
                    assert(after[j] == before[j - 1]);
                    if j - 1 > index {
                        assert(precedes(before[index as int], before[j - 1]));
                        lemma_precedes_transitive(key@, before[index as int], before[j - 1]);
                    }
                } else {
                    let a = if i < index { i } else { i - 1 };
                    let b = if j < index { j } else { j - 1 };
                    assert(after[i] == before[a]);
                    assert(after[j] == before[b]);
                    assert(precedes(before[a], before[b]));
                }
            }
            self.lemma_entries();
            let was = old(self)@;
            let now = self@;
            assert forall|k: Seq<char>| #[trigger]
                now.dom().contains(k) <==> was.insert(key@, value).dom().contains(k) by {
                if before.contains(k) {
                    let i = before.index_of(k);
                    let j = if i < index { i } else { i + 1 };
                    assert(after[j] == k);
                }
                if after.contains(k) && k != key@ {
                    let j = after.index_of(k);
                    let i = if j < index { j } else { j - 1 };
                    assert(before[i] == k);
                }
                assert(after[index as int] == key@);
            }
            assert forall|k: Seq<char>| #[trigger] now.dom().contains(k) implies now[k]
                == was.insert(key@, value)[k] by {
                let j = after.index_of(k);
                assert(after.contains(k));
                if j != index {
                    let i = if j < index { j } else { j - 1 };
                    assert(before[i] == k);
                    assert(was[before[i]] == old(self).ordered_values()[i]);
                    assert(now[after[j]] == self.ordered_values()[j]);
                }
            }
            assert(now =~= was.insert(key@, value));
        }
        None
    }

    /// The values in the order of their keys.
    pub fn into_values(self) -> (values: Vec<V>)
        ensures
            values@ == self.ordered_values(),
    {
        self.values
    }
}

} // verus!
