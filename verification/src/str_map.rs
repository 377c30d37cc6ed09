//! A map from strings to values, kept as a vector of keys in ascending
//! order beside the vector of their values.

use crate::order::{ascending, is_listing, lemma_ascending_distinct, lemma_listing_is_sorted_keys,
    sorted_keys};
use crate::sorted::{lemma_insert_at_gap, lemma_prefix_set_grows, lemma_remove_at, locate, texts};
use vstd::prelude::*;

verus! {

/// A finite map keyed by strings. Walking it by position yields the keys in
/// ascending order, so that listings are the same on every run.
#[derive(Debug)]
pub struct StrMap<V> {
    keys: Vec<String>,
    vals: Vec<V>,
}

/// The map that pairs each key with the value at the same position.
pub open spec fn paired<V>(keys: Seq<Seq<char>>, vals: Seq<V>) -> Map<Seq<char>, V> {
    Map::new(|k: Seq<char>| keys.contains(k), |k: Seq<char>| vals[keys.index_of(k)])
}

/// In an ascending sequence every key is found at its own position.
pub proof fn lemma_paired<V>(keys: Seq<Seq<char>>, vals: Seq<V>)
    requires
        ascending(keys),
        keys.len() == vals.len(),
    ensures
        paired(keys, vals).dom() == keys.to_set(),
        forall|i: int|
            0 <= i < keys.len() ==> paired(keys, vals).contains_key(#[trigger] keys[i])
                && paired(keys, vals)[keys[i]] == vals[i],
{
    lemma_ascending_distinct(keys);
    assert(paired(keys, vals).dom() =~= keys.to_set());
    assert forall|i: int| 0 <= i < keys.len() implies paired(keys, vals).contains_key(
        #[trigger] keys[i],
    ) && paired(keys, vals)[keys[i]] == vals[i] by {
        assert(keys.contains(keys[i]));
        let j = keys.index_of(keys[i]);
        assert(0 <= j < keys.len() && keys[j] == keys[i]);
    }
}

impl<V> View for StrMap<V> {
    type V = Map<Seq<char>, V>;

    closed spec fn view(&self) -> Map<Seq<char>, V> {
        paired(texts(self.keys@), self.vals@)
    }
}

impl<V> StrMap<V> {
    /// The keys in storage order.
    pub closed spec fn keys(&self) -> Seq<Seq<char>> {
        texts(self.keys@)
    }

    /// The values, each at the position of its key.
    pub closed spec fn values(&self) -> Seq<V> {
        self.vals@
    }

    /// How the positions relate to the map: the keys ascend, they are the
    /// map's domain, and each value stands at the position of its key.
    pub open spec fn indexed(&self) -> bool {
        &&& self.keys().len() == self.values().len()
        &&& ascending(self.keys())
        &&& self@.dom() == self.keys().to_set()
        &&& forall|i: int|
            0 <= i < self.keys().len() ==> self@.contains_key(#[trigger] self.keys()[i])
                && self@[self.keys()[i]] == self.values()[i]
    }

    #[verifier::type_invariant]
    spec fn sorted(&self) -> bool {
        &&& self.keys@.len() == self.vals@.len()
        &&& ascending(texts(self.keys@))
    }

    /// The empty map.
    pub fn new() -> (map: StrMap<V>)
        ensures
            map@ == Map::<Seq<char>, V>::empty(),
            map.keys() == Seq::<Seq<char>>::empty(),
    {
        let map = StrMap { keys: Vec::new(), vals: Vec::new() };
        assert(map.keys() =~= Seq::<Seq<char>>::empty());
        assert(map@ =~= Map::<Seq<char>, V>::empty());
        map
    }

    /// Number of entries. The call also tells the caller's proof how the
    /// positions relate to the map.
    pub fn len(&self) -> (n: usize)
        ensures
            n == self.keys().len(),
            n == self@.dom().len(),
            self@.dom().finite(),
            self.indexed(),
    {
        proof {
            use_type_invariant(self);
            lemma_paired(self.keys(), self.values());
            lemma_ascending_distinct(self.keys());
            self.keys().unique_seq_to_set();
        }
        self.keys.len()
    }

    /// The key at position `i` of the ascending order.
    pub fn key_at(&self, i: usize) -> (key: &String)
        requires
            i < self.keys().len(),
        ensures
            key@ == self.keys()[i as int],
    {
        &self.keys[i]
    }

    /// The value that belongs to the key at position `i`.
    pub fn value_at(&self, i: usize) -> (value: &V)
        requires
            i < self.keys().len(),
        ensures
            *value == self.values()[i as int],
            *value == self@[self.keys()[i as int]],
    {
        proof {
            use_type_invariant(self);
            lemma_paired(self.keys(), self.values());
        }
        &self.vals[i]
    }

    /// All the keys as strings of their own, in ascending order.
    pub fn key_list(&self) -> (names: Vec<String>)
        ensures
            texts(names@) == self.keys(),
            texts(names@) == sorted_keys(self@.dom()),
            is_listing(texts(names@), self@.dom()),
    {
        let n = self.len();
        let ghost keys = self.keys();
        let mut names: Vec<String> = Vec::new();
        let mut i: usize = 0;
        while i < n
            invariant
                0 <= i <= n,
                n == keys.len(),
                keys == self.keys(),
                texts(names@) == keys.take(i as int),
            decreases n - i,
        {
            let ghost listed = texts(names@);
            names.push(self.key_at(i).clone());
            proof {
                assert(texts(names@) =~= listed.push(keys[i as int]));
                lemma_prefix_set_grows(keys, i as int);
            }
            i = i + 1;
        }
        proof {
            assert(keys.take(i as int) =~= keys);
            lemma_listing_is_sorted_keys(keys, self@.dom());
        }
        names
    }

    /// Whether `key` has an entry.
    pub fn contains_key(&self, key: &str) -> (b: bool)
        ensures
            b == self@.contains_key(key@),
    {
        proof {
            use_type_invariant(self);
        }
        locate(&self.keys, key).1
    }

    /// The value stored under `key`, if any.
    pub fn get(&self, key: &str) -> (found: Option<&V>)
        ensures
            found is Some == self@.contains_key(key@),
            found is Some ==> *found->0 == self@[key@],
    {
        proof {
            use_type_invariant(self);
            lemma_paired(self.keys(), self.values());
        }
        let place = locate(&self.keys, key);
        if place.1 {
            assert(self.keys()[place.0 as int] == key@);
            Some(&self.vals[place.0])
        } else {
            None
        }
    }

    /// Stores `value` under `key` and hands back the value that it replaces.
    pub fn insert(&mut self, key: String, value: V) -> (replaced: Option<V>)
        ensures
            final(self)@ == old(self)@.insert(key@, value),
            replaced == if old(self)@.contains_key(key@) {
                Some(old(self)@[key@])
            } else {
                None
            },
    {
        proof {
            use_type_invariant(&*self);
            lemma_paired(self.keys(), self.values());
        }
        let ghost keys0 = self.keys();
        let ghost vals0 = self.values();
        let ghost before = self@;
        let mut taken = StrMap { keys: Vec::new(), vals: Vec::new() };
        std::mem::swap(self, &mut taken);
        let StrMap { mut keys, mut vals } = taken;
        let place = locate(&keys, key.as_str());
        let replaced = if place.1 {
            vals.push(value);
            let previous = vals.swap_remove(place.0);
            proof {
                assert(keys0[place.0 as int] == key@);
                assert(previous == vals0[place.0 as int]);
                assert(vals@ =~= vals0.update(place.0 as int, value));
                lemma_paired(keys0, vals@);
                assert forall|k: Seq<char>| keys0.contains(k) && k != key@ implies paired(
                    keys0,
                    vals@,
                )[k] == before[k] by {
                    let i = choose|i: int| 0 <= i < keys0.len() && keys0[i] == k;
                    assert(keys0[i] == k);
                }
                assert(paired(keys0, vals@) =~= before.insert(key@, value));
            }
            Some(previous)
        } else {
            keys.insert(place.0, key);
            vals.insert(place.0, value);
            proof {
                let keys1 = texts(keys@);
                assert(keys1 =~= keys0.insert(place.0 as int, key@));
                lemma_insert_at_gap(keys0, key@, place.0 as int);
                lemma_paired(keys1, vals@);
                assert forall|k: Seq<char>| keys0.contains(k) implies paired(keys1, vals@)[k]
                    == before[k] by {
                    let i = choose|i: int| 0 <= i < keys0.len() && keys0[i] == k;
                    if i < place.0 {
                        assert(keys1[i] == k);
                    } else {
                        assert(keys1[i + 1] == k);
                    }
                }
                assert(keys1[place.0 as int] == key@);
                assert(paired(keys1, vals@) =~= before.insert(key@, value));
            }
            None
        };
        *self = StrMap { keys, vals };
        replaced
    }

    /// Takes the entry of `key` out and hands back its value.
    pub fn remove(&mut self, key: &str) -> (removed: Option<V>)
        ensures
            final(self)@ == old(self)@.remove(key@),
            removed == if old(self)@.contains_key(key@) {
                Some(old(self)@[key@])
            } else {
                None
            },
    {
        proof {
            use_type_invariant(&*self);
            lemma_paired(self.keys(), self.values());
        }
        let ghost keys0 = self.keys();
        let ghost vals0 = self.values();
        let ghost before = self@;
        let place = locate(&self.keys, key);
        if !place.1 {
            assert(before =~= before.remove(key@));
            return None;
        }
        let mut taken = StrMap { keys: Vec::new(), vals: Vec::new() };
        std::mem::swap(self, &mut taken);
        let StrMap { mut keys, mut vals } = taken;
        keys.remove(place.0);
        let value = vals.remove(place.0);
        proof {
            assert(keys0[place.0 as int] == key@);
            let keys1 = texts(keys@);
            assert(keys1 =~= keys0.remove(place.0 as int));
            lemma_remove_at(keys0, place.0 as int);
            lemma_paired(keys1, vals@);
            assert forall|k: Seq<char>| keys1.contains(k) implies paired(keys1, vals@)[k]
                == before[k] by {
                let i = choose|i: int| 0 <= i < keys1.len() && keys1[i] == k;
                if i < place.0 {
                    assert(keys0[i] == k);
                } else {
                    assert(keys0[i + 1] == k);
                }
            }
            assert(paired(keys1, vals@) =~= before.remove(key@));
        }
        *self = StrMap { keys, vals };
        Some(value)
    }
}

} // verus!
