//! A set of strings kept as a sorted vector without repetitions.

use crate::order::{ascending, is_listing, lemma_ascending_distinct, lemma_listing_is_sorted_keys,
    precedes, sorted_keys};
use crate::sorted::{lemma_insert_at_gap, lemma_remove_at, locate, texts};
use vstd::prelude::*;

verus! {

/// A finite set of strings. Its elements are stored in ascending key order,
/// each once, so that walking the set always yields the same sequence.
#[derive(Debug)]
pub struct StrSet {
    items: Vec<String>,
}

impl View for StrSet {
    type V = Set<Seq<char>>;

    open spec fn view(&self) -> Set<Seq<char>> {
        self.elements().to_set()
    }
}

impl StrSet {
    /// The elements in storage order.
    pub closed spec fn elements(&self) -> Seq<Seq<char>> {
        texts(self.items@)
    }

    #[verifier::type_invariant]
    spec fn sorted(&self) -> bool {
        ascending(texts(self.items@))
    }

    /// The empty set.
    pub fn new() -> (set: StrSet)
        ensures
            set.elements() == Seq::<Seq<char>>::empty(),
            set@ == Set::<Seq<char>>::empty(),
    {
        let set = StrSet { items: Vec::new() };
        assert(set.elements() =~= Seq::<Seq<char>>::empty());
        assert(set@ =~= Set::<Seq<char>>::empty());
        set
    }

    /// The set of the strings in `items`; repetitions count once.
    pub fn from_vec(items: Vec<String>) -> (set: StrSet)
        ensures
            set@ == texts(items@).to_set(),
    {
        let mut set = StrSet::new();
        let mut i: usize = 0;
        while i < items.len()
            invariant
                0 <= i <= items.len(),
                set@ == texts(items@).take(i as int).to_set(),
            decreases items.len() - i,
        {
            let ghost seen = texts(items@).take(i as int);
            set.insert(items[i].clone());
            proof {
                let next = texts(items@).take(i as int + 1);
                assert(next =~= seen.push(texts(items@)[i as int]));
                assert forall|t: Seq<char>| next.contains(t) <==> (seen.contains(t) || t
                    == items[i as int]@) by {
                    lemma_push_contains(seen, items[i as int]@, t);
                }
                assert(next.to_set() =~= seen.to_set().insert(items[i as int]@));
            }
            i = i + 1;
        }
        assert(texts(items@).take(i as int) =~= texts(items@));
        set
    }

    /// Number of elements. The call also tells the caller's proof that the
    /// elements are in ascending order.
    pub fn len(&self) -> (n: usize)
        ensures
            n == self.elements().len(),
            n == self@.len(),
            ascending(self.elements()),
    {
        proof {
            use_type_invariant(self);
            lemma_ascending_distinct(self.elements());
            self.elements().unique_seq_to_set();
        }
        self.items.len()
    }

    /// The elements as strings of their own, in ascending order.
    pub fn to_vec(&self) -> (items: Vec<String>)
        ensures
            texts(items@) == self.elements(),
            texts(items@) == sorted_keys(self@),
            is_listing(texts(items@), self@),
    {
        let copy = self.clone();
        proof {
            use_type_invariant(self);
            lemma_listing_is_sorted_keys(self.elements(), self@);
        }
        copy.items
    }

    /// Whether the set holds no element.
    pub fn is_empty(&self) -> (b: bool)
        ensures
            b == (self.elements().len() == 0),
            b == (self@ == Set::<Seq<char>>::empty()),
    {
        proof {
            if self.elements().len() == 0 {
                assert(self@ =~= Set::<Seq<char>>::empty());
            } else {
                assert(self@.contains(self.elements()[0]));
            }
        }
        self.items.len() == 0
    }

    /// The element at position `i` of the ascending order.
    pub fn get(&self, i: usize) -> (item: &String)
        requires
            i < self.elements().len(),
        ensures
            item@ == self.elements()[i as int],
    {
        &self.items[i]
    }

    /// Whether `key` is in the set.
    pub fn contains(&self, key: &str) -> (b: bool)
        ensures
            b == self@.contains(key@),
    {
        proof {
            use_type_invariant(self);
        }
        locate(&self.items, key).1
    }

    /// Adds `key`; says whether it was new.
    pub fn insert(&mut self, key: String) -> (fresh: bool)
        ensures
            final(self)@ == old(self)@.insert(key@),
            fresh == !old(self)@.contains(key@),
    {
        proof {
            use_type_invariant(&*self);
        }
        let place = locate(&self.items, key.as_str());
        if place.1 {
            assert(self@ =~= self@.insert(key@));
            return false;
        }
        let ghost before = self.elements();
        let mut items: Vec<String> = Vec::new();
        std::mem::swap(&mut items, &mut self.items);
        items.insert(place.0, key);
        proof {
            assert(texts(items@) =~= before.insert(place.0 as int, key@));
            lemma_insert_at_gap(before, key@, place.0 as int);
        }
        self.items = items;
        true
    }

    /// Takes `key` out; says whether it was there.
    pub fn remove(&mut self, key: &str) -> (was: bool)
        ensures
            final(self)@ == old(self)@.remove(key@),
            was == old(self)@.contains(key@),
    {
        proof {
            use_type_invariant(&*self);
        }
        let place = locate(&self.items, key);
        if !place.1 {
            assert(self@ =~= self@.remove(key@));
            return false;
        }
        let ghost before = self.elements();
        let mut items: Vec<String> = Vec::new();
        std::mem::swap(&mut items, &mut self.items);
        items.remove(place.0);
        proof {
            assert(texts(items@) =~= before.remove(place.0 as int));
            lemma_remove_at(before, place.0 as int);
        }
        self.items = items;
        true
    }

    /// The elements of `self` that `other` holds too.
    pub fn intersection(&self, other: &StrSet) -> (common: StrSet)
        ensures
            common@ == self@.intersect(other@),
    {
        proof {
            use_type_invariant(self);
        }
        let ghost elems = self.elements();
        let mut items: Vec<String> = Vec::new();
        let mut i: usize = 0;
        while i < self.items.len()
            invariant
                elems == texts(self.items@),
                ascending(elems),
                0 <= i <= elems.len(),
                ascending(texts(items@)),
                forall|t: Seq<char>| #[trigger]
                    texts(items@).contains(t) <==> (elems.take(i as int).contains(t)
                        && other@.contains(t)),
            decreases elems.len() - i,
        {
            let ghost kept = texts(items@);
            let ghost t = elems[i as int];
            assert(elems.take(i as int + 1) =~= elems.take(i as int).push(t));
            if other.contains(self.items[i].as_str()) {
                items.push(self.items[i].clone());
                proof {
                    let grown = texts(items@);
                    assert(grown =~= kept.push(t));
                    assert forall|a: int, b: int| 0 <= a < b < grown.len() implies precedes(
                        #[trigger] grown[a],
                        #[trigger] grown[b],
                    ) by {
                        if b == kept.len() {
                            assert(kept.contains(kept[a]));
                            let j = choose|j: int|
                                0 <= j < elems.take(i as int).len() && elems.take(i as int)[j]
                                    == kept[a];
                            assert(precedes(elems[j], elems[i as int]));
                        } else {
                            assert(precedes(kept[a], kept[b]));
                        }
                    }
                    assert forall|u: Seq<char>| #[trigger]
                        grown.contains(u) <==> (elems.take(i as int + 1).contains(u)
                            && other@.contains(u)) by {
                        lemma_push_contains(kept, t, u);
                        lemma_push_contains(elems.take(i as int), t, u);
                    }
                }
            } else {
                proof {
                    assert forall|u: Seq<char>| #[trigger]
                        kept.contains(u) <==> (elems.take(i as int + 1).contains(u)
                            && other@.contains(u)) by {
                        lemma_push_contains(elems.take(i as int), t, u);
                    }
                }
            }
            i = i + 1;
        }
        let common = StrSet { items };
        proof {
            assert(elems.take(i as int) =~= elems);
            assert(common@ =~= self@.intersect(other@));
        }
        common
    }
}

impl Clone for StrSet {
    fn clone(&self) -> (copy: StrSet)
        ensures
            copy.elements() == self.elements(),
            copy@ == self@,
    {
        proof {
            use_type_invariant(self);
        }
        let mut items: Vec<String> = Vec::new();
        let mut i: usize = 0;
        while i < self.items.len()
            invariant
                0 <= i <= self.items.len(),
                texts(items@) == texts(self.items@).take(i as int),
            decreases self.items.len() - i,
        {
            let ghost copied = texts(items@);
            items.push(self.items[i].clone());
            assert(texts(items@) =~= copied.push(texts(self.items@)[i as int]));
            assert(texts(items@) =~= texts(self.items@).take(i as int + 1));
            i = i + 1;
        }
        assert(texts(self.items@).take(i as int) =~= texts(self.items@));
        StrSet { items }
    }
}

/// What a sequence holds after one more element was pushed.
pub proof fn lemma_push_contains(s: Seq<Seq<char>>, last: Seq<char>, t: Seq<char>)
    ensures
        s.push(last).contains(t) <==> (s.contains(t) || t == last),
{
    let grown = s.push(last);
    if grown.contains(t) {
        let i = choose|i: int| 0 <= i < grown.len() && grown[i] == t;
        if i < s.len() {
            assert(s[i] == t);
        }
    }
    if s.contains(t) {
        let i = choose|i: int| 0 <= i < s.len() && s[i] == t;
        assert(grown[i] == t);
    }
    if t == last {
        assert(grown[s.len() as int] == t);
    }
}

} // verus!
