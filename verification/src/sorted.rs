//! Searching and editing vectors of strings that are kept in ascending order.

use crate::order::{ascending, compare, is_listing, lemma_precedes_irreflexive,
    lemma_precedes_total, lemma_precedes_transitive, precedes, sorted_keys, Rank};
use vstd::prelude::*;

verus! {

/// The texts held by a vector of strings, in the vector's order.
pub open spec fn texts(items: Seq<String>) -> Seq<Seq<char>> {
    items.map_values(|s: String| s@)
}

/// `key` is absent from `s` and `at` is the one position where it can be
/// put without breaking the order.
pub open spec fn gap_at(s: Seq<Seq<char>>, key: Seq<char>, at: int) -> bool {
    &&& 0 <= at <= s.len()
    &&& forall|j: int| 0 <= j < at ==> precedes(#[trigger] s[j], key)
    &&& forall|j: int| at <= j < s.len() ==> precedes(key, #[trigger] s[j])
}

/// A key that has a gap in an ascending sequence does not occur in it.
pub proof fn lemma_gap_means_absent(s: Seq<Seq<char>>, key: Seq<char>, at: int)
    requires
        gap_at(s, key, at),
    ensures
        !s.contains(key),
{
    lemma_precedes_irreflexive(key);
    if s.contains(key) {
        let j = choose|j: int| 0 <= j < s.len() && s[j] == key;
        assert(precedes(s[j], key) || precedes(key, s[j]));
    }
}

/// Putting a key into its gap keeps the order and adds just that key.
pub proof fn lemma_insert_at_gap(s: Seq<Seq<char>>, key: Seq<char>, at: int)
    requires
        ascending(s),
        gap_at(s, key, at),
    ensures
        ascending(s.insert(at, key)),
        s.insert(at, key).to_set() == s.to_set().insert(key),
{
    let after = s.insert(at, key);
    assert forall|i: int, j: int| 0 <= i < j < after.len() implies precedes(
        #[trigger] after[i],
        #[trigger] after[j],
    ) by {
        if j < at {
            assert(precedes(s[i], s[j]));
        } else if j == at {
            assert(precedes(s[i], key));
        } else if i < at {
            assert(precedes(s[i], s[j - 1]));
        } else if i == at {
            assert(precedes(key, s[j - 1]));
        } else {
            assert(precedes(s[i - 1], s[j - 1]));
        }
    }
    assert forall|t: Seq<char>| after.contains(t) <==> (s.contains(t) || t == key) by {
        if after.contains(t) {
            let i = choose|i: int| 0 <= i < after.len() && after[i] == t;
            if i < at {
                assert(s[i] == t);
            } else if i > at {
                assert(s[i - 1] == t);
            }
        }
        if s.contains(t) {
            let i = choose|i: int| 0 <= i < s.len() && s[i] == t;
            if i < at {
                assert(after[i] == t);
            } else {
                assert(after[i + 1] == t);
            }
        }
        if t == key {
            assert(after[at] == t);
        }
    }
    assert(after.to_set() =~= s.to_set().insert(key));
}

/// Taking out one position keeps the order and removes just that key.
pub proof fn lemma_remove_at(s: Seq<Seq<char>>, at: int)
    requires
        ascending(s),
        0 <= at < s.len(),
    ensures
        ascending(s.remove(at)),
        s.remove(at).to_set() == s.to_set().remove(s[at]),
{
    let after = s.remove(at);
    let key = s[at];
    crate::order::lemma_ascending_distinct(s);
    assert forall|i: int, j: int| 0 <= i < j < after.len() implies precedes(
        #[trigger] after[i],
        #[trigger] after[j],
    ) by {
        let i0 = if i < at { i } else { i + 1 };
        let j0 = if j < at { j } else { j + 1 };
        assert(precedes(s[i0], s[j0]));
    }
    assert forall|t: Seq<char>| after.contains(t) <==> (s.contains(t) && t != key) by {
        if after.contains(t) {
            let i = choose|i: int| 0 <= i < after.len() && after[i] == t;
            let i0 = if i < at { i } else { i + 1 };
            assert(s[i0] == t);
        }
        if s.contains(t) && t != key {
            let i = choose|i: int| 0 <= i < s.len() && s[i] == t;
            if i < at {
                assert(after[i] == t);
            } else {
                assert(after[i - 1] == t);
            }
        }
    }
    assert(after.to_set() =~= s.to_set().remove(key));
}

/// A key that an ascending sequence does not hold has a gap in it.
pub proof fn lemma_gap_exists(s: Seq<Seq<char>>, key: Seq<char>)
    requires
        ascending(s),
        !s.contains(key),
    ensures
        exists|at: int| gap_at(s, key, at),
    decreases s.len(),
{
    if s.len() == 0 {
        assert(gap_at(s, key, 0));
    } else {
        let last = s.last();
        assert(s.contains(last));
        lemma_precedes_total(last, key);
        if precedes(last, key) {
            assert forall|j: int| 0 <= j < s.len() implies precedes(#[trigger] s[j], key) by {
                if j < s.len() - 1 {
                    lemma_precedes_transitive(s[j], last, key);
                }
            }
            assert(gap_at(s, key, s.len() as int));
        } else {
            let front = s.drop_last();
            assert forall|i: int, j: int| 0 <= i < j < front.len() implies precedes(
                #[trigger] front[i],
                #[trigger] front[j],
            ) by {
                assert(precedes(s[i], s[j]));
            }
            if front.contains(key) {
                let i = choose|i: int| 0 <= i < front.len() && front[i] == key;
                assert(s[i] == key);
            }
            lemma_gap_exists(front, key);
            let at = choose|at: int| gap_at(front, key, at);
            assert forall|j: int| at <= j < s.len() implies precedes(key, #[trigger] s[j]) by {
                if j < front.len() {
                    assert(precedes(key, front[j]));
                }
            }
            assert forall|j: int| 0 <= j < at implies precedes(#[trigger] s[j], key) by {
                assert(precedes(front[j], key));
            }
            assert(gap_at(s, key, at));
        }
    }
}

/// Every finite set of texts has an ascending listing, and `sorted_keys`
/// is that listing.
pub proof fn lemma_sorted_keys_lists(dom: Set<Seq<char>>)
    requires
        dom.finite(),
    ensures
        is_listing(sorted_keys(dom), dom),
    decreases dom.len(),
{
    if dom.len() == 0 {
        let none = Seq::<Seq<char>>::empty();
        assert(dom =~= Set::<Seq<char>>::empty());
        assert(none.to_set() =~= dom);
        assert(is_listing(none, dom));
    } else {
        let key = dom.choose();
        let rest = dom.remove(key);
        lemma_sorted_keys_lists(rest);
        let listed = sorted_keys(rest);
        assert(!listed.contains(key)) by {
            if listed.contains(key) {
                assert(listed.to_set().contains(key));
            }
        }
        lemma_gap_exists(listed, key);
        let at = choose|at: int| gap_at(listed, key, at);
        lemma_insert_at_gap(listed, key, at);
        assert(rest.insert(key) =~= dom);
        assert(is_listing(listed.insert(at, key), dom));
    }
}

/// A prefix that is one longer holds one element more.
pub proof fn lemma_prefix_set_grows<A>(s: Seq<A>, i: int)
    requires
        0 <= i < s.len(),
    ensures
        s.take(i + 1).to_set() == s.take(i).to_set().insert(s[i]),
        s.take(i + 1) == s.take(i).push(s[i]),
{
    let short = s.take(i);
    let long = s.take(i + 1);
    assert(long =~= short.push(s[i]));
    assert forall|t: A| long.contains(t) <==> (short.contains(t) || t == s[i]) by {
        if long.contains(t) {
            let k = choose|k: int| 0 <= k < long.len() && long[k] == t;
            if k < i {
                assert(short[k] == t);
            }
        }
        if short.contains(t) {
            let k = choose|k: int| 0 <= k < short.len() && short[k] == t;
            assert(long[k] == t);
        }
        if t == s[i] {
            assert(long[i] == t);
        }
    }
    assert(long.to_set() =~= short.to_set().insert(s[i]));
}

/// Binary search: finds the position of `key` in an ascending vector, or
/// the gap where it belongs.
pub fn locate(items: &Vec<String>, key: &str) -> (place: (usize, bool))
    requires
        ascending(texts(items@)),
    ensures
        place.0 <= items.len(),
        place.1 ==> place.0 < items.len() && items[place.0 as int]@ == key@,
        !place.1 ==> gap_at(texts(items@), key@, place.0 as int),
        place.1 == texts(items@).contains(key@),
{
    let ghost elems = texts(items@);
    let mut lo: usize = 0;
    let mut hi: usize = items.len();
    let mut found = false;
    while lo < hi && !found
        invariant
            elems == texts(items@),
            ascending(elems),
            0 <= lo <= hi <= elems.len(),
            !found ==> forall|j: int| 0 <= j < lo ==> precedes(#[trigger] elems[j], key@),
            !found ==> forall|j: int|
                hi <= j < elems.len() ==> precedes(key@, #[trigger] elems[j]),
            found ==> lo < elems.len() && elems[lo as int] == key@,
        decreases hi - lo, if found { 0int } else { 1int },
    {
        let mid: usize = lo + (hi - lo) / 2;
        match compare(items[mid].as_str(), key) {
            Rank::Same => {
                lo = mid;
                found = true;
            },
            Rank::Before => {
                assert forall|j: int| 0 <= j < mid + 1 implies precedes(
                    #[trigger] elems[j],
                    key@,
                ) by {
                    if j < mid {
                        lemma_precedes_transitive(elems[j], elems[mid as int], key@);
                    }
                }
                lo = mid + 1;
            },
            Rank::After => {
                assert forall|j: int| mid <= j < elems.len() implies precedes(
                    key@,
                    #[trigger] elems[j],
                ) by {
                    if mid < j {
                        lemma_precedes_transitive(key@, elems[mid as int], elems[j]);
                    }
                }
                hi = mid;
            },
        }
    }
    proof {
        if found {
            assert(elems[lo as int] == key@);
            assert(elems.contains(key@));
        } else {
            lemma_gap_means_absent(elems, key@, lo as int);
        }
    }
    (lo, found)
}

} // verus!
