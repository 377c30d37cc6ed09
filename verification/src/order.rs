//! The order in which keys are kept: strings compare by their UTF-8 bytes,
//! lexicographically, so that listings come out in a fixed, sorted order.

use vstd::prelude::*;
use vstd::string::StringSliceAdditionalSpecFns;
use vstd::utf8::encode_utf8;

verus! {

/// How one string stands relative to another in the key order.
#[derive(Clone, Copy, Debug, PartialEq, Eq, Structural)]
pub enum Rank {
    /// The first string sorts strictly before the second.
    Before,
    /// Both strings hold the same text.
    Same,
    /// The first string sorts strictly after the second.
    After,
}

/// `a` and `b` agree on their first `k` bytes, and at position `k` either
/// `a` ends while `b` goes on, or `a` holds the smaller byte.
pub open spec fn diverge_at(a: Seq<u8>, b: Seq<u8>, k: int) -> bool {
    &&& 0 <= k <= a.len()
    &&& k <= b.len()
    &&& forall|i: int| 0 <= i < k ==> a[i] == b[i]
    &&& (k == a.len() && k < b.len()) || (k < a.len() && k < b.len() && a[k] < b[k])
}

/// Strict lexicographic order on byte strings.
pub open spec fn bytes_precede(a: Seq<u8>, b: Seq<u8>) -> bool {
    exists|k: int| diverge_at(a, b, k)
}

/// Strict order on texts: the order of their UTF-8 encodings.
pub open spec fn precedes(a: Seq<char>, b: Seq<char>) -> bool {
    bytes_precede(encode_utf8(a), encode_utf8(b))
}

/// Every element of `s` precedes all the elements behind it.
pub open spec fn ascending(s: Seq<Seq<char>>) -> bool {
    forall|i: int, j: int| 0 <= i < j < s.len() ==> precedes(#[trigger] s[i], #[trigger] s[j])
}

/// No text precedes itself.
pub proof fn lemma_precedes_irreflexive(a: Seq<char>)
    ensures
        !precedes(a, a),
{
}

/// The order is transitive.
pub proof fn lemma_precedes_transitive(a: Seq<char>, b: Seq<char>, c: Seq<char>)
    requires
        precedes(a, b),
        precedes(b, c),
    ensures
        precedes(a, c),
{
    let x = encode_utf8(a);
    let y = encode_utf8(b);
    let z = encode_utf8(c);
    let k1 = choose|k: int| diverge_at(x, y, k);
    let k2 = choose|k: int| diverge_at(y, z, k);
    let k = if k1 <= k2 { k1 } else { k2 };
    assert(diverge_at(x, z, k));
}

/// Two texts cannot each precede the other.
pub proof fn lemma_precedes_asymmetric(a: Seq<char>, b: Seq<char>)
    requires
        precedes(a, b),
    ensures
        !precedes(b, a),
{
    if precedes(b, a) {
        lemma_precedes_transitive(a, b, a);
        lemma_precedes_irreflexive(a);
    }
}

proof fn lemma_bytes_total_from(x: Seq<u8>, y: Seq<u8>, k: int)
    requires
        0 <= k <= x.len(),
        k <= y.len(),
        forall|i: int| 0 <= i < k ==> x[i] == y[i],
    ensures
        x == y || bytes_precede(x, y) || bytes_precede(y, x),
    decreases x.len() - k,
{
    if k == x.len() || k == y.len() {
        if x.len() == y.len() {
            assert(x =~= y);
        } else if k == x.len() {
            assert(diverge_at(x, y, k));
        } else {
            assert(diverge_at(y, x, k));
        }
    } else if x[k] < y[k] {
        assert(diverge_at(x, y, k));
    } else if y[k] < x[k] {
        assert(diverge_at(y, x, k));
    } else {
        lemma_bytes_total_from(x, y, k + 1);
    }
}

/// Equal encodings belong to equal texts.
pub proof fn lemma_encoding_injective(a: Seq<char>, b: Seq<char>)
    requires
        encode_utf8(a) == encode_utf8(b),
    ensures
        a == b,
{
    vstd::utf8::encode_utf8_decode_utf8(a);
    vstd::utf8::encode_utf8_decode_utf8(b);
}

/// Any two different texts are ordered one way or the other.
pub proof fn lemma_precedes_total(a: Seq<char>, b: Seq<char>)
    ensures
        a == b || precedes(a, b) || precedes(b, a),
{
    lemma_bytes_total_from(encode_utf8(a), encode_utf8(b), 0);
    if encode_utf8(a) == encode_utf8(b) {
        lemma_encoding_injective(a, b);
    }
}

/// An ascending sequence holds no text twice.
pub proof fn lemma_ascending_distinct(s: Seq<Seq<char>>)
    requires
        ascending(s),
    ensures
        s.no_duplicates(),
{
    assert forall|i: int, j: int| 0 <= i < s.len() && 0 <= j < s.len() && i != j implies s[i]
        != s[j] by {
        lemma_precedes_irreflexive(s[i]);
        if i < j {
            assert(precedes(s[i], s[j]));
        } else {
            assert(precedes(s[j], s[i]));
        }
    }
}

/// `keys` lists exactly the members of `dom`, in ascending order.
pub open spec fn is_listing(keys: Seq<Seq<char>>, dom: Set<Seq<char>>) -> bool {
    ascending(keys) && keys.to_set() == dom
}

/// The members of `dom` in ascending order.
pub open spec fn sorted_keys(dom: Set<Seq<char>>) -> Seq<Seq<char>> {
    choose|keys: Seq<Seq<char>>| is_listing(keys, dom)
}

/// A set has at most one ascending listing.
pub proof fn lemma_listing_unique(a: Seq<Seq<char>>, b: Seq<Seq<char>>, dom: Set<Seq<char>>)
    requires
        is_listing(a, dom),
        is_listing(b, dom),
    ensures
        a == b,
    decreases a.len(),
{
    lemma_ascending_distinct(a);
    lemma_ascending_distinct(b);
    a.unique_seq_to_set();
    b.unique_seq_to_set();
    if a.len() > 0 {
        assert(a.to_set().contains(a[0]));
        assert(b.contains(a[0]));
        assert(b.to_set().contains(b[0]));
        assert(a.contains(b[0]));
        let i = choose|i: int| 0 <= i < a.len() && a[i] == b[0];
        let j = choose|j: int| 0 <= j < b.len() && b[j] == a[0];
        if i > 0 && j > 0 {
            assert(precedes(a[0], a[i]));
            assert(precedes(b[0], b[j]));
            lemma_precedes_asymmetric(a[0], b[0]);
        }
        assert(a[0] == b[0]);
        let rest_a = a.drop_first();
        let rest_b = b.drop_first();
        assert forall|t: Seq<char>| rest_a.contains(t) <==> rest_b.contains(t) by {
            if rest_a.contains(t) {
                let k = choose|k: int| 0 <= k < rest_a.len() && rest_a[k] == t;
                assert(a[k + 1] == t);
                assert(a.to_set().contains(t));
                assert(b.contains(t));
                let m = choose|m: int| 0 <= m < b.len() && b[m] == t;
                assert(m != 0);
                assert(rest_b[m - 1] == t);
            }
            if rest_b.contains(t) {
                let k = choose|k: int| 0 <= k < rest_b.len() && rest_b[k] == t;
                assert(b[k + 1] == t);
                assert(b.to_set().contains(t));
                assert(a.contains(t));
                let m = choose|m: int| 0 <= m < a.len() && a[m] == t;
                assert(m != 0);
                assert(rest_a[m - 1] == t);
            }
        }
        assert(rest_a.to_set() =~= rest_b.to_set());
        assert(ascending(rest_a)) by {
            assert forall|x: int, y: int| 0 <= x < y < rest_a.len() implies precedes(
                #[trigger] rest_a[x],
                #[trigger] rest_a[y],
            ) by {
                assert(precedes(a[x + 1], a[y + 1]));
            }
        }
        assert(ascending(rest_b)) by {
            assert forall|x: int, y: int| 0 <= x < y < rest_b.len() implies precedes(
                #[trigger] rest_b[x],
                #[trigger] rest_b[y],
            ) by {
                assert(precedes(b[x + 1], b[y + 1]));
            }
        }
        lemma_listing_unique(rest_a, rest_b, rest_a.to_set());
        assert(a =~= seq![a[0]] + rest_a);
        assert(b =~= seq![b[0]] + rest_b);
    } else {
        assert(b.len() == 0);
        assert(a =~= b);
    }
}

/// An ascending listing of a set is its sorted listing.
pub proof fn lemma_listing_is_sorted_keys(keys: Seq<Seq<char>>, dom: Set<Seq<char>>)
    requires
        is_listing(keys, dom),
    ensures
        sorted_keys(dom) == keys,
{
    lemma_listing_unique(sorted_keys(dom), keys, dom);
}

/// Compares two strings in the key order.
pub fn compare(a: &str, b: &str) -> (rank: Rank)
    ensures
        (rank == Rank::Before) == precedes(a@, b@),
        (rank == Rank::Same) == (a@ == b@),
        (rank == Rank::After) == precedes(b@, a@),
{
    let x = a.as_bytes();
    let y = b.as_bytes();
    let n: usize = if x.len() < y.len() { x.len() } else { y.len() };
    let mut i: usize = 0;
    let mut rank = Rank::Same;
    while i < n && rank == Rank::Same
        invariant
            x@ == encode_utf8(a@),
            y@ == encode_utf8(b@),
            n <= x@.len(),
            n <= y@.len(),
            n == x@.len() || n == y@.len(),
            0 <= i <= n,
            rank == Rank::Same ==> forall|j: int| 0 <= j < i ==> x@[j] == y@[j],
            rank == Rank::Before ==> diverge_at(x@, y@, i as int),
            rank == Rank::After ==> diverge_at(y@, x@, i as int),
        decreases n - i, if rank == Rank::Same { 1int } else { 0int },
    {
        if x[i] < y[i] {
            rank = Rank::Before;
        } else if y[i] < x[i] {
            rank = Rank::After;
        } else {
            i = i + 1;
        }
    }
    if rank == Rank::Same {
        if x.len() < y.len() {
            rank = Rank::Before;
            assert(diverge_at(x@, y@, i as int));
        } else if y.len() < x.len() {
            rank = Rank::After;
            assert(diverge_at(y@, x@, i as int));
        } else {
            assert(x@ =~= y@);
        }
    }
    proof {
        lemma_precedes_irreflexive(a@);
        if rank == Rank::Same {
            lemma_encoding_injective(a@, b@);
        }
        if precedes(a@, b@) {
            lemma_precedes_asymmetric(a@, b@);
        }
        if precedes(b@, a@) {
            lemma_precedes_asymmetric(b@, a@);
        }
    }
    rank
}

} // verus!
