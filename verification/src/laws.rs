//! What holds of insertion and search together, proved over the model.
//!
//! An insertion takes the map `m` of a trie to `inserted(m, k, v)` and
//! returns `insert_outcome(m, k)`; a search for `q` answers `lookup(m, q)`.

use vstd::prelude::*;
use crate::model::begins_stored_key;
use crate::model::insert_outcome;
use crate::model::inserted;
use crate::model::lemma_begins_shorter;
use crate::model::lemma_descent_bounds;
use crate::model::lemma_rests_at;
use crate::model::lookup;
use crate::model::resting_prefix;

verus! {

/// A search for a prefix of a stored key is an exact search: the walk comes
/// to rest at the end of the query, and the answer is the value stored under
/// the query itself, if there is one.
pub proof fn law_exact_within_stored_key<K, D>(m: Map<Seq<K>, D>, k: Seq<K>, q: Seq<K>)
    requires
        m.contains_key(k),
        q.is_prefix_of(k),
    ensures
        resting_prefix(m, q) == q,
        lookup(m, q) == (if m.contains_key(q) {
            Some(m[q])
        } else {
            None
        }),
{
    assert forall|j: int| 0 < j <= q.len() implies begins_stored_key(m, #[trigger] q.take(j)) by {
        assert(q.take(j).is_prefix_of(k));
    }
    lemma_rests_at(m, q, q.len() as int);
    assert(q.take(q.len() as int) =~= q);
}

/// Round trip: a search for a key that has just been inserted, and was not
/// present before, answers with the inserted value.
pub proof fn law_round_trip<K, D>(m: Map<Seq<K>, D>, k: Seq<K>, v: D)
    requires
        !m.contains_key(k),
    ensures
        insert_outcome(m, k) is Ok,
        lookup(inserted(m, k, v), k) == Some(v),
{
    assert(k.is_prefix_of(k));
    law_exact_within_stored_key(inserted(m, k, v), k, k);
}

/// Duplicate rejection: of two insertions of the same key the first is
/// accepted and the second rejected; the second leaves the trie as it was,
/// and a search for the key still answers with the first value.
pub proof fn law_duplicate_rejected<K, D>(m: Map<Seq<K>, D>, k: Seq<K>, first: D, second: D)
    requires
        !m.contains_key(k),
    ensures
        insert_outcome(m, k) is Ok,
        insert_outcome(inserted(m, k, first), k) is Err,
        inserted(inserted(m, k, first), k, second) == inserted(m, k, first),
        lookup(inserted(inserted(m, k, first), k, second), k) == Some(first),
{
    law_round_trip(m, k, first);
}

/// Nodes come with the keys and stay: after an insertion a path begins a
/// stored key exactly when it did so before or is a prefix of the inserted key.
pub proof fn law_insert_adds_its_prefixes<K, D>(m: Map<Seq<K>, D>, k: Seq<K>, v: D, p: Seq<K>)
    ensures
        begins_stored_key(inserted(m, k, v), p) <==> begins_stored_key(m, p) || p.is_prefix_of(k),
{
    let after = inserted(m, k, v);
    assert(after.contains_key(k));
    if begins_stored_key(m, p) {
        let x = choose|x: Seq<K>| #[trigger] m.contains_key(x) && p.is_prefix_of(x);
        assert(after.contains_key(x));
    }
    if begins_stored_key(after, p) {
        let x = choose|x: Seq<K>| #[trigger] after.contains_key(x) && p.is_prefix_of(x);
        assert(x == k || m.contains_key(x));
    }
}

/// Longest match: where `k` is stored and the query begins with `k`, the
/// answer is the value of `k`, provided that the walk cannot go on past `k`:
/// the query ends there, or goes on with an element for which nothing is
/// stored below `k`.
pub proof fn law_longest_match<K, D>(m: Map<Seq<K>, D>, k: Seq<K>, q: Seq<K>)
    requires
        m.contains_key(k),
        k.is_prefix_of(q),
        q.len() == k.len() || !begins_stored_key(m, q.take(k.len() as int + 1)),
    ensures
        lookup(m, q) == Some(m[k]),
{
    let d = k.len() as int;
    assert(q.take(d) =~= k);
    assert forall|j: int| 0 < j <= d implies begins_stored_key(m, #[trigger] q.take(j)) by {
        assert(q.take(j).is_prefix_of(k));
    }
    lemma_rests_at(m, q, d);
}

/// No fallback: where the walk comes to rest at a prefix of the query that
/// is not stored itself, the search finds nothing, whatever is stored under
/// the shorter prefixes that the walk has passed.
pub proof fn law_no_fallback<K, D>(m: Map<Seq<K>, D>, q: Seq<K>, d: int)
    requires
        0 <= d <= q.len(),
        begins_stored_key(m, q.take(d)),
        !m.contains_key(q.take(d)),
        d == q.len() || !begins_stored_key(m, q.take(d + 1)),
    ensures
        lookup(m, q) is None,
{
    assert forall|j: int| 0 < j <= d implies begins_stored_key(m, #[trigger] q.take(j)) by {
        lemma_begins_shorter(m, q.take(d), j);
        assert(q.take(d).take(j) =~= q.take(j));
    }
    lemma_rests_at(m, q, d);
}

/// The length up to which `x` and `y` agree, given that they agree up to `n`.
spec fn common_length<K>(x: Seq<K>, y: Seq<K>, n: int) -> int
    decreases x.len() - n,
{
    if 0 <= n < x.len() && n < y.len() && x[n] == y[n] {
        common_length(x, y, n + 1)
    } else {
        n
    }
}

/// Up to their common length two sequences are equal, and there they part
/// or one of them ends.
proof fn lemma_common_length<K>(x: Seq<K>, y: Seq<K>, n: int)
    requires
        0 <= n <= x.len(),
        n <= y.len(),
        x.take(n) == y.take(n),
    ensures
        ({
            let c = common_length(x, y, n);
            &&& n <= c <= x.len()
            &&& c <= y.len()
            &&& x.take(c) == y.take(c)
            &&& c < x.len() && c < y.len() ==> x[c] != y[c]
        }),
    decreases x.len() - n,
{
    if n < x.len() && n < y.len() && x[n] == y[n] {
        assert(x.take(n + 1) =~= x.take(n).push(x[n]));
        assert(y.take(n + 1) =~= y.take(n).push(y[n]));
        lemma_common_length(x, y, n + 1);
    }
}

/// A prefix and its extension: in a trie that holds just the key `p` with
/// value `a` and the longer key `p + s` with value `b`, in whichever order
/// they were inserted, a query that begins with `p + s` finds `b`; a query
/// that begins with `p` and ends there, or goes on with another element than
/// `s` does, finds `a`; and a query that follows `s` for a while and then
/// leaves it or ends finds nothing.
pub proof fn law_prefix_and_extension<K, D>(p: Seq<K>, s: Seq<K>, a: D, b: D, q: Seq<K>)
    requires
        s.len() > 0,
        p.is_prefix_of(q),
    ensures
        ({
            let m = inserted(inserted(Map::<Seq<K>, D>::empty(), p, a), p + s, b);
            let other_order = inserted(inserted(Map::<Seq<K>, D>::empty(), p + s, b), p, a);
            &&& m == other_order
            &&& (p + s).is_prefix_of(q) ==> lookup(m, q) == Some(b)
            &&& q.len() == p.len() || q[p.len() as int] != s[0] ==> lookup(m, q) == Some(a)
            &&& !(p + s).is_prefix_of(q) && q.len() > p.len() && q[p.len() as int] == s[0]
                ==> lookup(m, q) is None
        }),
{
    let long = p + s;
    let m = inserted(inserted(Map::<Seq<K>, D>::empty(), p, a), long, b);
    let n = p.len() as int;
    // The trie holds `p` and `long` and nothing else, so that only a prefix
    // of `long` begins a stored key.
    assert(p != long) by {
        assert(p.len() != long.len());
    }
    assert(m.contains_key(p) && m[p] == a);
    assert(m.contains_key(long) && m[long] == b);
    assert(p.is_prefix_of(long));
    assert forall|x: Seq<K>| #[trigger] begins_stored_key(m, x) implies x.is_prefix_of(long) by {
        let k = choose|k: Seq<K>| #[trigger] m.contains_key(k) && x.is_prefix_of(k);
        assert(k.is_prefix_of(long));
    }
    assert(long[n] == s[0]);
    if long.is_prefix_of(q) {
        assert(q[n] == long[n]);
        if q.len() > long.len() {
            assert(!q.take(long.len() as int + 1).is_prefix_of(long));
        }
        law_longest_match(m, long, q);
    } else if q.len() == n || q[n] != s[0] {
        if q.len() > n {
            assert(q.take(n + 1)[n] != long[n]);
        }
        law_longest_match(m, p, q);
    } else {
        // The query follows `s` up to some `d` short of its end.
        assert(long.take(n + 1) =~= q.take(n + 1)) by {
            assert forall|i: int| 0 <= i < n implies long[i] == q[i] by {
                assert(long[i] == p[i]);
            }
        }
        let d = common_length(long, q, n + 1);
        lemma_common_length(long, q, n + 1);
        assert(d < long.len()) by {
            if d == long.len() {
                assert(long.take(d) =~= long);
            }
        }
        assert(begins_stored_key(m, q.take(d))) by {
            assert(q.take(d).is_prefix_of(long));
        }
        assert(!m.contains_key(q.take(d))) by {
            assert(q.take(d).len() != p.len());
            assert(q.take(d).len() != long.len());
        }
        if d < q.len() {
            assert(q.take(d + 1)[d] != long[d]);
        }
        law_no_fallback(m, q, d);
    }
}

/// No spurious match: whatever a search finds is the value stored under a
/// prefix of the query.
pub proof fn law_match_is_stored<K, D>(m: Map<Seq<K>, D>, q: Seq<K>)
    ensures
        resting_prefix(m, q).is_prefix_of(q),
        lookup(m, q) is Some ==> m.contains_key(resting_prefix(m, q)) && lookup(m, q) == Some(
            m[resting_prefix(m, q)],
        ),
{
    lemma_descent_bounds(m, q, 0);
}

/// No spurious match: where neither the query nor any of its prefixes is
/// stored, a search finds nothing.
pub proof fn law_no_spurious_match<K, D>(m: Map<Seq<K>, D>, q: Seq<K>)
    requires
        forall|j: int| 0 <= j <= q.len() ==> !m.contains_key(#[trigger] q.take(j)),
    ensures
        lookup(m, q) is None,
{
    lemma_descent_bounds(m, q, 0);
}

/// A search in an empty trie finds nothing.
pub proof fn law_empty_trie<K, D>(q: Seq<K>)
    ensures
        lookup(Map::<Seq<K>, D>::empty(), q) is None,
{
}

/// An intermediate node has no value: a search for a prefix of a stored key
/// that is not stored itself finds nothing.
pub proof fn law_unstored_prefix<K, D>(m: Map<Seq<K>, D>, k: Seq<K>, q: Seq<K>)
    requires
        m.contains_key(k),
        q.is_prefix_of(k),
        !m.contains_key(q),
    ensures
        lookup(m, q) is None,
{
    law_exact_within_stored_key(m, k, q);
}

/// The empty key: once a value is stored under the empty key of an empty
/// trie, every search finds it, since the root has a value and no edge.
pub proof fn law_empty_key<K, D>(v: D, q: Seq<K>)
    ensures
        insert_outcome(Map::<Seq<K>, D>::empty(), Seq::<K>::empty()) is Ok,
        lookup(inserted(Map::<Seq<K>, D>::empty(), Seq::<K>::empty(), v), q) == Some(v),
{
    let root = Seq::<K>::empty();
    let m = inserted(Map::<Seq<K>, D>::empty(), root, v);
    assert(root.is_prefix_of(q));
    if q.len() > 0 && begins_stored_key(m, q.take(1)) {
        let k = choose|k: Seq<K>| #[trigger] m.contains_key(k) && q.take(1).is_prefix_of(k);
        assert(k == root);
    }
    law_longest_match(m, root, q);
}

} // verus!
