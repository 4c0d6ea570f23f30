//! The mathematical model of a trie: a map from key sequences to values,
//! and what insertion and longest-match search mean on such a map.

use vstd::prelude::*;

verus! {

/// Some stored key begins with `p`: the trie has a node for `p` below its root.
pub open spec fn begins_stored_key<K, D>(m: Map<Seq<K>, D>, p: Seq<K>) -> bool {
    exists|k: Seq<K>| #[trigger] m.contains_key(k) && p.is_prefix_of(k)
}

/// How many elements of `q` a walk consumes that has already consumed `n` of
/// them: it goes on for as long as the next longer prefix of `q` still begins
/// a stored key.
pub open spec fn descent<K, D>(m: Map<Seq<K>, D>, q: Seq<K>, n: int) -> int
    decreases q.len() - n,
{
    if 0 <= n < q.len() && begins_stored_key(m, q.take(n + 1)) {
        descent(m, q, n + 1)
    } else {
        n
    }
}

/// The prefix of `q` at which a walk from the root comes to rest.
pub open spec fn resting_prefix<K, D>(m: Map<Seq<K>, D>, q: Seq<K>) -> Seq<K> {
    q.take(descent(m, q, 0))
}

/// Longest-match search: the value stored under the resting prefix of `q`,
/// if that prefix is itself a stored key. A value stored under a shorter
/// prefix is not offered in its place.
pub open spec fn lookup<K, D>(m: Map<Seq<K>, D>, q: Seq<K>) -> Option<D> {
    let p = resting_prefix(m, q);
    if m.contains_key(p) {
        Some(m[p])
    } else {
        None
    }
}

/// What an insertion of `k` returns: a key that is already present is
/// rejected.
pub open spec fn insert_outcome<K, D>(m: Map<Seq<K>, D>, k: Seq<K>) -> Result<(), &'static str> {
    if m.contains_key(k) {
        Err("key already present!")
    } else {
        Ok(())
    }
}

/// The map after an attempt to store `v` under `k`: a key that is already
/// present keeps its value.
pub open spec fn inserted<K, D>(m: Map<Seq<K>, D>, k: Seq<K>, v: D) -> Map<Seq<K>, D> {
    if m.contains_key(k) {
        m
    } else {
        m.insert(k, v)
    }
}

/// The edges that leave the node at `path`, in their order, after an
/// insertion of `k`, given the edges `before` it (none where there was no
/// such node). Where the key goes on from `path` with an element for which
/// there was no edge, that element's edge is added at the end; every other
/// node keeps its edges as they were.
pub open spec fn edges_after<K>(before: Seq<K>, path: Seq<K>, k: Seq<K>) -> Seq<K> {
    if path.len() < k.len() && path.is_prefix_of(k) && !before.contains(k[path.len() as int]) {
        before.push(k[path.len() as int])
    } else {
        before
    }
}

/// A walk never goes back and never goes past the end of the query.
pub proof fn lemma_descent_bounds<K, D>(m: Map<Seq<K>, D>, q: Seq<K>, n: int)
    requires
        0 <= n <= q.len(),
    ensures
        n <= descent(m, q, n) <= q.len(),
    decreases q.len() - n,
{
    if n < q.len() && begins_stored_key(m, q.take(n + 1)) {
        lemma_descent_bounds(m, q, n + 1);
    }
}

/// A walk passes every prefix that begins a stored key.
pub proof fn lemma_descent_passes<K, D>(m: Map<Seq<K>, D>, q: Seq<K>, n: int, d: int)
    requires
        0 <= n <= d <= q.len(),
        forall|j: int| n < j <= d ==> begins_stored_key(m, #[trigger] q.take(j)),
    ensures
        descent(m, q, n) == descent(m, q, d),
    decreases d - n,
{
    if n < d {
        assert(begins_stored_key(m, q.take(n + 1)));
        lemma_descent_passes(m, q, n + 1, d);
    }
}

/// A walk rests at `d` when it can pass every prefix up to `d` and the query
/// ends there or goes on with an element for which nothing is stored.
pub proof fn lemma_rests_at<K, D>(m: Map<Seq<K>, D>, q: Seq<K>, d: int)
    requires
        0 <= d <= q.len(),
        forall|j: int| 0 < j <= d ==> begins_stored_key(m, #[trigger] q.take(j)),
        d == q.len() || !begins_stored_key(m, q.take(d + 1)),
    ensures
        resting_prefix(m, q) == q.take(d),
{
    lemma_descent_passes(m, q, 0, d);
}

/// Every prefix of a prefix that begins a stored key begins one too.
pub proof fn lemma_begins_shorter<K, D>(m: Map<Seq<K>, D>, p: Seq<K>, j: int)
    requires
        begins_stored_key(m, p),
        0 <= j <= p.len(),
    ensures
        begins_stored_key(m, p.take(j)),
{
    let k = choose|k: Seq<K>| #[trigger] m.contains_key(k) && p.is_prefix_of(k);
    assert(p.take(j).is_prefix_of(k));
}

} // verus!
