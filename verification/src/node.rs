//! The trie node, which is at once the whole tree and each of its subtrees.

use vstd::prelude::*;
use vstd::std_specs::iter::IteratorSpec;
use crate::equality::equality_is_eq;
use crate::model::begins_stored_key;
use crate::model::descent;
use crate::model::edges_after;
use crate::model::insert_outcome;
use crate::model::inserted;
use crate::model::lookup;
use crate::model::lemma_descent_bounds;

verus! {

/// A node of the tree together with everything below it.
///
/// A node owns its children, in the order in which they were made, each
/// behind the edge for one key element. It holds a value when a key ends at
/// it. The trie as a whole is its root node.
#[derive(Debug)]
pub struct Trie<K, D> {
    children: Vec<Trie<K, D>>,
    key: Option<K>,
    data: Option<D>,
}

/// What an insertion returns: success, or that the key was already present.
pub type ErrType = Result<(), &'static str>;

impl<K: PartialEq + Copy, D> View for Trie<K, D> {
    type V = Map<Seq<K>, D>;

    /// The stored associations: the paths to the nodes that hold a value,
    /// each with that value. The order of a node's edges is not part of the
    /// view; `edges` gives it.
    closed spec fn view(&self) -> Map<Seq<K>, D> {
        Map::new(
            |s: Seq<K>| self.node_at(s) matches Some(n) && n.data is Some,
            |s: Seq<K>| self.node_at(s)->0.data->0,
        )
    }
}

impl<K: PartialEq + Copy, D> Trie<K, D> {
    /// The key element on the edge that leads to this node; a root has none.
    pub closed spec fn key_element(self) -> Option<K> {
        self.key
    }

    /// This node has an edge for `k`.
    spec fn has_child(self, k: K) -> bool {
        exists|i: int|
            0 <= i < self.children@.len() && (#[trigger] self.children@[i]).key == Some(k)
    }

    /// The position of the child behind the edge for `k`.
    spec fn slot(self, k: K) -> int {
        choose|i: int|
            0 <= i < self.children@.len() && (#[trigger] self.children@[i]).key == Some(k)
    }

    /// The node reached from this one along `path`, if every edge exists.
    spec fn node_at(self, path: Seq<K>) -> Option<Self>
        decreases path.len(),
    {
        if path.len() == 0 {
            Some(self)
        } else if self.has_child(path[0]) {
            self.children@[self.slot(path[0])].node_at(path.drop_first())
        } else {
            None
        }
    }

    /// The key elements on the edges that leave the node at `path`, in the
    /// order in which the edges were made; none where there is no such node.
    pub closed spec fn edges(self, path: Seq<K>) -> Seq<K> {
        match self.node_at(path) {
            Some(n) => n.children@.map_values(|c: Self| c.key->0),
            None => Seq::empty(),
        }
    }

    /// The node is of use to its parent: it holds a value or leads on.
    spec fn live(self) -> bool {
        self.data is Some || self.children@.len() > 0
    }

    /// The invariant of the tree: every child carries a key element, no two
    /// children of one node carry the same, and no node below the root is a
    /// dead end.
    pub closed spec fn wf(self) -> bool
        decreases self,
    {
        &&& forall|i: int| 0 <= i < self.children@.len() ==> {
            &&& (#[trigger] self.children@[i]).key is Some
            &&& self.children@[i].live()
            &&& self.children@[i].wf()
        }
        &&& forall|i: int, j: int| 0 <= i < j < self.children@.len() ==>
            (#[trigger] self.children@[i]).key != (#[trigger] self.children@[j]).key
    }

    /// Construct a new, empty trie.
    pub fn new_empty() -> (t: Trie<K, D>)
        ensures
            t.wf(),
            t@ == Map::<Seq<K>, D>::empty(),
            t.key_element() is None,
            forall|p: Seq<K>| #[trigger] t.edges(p) == Seq::<K>::empty(),
    {
        let t = Trie { children: Vec::new(), key: None, data: None };
        proof {
            t.lemma_bare();
        }
        t
    }

    /// The position of the child behind the edge for `k`, if there is one.
    fn find_child(&self, k: K) -> (at: Option<usize>)
        requires
            self.wf(),
            equality_is_eq::<K>(),
        ensures
            match at {
                Some(i) => self.has_child(k) && i == self.slot(k) && i < self.children@.len(),
                None => !self.has_child(k),
            },
    {
        let mut i: usize = 0;
        while i < self.children.len()
            invariant
                0 <= i <= self.children.len(),
                self.wf(),
                equality_is_eq::<K>(),
                forall|j: int| 0 <= j < i ==> (#[trigger] self.children@[j]).key != Some(k),
            decreases self.children.len() - i,
        {
            if let Some(child_key) = self.children[i].key {
                if child_key == k {
                    proof {
                        self.lemma_slot(i as int);
                    }
                    return Some(i);
                }
            }
            i += 1;
        }
        None
    }

    /// Insert a new value into the trie.
    ///
    /// `key_elems` yields the elements of the key from front to back and
    /// then ends; the key may be empty. The nodes along it are made as far
    /// as they are missing. A key that is already present keeps its value,
    /// and the insertion is rejected.
    ///
    /// A new edge is added after the edges that its node already has; a
    /// rejected insertion adds none.
    ///
    /// Key elements are told apart by `==`, which has to be equality on `K`.
    pub fn insert_iter<F: Iterator<Item = K>>(&mut self, key_elems: F, data: D) -> (res: ErrType)
        requires
            old(self).wf(),
            equality_is_eq::<K>(),
            key_elems.obeys_prophetic_iter_laws(),
            key_elems.decrease() is Some,
        ensures
            final(self).wf(),
            final(self).key_element() == old(self).key_element(),
            final(self)@ == inserted(old(self)@, key_elems.remaining(), data),
            forall|p: Seq<K>| #[trigger]
                final(self).edges(p) == edges_after(old(self).edges(p), p, key_elems.remaining()),
            res is Err ==> forall|p: Seq<K>| #[trigger] final(self).edges(p) == old(self).edges(p),
            res == insert_outcome(old(self)@, key_elems.remaining()),
        decreases key_elems.decrease()->0,
    {
        assert(self@.contains_key(key_elems.remaining()) ==> forall|p: Seq<K>| #[trigger]
            edges_after(self.edges(p), p, key_elems.remaining()) == self.edges(p)) by {
            if self@.contains_key(key_elems.remaining()) {
                self.lemma_stored_key_has_its_edges(key_elems.remaining());
            }
        }
        let mut rest = key_elems;
        match rest.next() {
            Some(this_key) => {
                proof {
                    assert(seq![this_key] + rest.remaining() =~= key_elems.remaining());
                }
                match self.find_child(this_key) {
                    Some(i) => {
                        let res = self.children[i].insert_iter(rest, data);
                        proof {
                            old(self).lemma_insert_below(*self, i as int, rest.remaining(), data);
                        }
                        res
                    },
                    None => {
                        let mut new_child = Trie {
                            children: Vec::new(),
                            key: Some(this_key),
                            data: None,
                        };
                        proof {
                            new_child.lemma_bare();
                        }
                        let res = new_child.insert_iter(rest, data);
                        self.children.push(new_child);
                        proof {
                            old(self).lemma_insert_beside(*self, this_key, rest.remaining(), data);
                        }
                        res
                    },
                }
            },
            None => {
                proof {
                    assert(key_elems.remaining() =~= Seq::<K>::empty());
                }
                match self.data {
                    None => {
                        self.data = Some(data);
                        proof {
                            old(self).lemma_set_here(*self, data);
                        }
                        Ok(())
                    },
                    Some(_) => Err("key already present!"),
                }
            },
        }
    }

    /// Insert a new value into the trie.
    ///
    /// The same as [`Trie::insert_iter`].
    pub fn insert<F: Iterator<Item = K>>(&mut self, key: F, data: D) -> (res: ErrType)
        requires
            old(self).wf(),
            equality_is_eq::<K>(),
            key.obeys_prophetic_iter_laws(),
            key.decrease() is Some,
        ensures
            final(self).wf(),
            final(self).key_element() == old(self).key_element(),
            final(self)@ == inserted(old(self)@, key.remaining(), data),
            forall|p: Seq<K>| #[trigger]
                final(self).edges(p) == edges_after(old(self).edges(p), p, key.remaining()),
            res is Err ==> forall|p: Seq<K>| #[trigger] final(self).edges(p) == old(self).edges(p),
            res == insert_outcome(old(self)@, key.remaining()),
    {
        self.insert_iter(key, data)
    }

    /// Search for the longest match in the trie.
    ///
    /// `key_elems` yields the elements of the query from front to back and
    /// then ends. The walk follows the query for as long as an edge exists
    /// and answers with the value of the node at which it comes to rest, if
    /// that node has one; it does not go back to a value that it has passed.
    pub fn search_iter<F: Iterator<Item = K>>(&self, key_elems: F) -> (res: Option<&D>)
        requires
            self.wf(),
            equality_is_eq::<K>(),
            key_elems.obeys_prophetic_iter_laws(),
            key_elems.decrease() is Some,
        ensures
            match res {
                Some(found) => lookup(self@, key_elems.remaining()) == Some(*found),
                None => lookup(self@, key_elems.remaining()) is None,
            },
        decreases key_elems.decrease()->0,
    {
        let mut rest = key_elems;
        match rest.next() {
            Some(this_key) => match self.find_child(this_key) {
                Some(i) => {
                    proof {
                        self.lemma_lookup_below(key_elems.remaining());
                    }
                    self.children[i].search_iter(rest)
                },
                None => {
                    proof {
                        self.lemma_lookup_here(key_elems.remaining());
                    }
                    self.data.as_ref()
                },
            },
            None => {
                proof {
                    self.lemma_lookup_here(key_elems.remaining());
                }
                self.data.as_ref()
            },
        }
    }

    /// Search for the longest match in the trie.
    ///
    /// The same as [`Trie::search_iter`].
    pub fn search<F: Iterator<Item = K>>(&self, key: F) -> (res: Option<&D>)
        requires
            self.wf(),
            equality_is_eq::<K>(),
            key.obeys_prophetic_iter_laws(),
            key.decrease() is Some,
        ensures
            match res {
                Some(found) => lookup(self@, key.remaining()) == Some(*found),
                None => lookup(self@, key.remaining()) is None,
            },
    {
        self.search_iter(key)
    }
}

impl<K: PartialEq + Copy, D> Trie<K, D> {
    /// The edges are those that the stored keys need, each once: the node at
    /// `path` has an edge for `k` exactly when some stored key begins with
    /// `path` followed by `k`. Beyond the stored map the edges hold their
    /// order, and nothing else.
    pub proof fn lemma_edges_follow_keys(self, path: Seq<K>, k: K)
        requires
            self.wf(),
        ensures
            self.edges(path).no_duplicates(),
            self.edges(path).contains(k) <==> begins_stored_key(self@, path.push(k)),
        decreases path.len(),
    {
        if path.len() == 0 {
            let here = self.edges(path);
            self.lemma_edges_here(k);
            assert(path =~= Seq::<K>::empty());
            assert(path.push(k) =~= seq![k] + Seq::<K>::empty());
            assert forall|i: int, j: int|
                0 <= i < here.len() && 0 <= j < here.len() && i != j implies here[i] != here[j] by {
                if i < j {
                    assert(self.children@[i].key != self.children@[j].key);
                } else {
                    assert(self.children@[j].key != self.children@[i].key);
                }
            }
            if self.has_child(k) {
                let c = self.children@[self.slot(k)];
                self.lemma_child(k);
                c.lemma_live_stores();
                let stored = choose|x: Seq<K>| c@.contains_key(x);
                assert(Seq::<K>::empty().is_prefix_of(stored));
                self.lemma_begins_below(k, Seq::<K>::empty());
            } else {
                self.lemma_begins_nowhere(path.push(k));
            }
        } else {
            let a = path[0];
            let tail = path.drop_first();
            assert(path =~= seq![a] + tail);
            assert(path.push(k) =~= seq![a] + tail.push(k));
            if self.has_child(a) {
                let c = self.children@[self.slot(a)];
                self.lemma_child(a);
                self.lemma_edges_below(a, tail);
                c.lemma_edges_follow_keys(tail, k);
                self.lemma_begins_below(a, tail.push(k));
            } else {
                self.lemma_edges_nowhere(path);
                self.lemma_begins_nowhere(path.push(k));
            }
        }
    }

    /// Every edge along a stored key is there, so that a rejected insertion
    /// has no edge to add.
    pub proof fn lemma_stored_key_has_its_edges(self, key: Seq<K>)
        requires
            self.wf(),
            self@.contains_key(key),
        ensures
            forall|p: Seq<K>| #[trigger] edges_after(self.edges(p), p, key) == self.edges(p),
    {
        assert forall|p: Seq<K>| #[trigger] edges_after(self.edges(p), p, key) == self.edges(p) by {
            if p.len() < key.len() && p.is_prefix_of(key) {
                let next = key[p.len() as int];
                assert(p.push(next).is_prefix_of(key));
                self.lemma_edges_follow_keys(p, next);
            }
        }
    }
}

impl<K: PartialEq + Copy, D> Trie<K, D> {
    /// A node without a value and without children is well-formed and stores
    /// nothing.
    proof fn lemma_bare(self)
        requires
            self.children@.len() == 0,
            self.data is None,
        ensures
            self.wf(),
            self@ == Map::<Seq<K>, D>::empty(),
            forall|p: Seq<K>| #[trigger] self.edges(p) == Seq::<K>::empty(),
    {
        assert forall|s: Seq<K>| !(#[trigger] self@.contains_key(s)) by {
            if s.len() > 0 {
                assert(!self.has_child(s[0]));
            }
        }
        assert forall|p: Seq<K>| #[trigger] self.edges(p) == Seq::<K>::empty() by {
            if p.len() > 0 {
                self.lemma_edges_nowhere(p);
            }
        }
    }

    /// The edges of a node are its children's key elements.
    proof fn lemma_edges_here(self, a: K)
        requires
            self.wf(),
        ensures
            self.edges(Seq::<K>::empty()).len() == self.children@.len(),
            forall|i: int| 0 <= i < self.children@.len() ==> Some(
                #[trigger] self.edges(Seq::<K>::empty())[i],
            ) == self.children@[i].key,
            self.edges(Seq::<K>::empty()).contains(a) <==> self.has_child(a),
    {
        let here = self.edges(Seq::<K>::empty());
        if self.has_child(a) {
            assert(here[self.slot(a)] == a);
        }
        if here.contains(a) {
            let i = choose|i: int| 0 <= i < here.len() && here[i] == a;
            assert(self.children@[i].key == Some(a));
        }
    }

    /// The edges below the edge for `a` are those of that child.
    proof fn lemma_edges_below(self, a: K, rest: Seq<K>)
        requires
            self.has_child(a),
        ensures
            self.edges(seq![a] + rest) == self.children@[self.slot(a)].edges(rest),
    {
        assert((seq![a] + rest).drop_first() =~= rest);
    }

    /// There are no edges below an edge that does not exist.
    proof fn lemma_edges_nowhere(self, p: Seq<K>)
        requires
            p.len() > 0,
            !self.has_child(p[0]),
        ensures
            self.edges(p) == Seq::<K>::empty(),
    {
    }

    /// The child at `i` is the one behind the edge for its own key element.
    proof fn lemma_slot(self, i: int)
        requires
            self.wf(),
            0 <= i < self.children@.len(),
        ensures
            self.has_child(self.children@[i].key->0),
            self.slot(self.children@[i].key->0) == i,
    {
        let j = self.slot(self.children@[i].key->0);
        assert(self.children@[j].key == self.children@[i].key);
    }

    /// The child behind an existing edge is well-formed, live and carries
    /// the edge's element.
    proof fn lemma_child(self, k: K)
        requires
            self.wf(),
            self.has_child(k),
        ensures
            0 <= self.slot(k) < self.children@.len(),
            self.children@[self.slot(k)].key == Some(k),
            self.children@[self.slot(k)].wf(),
            self.children@[self.slot(k)].live(),
    {
    }

    /// A live node stores at least one key.
    proof fn lemma_live_stores(self)
        requires
            self.wf(),
            self.live(),
        ensures
            exists|k: Seq<K>| self@.contains_key(k),
        decreases self,
    {
        if self.data is Some {
            assert(self@.contains_key(Seq::<K>::empty()));
        } else {
            let c = self.children@[0];
            c.lemma_live_stores();
            let rest = choose|k: Seq<K>| c@.contains_key(k);
            self.lemma_slot(0);
            self.lemma_view_below(c.key->0, rest);
        }
    }

    /// A node that stores a key is live.
    proof fn lemma_stores_live(self, k: Seq<K>)
        requires
            self@.contains_key(k),
        ensures
            self.live(),
    {
        if k.len() > 0 {
            assert(self.has_child(k[0]));
        }
    }

    /// The keys stored below the edge for `a` are the keys of that child,
    /// each with `a` in front.
    proof fn lemma_view_below(self, a: K, rest: Seq<K>)
        requires
            self.has_child(a),
        ensures
            ({
                let below = self.children@[self.slot(a)]@;
                &&& self@.contains_key(seq![a] + rest) <==> below.contains_key(rest)
                &&& self@.contains_key(seq![a] + rest) ==> self@[seq![a] + rest] == below[rest]
            }),
    {
        assert((seq![a] + rest).drop_first() =~= rest);
    }

    /// A path below the edge for `a` begins a stored key exactly when its
    /// remainder begins a key of that child.
    proof fn lemma_begins_below(self, a: K, rest: Seq<K>)
        requires
            self.has_child(a),
        ensures
            begins_stored_key(self@, seq![a] + rest) <==> begins_stored_key(
                self.children@[self.slot(a)]@,
                rest,
            ),
    {
        let c = self.children@[self.slot(a)];
        let p = seq![a] + rest;
        if begins_stored_key(self@, p) {
            let k = choose|k: Seq<K>| #[trigger] self@.contains_key(k) && p.is_prefix_of(k);
            let tail = k.drop_first();
            assert(k =~= seq![a] + tail) by {
                assert(k[0] == p[0]);
            }
            self.lemma_view_below(a, tail);
            assert(rest.is_prefix_of(tail)) by {
                assert forall|i: int| 0 <= i < rest.len() implies rest[i] == tail[i] by {
                    assert(p[i + 1] == k[i + 1]);
                }
            }
        }
        if begins_stored_key(c@, rest) {
            let tail = choose|k: Seq<K>| #[trigger] c@.contains_key(k) && rest.is_prefix_of(k);
            self.lemma_view_below(a, tail);
            assert(p.is_prefix_of(seq![a] + tail));
        }
    }

    /// Nothing is stored below an edge that does not exist.
    proof fn lemma_begins_nowhere(self, p: Seq<K>)
        requires
            p.len() > 0,
            !self.has_child(p[0]),
        ensures
            !begins_stored_key(self@, p),
    {
        if begins_stored_key(self@, p) {
            let k = choose|k: Seq<K>| #[trigger] self@.contains_key(k) && p.is_prefix_of(k);
            assert(k[0] == p[0]);
        }
    }

    /// Once the edge for the first element of `q` is taken, the walk goes on
    /// as a walk in that child.
    proof fn lemma_descent_below(self, q: Seq<K>, n: int)
        requires
            self.wf(),
            q.len() > 0,
            self.has_child(q[0]),
            0 <= n < q.len(),
        ensures
            ({
                let below = self.children@[self.slot(q[0])]@;
                descent(self@, q, n + 1) == descent(below, q.drop_first(), n) + 1
            }),
        decreases q.len() - n,
    {
        let tail = q.drop_first();
        if n + 1 < q.len() {
            assert(q.take(n + 2) =~= seq![q[0]] + tail.take(n + 1));
            self.lemma_begins_below(q[0], tail.take(n + 1));
            if begins_stored_key(self@, q.take(n + 2)) {
                self.lemma_descent_below(q, n + 1);
            }
        }
    }

    /// The search that takes the edge for the first element of `q` is the
    /// search for the rest of `q` in that child.
    proof fn lemma_lookup_below(self, q: Seq<K>)
        requires
            self.wf(),
            q.len() > 0,
            self.has_child(q[0]),
        ensures
            lookup(self@, q) == lookup(self.children@[self.slot(q[0])]@, q.drop_first()),
    {
        let c = self.children@[self.slot(q[0])];
        let tail = q.drop_first();
        // The child is live, so the walk takes the first edge.
        assert(begins_stored_key(self@, q.take(1))) by {
            self.lemma_child(q[0]);
            c.lemma_live_stores();
            let k = choose|k: Seq<K>| c@.contains_key(k);
            assert(Seq::<K>::empty().is_prefix_of(k));
            assert(q.take(1) =~= seq![q[0]] + Seq::<K>::empty());
            self.lemma_begins_below(q[0], Seq::<K>::empty());
        }
        // From there on it is the walk in the child.
        self.lemma_descent_below(q, 0);
        let d = descent(c@, tail, 0);
        lemma_descent_bounds(c@, tail, 0);
        assert(q.take(d + 1) =~= seq![q[0]] + tail.take(d));
        self.lemma_view_below(q[0], tail.take(d));
    }

    /// A search that cannot take an edge answers with the node's own value.
    proof fn lemma_lookup_here(self, q: Seq<K>)
        requires
            q.len() == 0 || !self.has_child(q[0]),
        ensures
            lookup(self@, q) == self.data,
    {
        if q.len() > 0 {
            self.lemma_begins_nowhere(q.take(1));
        }
        assert(q.take(0) =~= Seq::<K>::empty());
    }

    /// Storing a value at a node that had none adds the empty key.
    proof fn lemma_set_here(self, after: Self, data: D)
        requires
            self.wf(),
            self.data is None,
            after.children@ == self.children@,
            after.key == self.key,
            after.data == Some(data),
        ensures
            after.wf(),
            !self@.contains_key(Seq::<K>::empty()),
            after@ == self@.insert(Seq::<K>::empty(), data),
            forall|p: Seq<K>| #[trigger] after.edges(p) == self.edges(p),
    {
        assert forall|p: Seq<K>| #[trigger] after.edges(p) == self.edges(p) by {
            if p.len() > 0 {
                assert(self.has_child(p[0]) == after.has_child(p[0]));
            }
        }
        let goal = self@.insert(Seq::<K>::empty(), data);
        assert forall|s: Seq<K>| #[trigger] after@.contains_key(s) == goal.contains_key(s) && (
        after@.contains_key(s) ==> after@[s] == goal[s]) by {
            if s.len() > 0 {
                assert(self.has_child(s[0]) == after.has_child(s[0]));
            } else {
                assert(s =~= Seq::<K>::empty());
            }
        }
    }

    /// Two nodes whose children carry the same key elements at the same
    /// positions have the same edges.
    proof fn lemma_same_slots(self, after: Self, b: K)
        requires
            self.wf(),
            after.wf(),
            self.children@.len() <= after.children@.len(),
            forall|j: int| 0 <= j < self.children@.len() ==> (#[trigger] after.children@[j]).key
                == self.children@[j].key,
            forall|j: int| self.children@.len() <= j < after.children@.len() ==> (
            #[trigger] after.children@[j]).key != Some(b),
        ensures
            self.has_child(b) == after.has_child(b),
            self.has_child(b) ==> self.slot(b) == after.slot(b),
    {
        if self.has_child(b) {
            let j = self.slot(b);
            assert(after.children@[j].key == Some(b));
            after.lemma_slot(j);
        }
        if after.has_child(b) {
            let j = after.slot(b);
            assert(self.children@[j].key == Some(b));
        }
    }

    /// An insertion into the child at `i` is an insertion into this node
    /// with the child's key element in front of the key.
    proof fn lemma_insert_below(self, after: Self, i: int, rest: Seq<K>, data: D)
        requires
            self.wf(),
            0 <= i < self.children@.len(),
            after.children@.len() == self.children@.len(),
            after.children@ == self.children@.update(i, after.children@[i]),
            after.key == self.key,
            after.data == self.data,
            after.children@[i].wf(),
            after.children@[i].key == self.children@[i].key,
            after.children@[i]@ == inserted(self.children@[i]@, rest, data),
            forall|p: Seq<K>| #[trigger]
                after.children@[i].edges(p) == edges_after(self.children@[i].edges(p), p, rest),
        ensures
            ({
                let key = seq![self.children@[i].key->0] + rest;
                &&& after.wf()
                &&& after@ == inserted(self@, key, data)
                &&& self@.contains_key(key) <==> self.children@[i]@.contains_key(rest)
                &&& forall|p: Seq<K>| #[trigger]
                    after.edges(p) == edges_after(self.edges(p), p, key)
            }),
    {
        let a = self.children@[i].key->0;
        let c = self.children@[i];
        let d = after.children@[i];
        let key = seq![a] + rest;
        self.lemma_slot(i);
        self.lemma_view_below(a, rest);
        // The child still stores what it stored, so it is still live.
        assert(d.live()) by {
            c.lemma_live_stores();
            let k = choose|k: Seq<K>| c@.contains_key(k);
            d.lemma_stores_live(k);
        }
        assert(after.wf()) by {
            assert forall|j: int| 0 <= j < after.children@.len() implies (
            #[trigger] after.children@[j]).key == self.children@[j].key by {}
        }
        let goal = inserted(self@, key, data);
        assert forall|s: Seq<K>| #[trigger] after@.contains_key(s) == goal.contains_key(s) && (
        after@.contains_key(s) ==> after@[s] == goal[s]) by {
            if s.len() > 0 {
                let tail = s.drop_first();
                assert(s =~= seq![s[0]] + tail);
                self.lemma_same_slots(after, s[0]);
                if self.has_child(s[0]) {
                    self.lemma_view_below(s[0], tail);
                    after.lemma_view_below(s[0], tail);
                }
                if s[0] == a {
                    assert(s == key <==> tail == rest) by {
                        assert(key.drop_first() =~= rest);
                    }
                } else {
                    assert(s[0] != key[0]);
                }
            }
        }
        assert forall|p: Seq<K>| #[trigger]
            after.edges(p) == edges_after(self.edges(p), p, key) by {
            if p.len() == 0 {
                self.lemma_edges_here(a);
                after.lemma_edges_here(a);
                assert(p =~= Seq::<K>::empty());
                assert(after.edges(p) =~= self.edges(p));
                assert(key[0] == a);
            } else {
                let tail = p.drop_first();
                assert(p =~= seq![p[0]] + tail);
                self.lemma_same_slots(after, p[0]);
                if self.has_child(p[0]) {
                    self.lemma_edges_below(p[0], tail);
                    after.lemma_edges_below(p[0], tail);
                } else {
                    self.lemma_edges_nowhere(p);
                    after.lemma_edges_nowhere(p);
                }
                if p[0] == a {
                    lemma_edges_after_below(c.edges(tail), a, tail, rest);
                } else {
                    assert(p[0] != key[0]);
                }
            }
        }
    }

    /// A new child behind an edge that did not exist adds its keys, each
    /// with the edge's element in front.
    proof fn lemma_insert_beside(self, after: Self, a: K, rest: Seq<K>, data: D)
        requires
            self.wf(),
            !self.has_child(a),
            after.children@.len() == self.children@.len() + 1,
            after.children@ == self.children@.push(after.children@.last()),
            after.key == self.key,
            after.data == self.data,
            after.children@.last().wf(),
            after.children@.last().key == Some(a),
            after.children@.last()@ == Map::<Seq<K>, D>::empty().insert(rest, data),
            forall|p: Seq<K>| #[trigger]
                after.children@.last().edges(p) == edges_after(Seq::<K>::empty(), p, rest),
        ensures
            after.wf(),
            !self@.contains_key(seq![a] + rest),
            after@ == self@.insert(seq![a] + rest, data),
            forall|p: Seq<K>| #[trigger]
                after.edges(p) == edges_after(self.edges(p), p, seq![a] + rest),
    {
        let n = self.children@.len() as int;
        let d = after.children@[n];
        let key = seq![a] + rest;
        assert(d.live()) by {
            d.lemma_stores_live(rest);
        }
        assert(after.wf()) by {
            assert forall|j: int| 0 <= j < n implies (#[trigger] after.children@[j])
                == self.children@[j] by {}
        }
        after.lemma_slot(n);
        let goal = self@.insert(key, data);
        assert forall|s: Seq<K>| #[trigger] after@.contains_key(s) == goal.contains_key(s) && (
        after@.contains_key(s) ==> after@[s] == goal[s]) by {
            if s.len() > 0 {
                let tail = s.drop_first();
                assert(s =~= seq![s[0]] + tail);
                if s[0] == a {
                    after.lemma_view_below(a, tail);
                    assert(s == key <==> tail == rest) by {
                        assert(key.drop_first() =~= rest);
                    }
                } else {
                    assert(s[0] != key[0]);
                    self.lemma_same_slots(after, s[0]);
                    if self.has_child(s[0]) {
                        self.lemma_view_below(s[0], tail);
                        after.lemma_view_below(s[0], tail);
                    }
                }
            }
        }
        assert forall|p: Seq<K>| #[trigger]
            after.edges(p) == edges_after(self.edges(p), p, key) by {
            if p.len() == 0 {
                self.lemma_edges_here(a);
                after.lemma_edges_here(a);
                assert(p =~= Seq::<K>::empty());
                assert(after.edges(p) =~= self.edges(p).push(a));
            } else {
                let tail = p.drop_first();
                assert(p =~= seq![p[0]] + tail);
                if p[0] == a {
                    self.lemma_edges_nowhere(p);
                    after.lemma_edges_below(a, tail);
                    lemma_edges_after_below(Seq::<K>::empty(), a, tail, rest);
                } else {
                    assert(p[0] != key[0]);
                    self.lemma_same_slots(after, p[0]);
                    if self.has_child(p[0]) {
                        self.lemma_edges_below(p[0], tail);
                        after.lemma_edges_below(p[0], tail);
                    } else {
                        self.lemma_edges_nowhere(p);
                        after.lemma_edges_nowhere(p);
                    }
                }
            }
        }
    }
}

/// Below the first element of the key, an insertion does to the edges what
/// the insertion of the rest of the key does.
proof fn lemma_edges_after_below<K>(before: Seq<K>, a: K, path: Seq<K>, rest: Seq<K>)
    ensures
        edges_after(before, seq![a] + path, seq![a] + rest) == edges_after(before, path, rest),
{
    let p = seq![a] + path;
    let k = seq![a] + rest;
    if path.len() < rest.len() {
        assert(k[p.len() as int] == rest[path.len() as int]);
    }
    if p.is_prefix_of(k) {
        assert(path.is_prefix_of(rest)) by {
            assert forall|i: int| 0 <= i < path.len() implies path[i] == rest[i] by {
                assert(p[i + 1] == k[i + 1]);
            }
        }
    }
    if path.is_prefix_of(rest) {
        assert(p.is_prefix_of(k));
    }
}

} // verus!
