//! The graph store.
//!
//! [`IGraph`] is the interface of a store: what each operation does to the
//! model of the store and what it returns. [`Graph`] is the store, kept in hash
//! maps: one from each vertex to its payload, and two adjacency indices, from
//! each vertex to the targets of its edges and to the sources of the edges
//! that enter it.

use vstd::prelude::*;
use vstd::std_specs::iter::IteratorSpec;
use std::collections::hash_map::Iter;
use std::collections::HashMap;
use std::collections::HashSet;
use crate::comparable::Comparable;
use crate::model::GraphModel;
use crate::order::enumerates;
use crate::visitor::IGraphVisitor;

verus! {

/// What a search by payload returns when no payload matches.
pub const NOT_FOUND: i32 = -1;

/// The interface of a graph store whose vertices carry payloads of type `T`.
///
/// Vertex identifiers are handed out by `add`, counting up from 0, and are
/// never handed out twice. Every operation takes and leaves a well-formed
/// store, and says what it does to the store's model.
pub trait IGraph<T: Comparable>: View<V = GraphModel<T>> {
    /// The invariant of the store.
    spec fn wf(&self) -> bool;

    /// A well-formed store has a well-formed model.
    proof fn lemma_wf_model(&self)
        requires
            self.wf(),
        ensures
            self@.wf(),
    ;

    /// Stores `val` under a fresh identifier and returns it.
    fn add(&mut self, val: T) -> (id: i32)
        requires
            old(self).wf(),
            old(self)@.next_id < i32::MAX,
        ensures
            final(self).wf(),
            id == old(self)@.next_id,
            final(self)@ == old(self)@.with_vertex(val),
    ;

    /// Returns the payload of `vertex`, if that vertex is present.
    fn get(&mut self, vertex: i32) -> (payload: Option<&T>)
        requires
            old(self).wf(),
        ensures
            final(self).wf(),
            final(self)@ == old(self)@,
            payload == old(self)@.payload(vertex),
    ;

    /// Searches for a vertex whose payload compares equal to `val`.
    ///
    /// Returns the identifier of one such vertex, or [`NOT_FOUND`] if there is
    /// none. Which one is returned when several match is not specified.
    fn get_vector(&mut self, val: &T) -> (id: i32)
        requires
            old(self).wf(),
        ensures
            final(self).wf(),
            final(self)@ == old(self)@,
            id != NOT_FOUND ==> old(self)@.matches(id, *val),
            id == NOT_FOUND ==> forall|k: i32| !old(self)@.matches(k, *val),
    ;

    /// Returns the payload of every vertex that is present, one entry each, in
    /// the order in which the store enumerates its vertices. The argument is
    /// not consulted.
    fn bulk_get(&mut self, vertices: Vec<i32>) -> (found: Vec<Option<&T>>)
        requires
            old(self).wf(),
        ensures
            final(self).wf(),
            final(self)@ == old(self)@,
            exists|order: Seq<i32>| #[trigger]
                enumerates(order, old(self)@.vertices()) && old(self)@.lists_payloads(
                    order,
                    found@,
                ),
    ;

    /// Requests an edge from `u` to `v`.
    ///
    /// Nothing happens if `u` or `v` is not a valid identifier. Returns whether
    /// an edge was added: `false` also when the edge was already there.
    fn link(&mut self, u: i32, v: i32) -> (added: bool)
        requires
            old(self).wf(),
        ensures
            final(self).wf(),
            final(self)@ == old(self)@.with_edge(u, v),
            added == (old(self)@.valid(u) && old(self)@.valid(v) && !old(self)@.has_edge(u, v)),
            !(old(self)@.valid(u) && old(self)@.valid(v)) ==> !added && final(self)@ == old(
                self,
            )@,
    ;

    /// Requests the removal of the edge from `u` to `v`.
    ///
    /// Nothing happens if `u` or `v` is not a valid identifier. Returns whether
    /// an edge was removed.
    fn unlink(&mut self, u: i32, v: i32) -> (removed: bool)
        requires
            old(self).wf(),
        ensures
            final(self).wf(),
            final(self)@ == old(self)@.without_edge(u, v),
            removed == (old(self)@.valid(u) && old(self)@.valid(v) && old(self)@.has_edge(u, v)),
            !(old(self)@.valid(u) && old(self)@.valid(v)) ==> !removed && final(self)@ == old(
                self,
            )@,
    ;

    /// Returns the targets of the edges that leave `vec`, each once, in no
    /// particular order.
    fn get_out_neighbours(&mut self, vec: i32) -> (neighbours: Vec<i32>)
        requires
            old(self).wf(),
        ensures
            final(self).wf(),
            final(self)@ == old(self)@,
            enumerates(neighbours@, old(self)@.successors(vec)),
    ;

    /// Removes every vertex and every edge. The identifier counter keeps its
    /// value, so that no identifier is ever handed out again.
    fn clear(&mut self)
        requires
            old(self).wf(),
        ensures
            final(self).wf(),
            final(self)@ == old(self)@.cleared(),
    ;

    /// Returns an iterator over the pairs of identifier and payload of the
    /// vertices that are present: each pair once, in no particular order.
    fn iter(&mut self) -> (pairs: Iter<'_, i32, T>)
        requires
            old(self).wf(),
        ensures
            final(self).wf(),
            final(self)@ == old(self)@,
            pairs.remaining().no_duplicates(),
            pairs.remaining().unref().to_set() == old(self)@.payloads.kv_pairs(),
            pairs.remaining().len() == old(self)@.payloads.dom().len(),
            IteratorSpec::decrease(&pairs) is Some,
            IteratorSpec::initial_value_relation(&pairs, &pairs),
    ;

    /// Returns the identifiers of the vertices that are present, each once, in
    /// no particular order.
    fn vertices(&mut self) -> (ids: Vec<i32>)
        requires
            old(self).wf(),
        ensures
            final(self).wf(),
            final(self)@ == old(self)@,
            enumerates(ids@, old(self)@.vertices()),
    ;
}

/// Whether the adjacency index `index` records `b` under `a`.
spec fn index_has(index: Map<i32, HashSet<i32>>, a: i32, b: i32) -> bool {
    index.contains_key(a) && index[a]@.contains(b)
}

/// A directed graph whose vertices carry payloads of type `T`.
pub struct Graph<T: Comparable> {
    vals: HashMap<i32, T>,
    inwards: HashMap<i32, HashSet<i32>>,
    outwards: HashMap<i32, HashSet<i32>>,
    counter: i32,
}

impl<T: Comparable> View for Graph<T> {
    type V = GraphModel<T>;

    closed spec fn view(&self) -> GraphModel<T> {
        GraphModel {
            payloads: self.vals@,
            edges: Set::new(|e: (i32, i32)| index_has(self.outwards@, e.0, e.1)),
            next_id: self.counter as int,
        }
    }
}

impl<T: Comparable> Graph<T> {
    /// The records of the inward index, each as a pair (target, source).
    pub closed spec fn inward_records(&self) -> Set<(i32, i32)> {
        Set::new(|e: (i32, i32)| index_has(self.inwards@, e.0, e.1))
    }

    /// Creates an empty store, whose first vertex will get the identifier 0.
    pub fn new() -> (g: Graph<T>)
        ensures
            g.wf(),
            g@ == GraphModel::<T>::empty(),
    {
        return Graph {
            vals: HashMap::new(),
            inwards: HashMap::new(),
            outwards: HashMap::new(),
            counter: 0,
        };
    }

    /// Hands the store to the visitor `v` and returns what its visit returns.
    pub fn accept<R, V: IGraphVisitor<T, R>>(&mut self, v: &mut V) -> (result: R)
        requires
            old(self).wf(),
        ensures
            final(self).wf(),
            old(v).yields(old(self)@, final(self)@, result),
    {
        return v.visit(self);
    }

    /// In a well-formed store the inward index holds the record (`v`, `u`)
    /// exactly when there is an edge from `u` to `v`.
    pub proof fn lemma_inward_mirrors_edges(&self)
        requires
            self.wf(),
        ensures
            forall|u: i32, v: i32|
                self.inward_records().contains((v, u)) <==> #[trigger] self@.has_edge(u, v),
    {
    }

    fn _is_key_exist(&self, k: i32) -> (r: bool)
        ensures
            r == self@.valid(k),
    {
        if k >= self.counter {
            return false;
        }
        return self.vals.contains_key(&k);
    }

    fn _add_outward_link(&mut self, u: i32, v: i32) -> (r: bool)
        ensures
            r == !index_has(old(self).outwards@, u, v),
            forall|a: i32, b: i32|
                index_has(final(self).outwards@, a, b) <==> index_has(old(self).outwards@, a, b)
                    || (a == u && b == v),
            final(self).vals == old(self).vals,
            final(self).inwards == old(self).inwards,
            final(self).counter == old(self).counter,
    {
        return self.outwards.entry(u).or_insert(HashSet::new()).insert(v);
    }

    fn _add_inward_link(&mut self, v: i32, u: i32) -> (r: bool)
        ensures
            r == !index_has(old(self).inwards@, v, u),
            forall|a: i32, b: i32|
                index_has(final(self).inwards@, a, b) <==> index_has(old(self).inwards@, a, b)
                    || (a == v && b == u),
            final(self).vals == old(self).vals,
            final(self).outwards == old(self).outwards,
            final(self).counter == old(self).counter,
    {
        return self.inwards.entry(v).or_insert(HashSet::new()).insert(u);
    }

    fn _remove_outward_link(&mut self, u: i32, v: i32) -> (r: bool)
        ensures
            r == index_has(old(self).outwards@, u, v),
            forall|a: i32, b: i32|
                index_has(final(self).outwards@, a, b) <==> index_has(old(self).outwards@, a, b)
                    && !(a == u && b == v),
            final(self).vals == old(self).vals,
            final(self).inwards == old(self).inwards,
            final(self).counter == old(self).counter,
    {
        return self.outwards.entry(u).or_insert(HashSet::new()).remove(&v);
    }

    fn _remove_inward_link(&mut self, v: i32, u: i32) -> (r: bool)
        ensures
            r == index_has(old(self).inwards@, v, u),
            forall|a: i32, b: i32|
                index_has(final(self).inwards@, a, b) <==> index_has(old(self).inwards@, a, b)
                    && !(a == v && b == u),
            final(self).vals == old(self).vals,
            final(self).outwards == old(self).outwards,
            final(self).counter == old(self).counter,
    {
        return self.inwards.entry(v).or_insert(HashSet::new()).remove(&u);
    }

    fn _get_outwards_vertices(&mut self, u: i32) -> (vertices: Vec<i32>)
        ensures
            forall|a: i32, b: i32|
                index_has(final(self).outwards@, a, b) <==> index_has(old(self).outwards@, a, b),
            final(self).vals == old(self).vals,
            final(self).inwards == old(self).inwards,
            final(self).counter == old(self).counter,
            vertices@.no_duplicates(),
            forall|b: i32| vertices@.contains(b) <==> index_has(old(self).outwards@, u, b),
    {
        let mut vertices = Vec::new();
        let targets = self.outwards.entry(u).or_insert(HashSet::new());
        let members = targets.iter();
        let ghost order = members.remaining().unref();
        for v in walk: members
            invariant
                walk.seq().unref() == order,
                vertices@ == order.take(walk.index()),
        {
            vertices.push(*v);
        }
        assert(vertices@ == order);
        return vertices;
    }
}

/// The keys of a map, taken in the order of an enumeration of its pairs,
/// enumerate its domain.
proof fn lemma_keys_enumerate_domain<T>(m: Map<i32, T>, pairs: Seq<(i32, T)>, keys: Seq<i32>)
    requires
        pairs.no_duplicates(),
        pairs.to_set() == m.kv_pairs(),
        keys.len() == pairs.len(),
        forall|i: int| 0 <= i < keys.len() ==> keys[i] == (#[trigger] pairs[i]).0,
    ensures
        enumerates(keys, m.dom()),
{
    assert forall|i: int, j: int| 0 <= i < keys.len() && 0 <= j < keys.len() && i != j implies keys[i]
        != keys[j] by {
        assert(m.kv_pairs().contains(pairs[i]));
        assert(m.kv_pairs().contains(pairs[j]));
    }
    assert forall|a: i32| #[trigger] keys.contains(a) <==> m.dom().contains(a) by {
        if keys.contains(a) {
            let i = choose|i: int| 0 <= i < keys.len() && keys[i] == a;
            assert(m.kv_pairs().contains(pairs[i]));
        }
        if m.dom().contains(a) {
            assert(pairs.to_set().contains((a, m[a])));
            let i = choose|i: int| 0 <= i < pairs.len() && pairs[i] == (a, m[a]);
            assert(keys[i] == a);
        }
    }
}

impl<T: Comparable> IGraph<T> for Graph<T> {
    /// The model is well-formed, and the inward index mirrors the outward one.
    closed spec fn wf(&self) -> bool {
        &&& self@.wf()
        &&& forall|u: i32, v: i32|
            index_has(self.outwards@, u, v) <==> index_has(self.inwards@, v, u)
    }

    proof fn lemma_wf_model(&self) {
    }

    fn add(&mut self, val: T) -> (id: i32) {
        let v = self.counter;
        self.vals.insert(self.counter, val);
        self.counter += 1;
        assert(self@.edges == old(self)@.edges);
        return v;
    }

    fn get(&mut self, vertex: i32) -> (payload: Option<&T>) {
        return self.vals.get(&vertex);
    }

    #[verifier::loop_isolation(false)]
    fn get_vector(&mut self, val: &T) -> (id: i32) {
        let pairs = self.vals.iter();
        let ghost order = pairs.remaining().unref();
        for (k, v) in walk: pairs
            invariant
                walk.seq().unref() == order,
                forall|i: int|
                    0 <= i < walk.index() ==> (#[trigger] order[i]).1.compare_spec(val) != 0,
        {
            if v.compare(val) == 0 {
                assert(order[walk.index()] == (*k, *v));
                return *k;
            }
        }
        proof {
            assert forall|k: i32| !self@.matches(k, *val) by {
                if self.vals@.contains_key(k) {
                    assert(order.to_set().contains((k, self.vals@[k])));
                    let i = choose|i: int| 0 <= i < order.len() && order[i] == (k, self.vals@[k]);
                    assert(order[i].1.compare_spec(val) != 0);
                }
            }
        }
        return NOT_FOUND;
    }

    #[verifier::loop_isolation(false)]
    fn bulk_get(&mut self, vertices: Vec<i32>) -> (found: Vec<Option<&T>>) {
        let mut result = Vec::<Option<&T>>::new();
        let ids = self.vertices();
        let ghost order = ids@;
        for v in walk: ids
            invariant
                walk.seq() == order,
                result@.len() == walk.index(),
                forall|i: int|
                    0 <= i < walk.index() ==> #[trigger] result@[i] == self@.payload(order[i]),
        {
            result.push(self.vals.get(&v));
        }
        return result;
    }

    fn link(&mut self, u: i32, v: i32) -> (added: bool) {
        if !(self._is_key_exist(u) && self._is_key_exist(v)) {
            return false;
        }
        let added = self._add_outward_link(u, v) && self._add_inward_link(v, u);
        assert(self@.edges == old(self)@.edges.insert((u, v)));
        return added;
    }

    fn unlink(&mut self, u: i32, v: i32) -> (removed: bool) {
        if !(self._is_key_exist(u) && self._is_key_exist(v)) {
            return false;
        }
        let removed = self._remove_outward_link(u, v) && self._remove_inward_link(v, u);
        assert(self@.edges == old(self)@.edges.remove((u, v)));
        return removed;
    }

    fn get_out_neighbours(&mut self, u: i32) -> (neighbours: Vec<i32>) {
        let vertices = self._get_outwards_vertices(u);
        assert(self@.edges == old(self)@.edges);
        return vertices;
    }

    fn clear(&mut self) {
        self.vals.clear();
        self.inwards.clear();
        self.outwards.clear();
    }

    fn iter(&mut self) -> (pairs: Iter<'_, i32, T>) {
        return self.vals.iter();
    }

    #[verifier::loop_isolation(false)]
    fn vertices(&mut self) -> (ids: Vec<i32>) {
        let mut vector = Vec::<i32>::new();
        let pairs = self.iter();
        let ghost order = pairs.remaining().unref();
        for (vertex, _) in walk: pairs
            invariant
                walk.seq().unref() == order,
                vector@.len() == walk.index(),
                forall|i: int| 0 <= i < walk.index() ==> vector@[i] == (#[trigger] order[i]).0,
        {
            vector.push(*vertex);
        }
        proof {
            lemma_keys_enumerate_domain(self@.payloads, order, vector@);
        }
        return vector;
    }
}

} // verus!
