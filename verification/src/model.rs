//! The mathematical model of a graph store.
//!
//! A store is modelled by the payload of each vertex, the set of its edges and
//! the next identifier it will hand out. Everything the store's operations
//! promise is stated over this model.

use vstd::prelude::*;
use crate::comparable::Comparable;

verus! {

/// The abstract state of a graph store.
#[verifier::ext_equal]
pub struct GraphModel<T> {
    /// The payload stored under each vertex identifier that is currently present.
    pub payloads: Map<i32, T>,
    /// The edges, each as a pair (source, target).
    pub edges: Set<(i32, i32)>,
    /// The identifier that the next inserted vertex receives.
    pub next_id: int,
}

impl<T> GraphModel<T> {
    /// The store that holds nothing and has issued no identifier yet.
    pub open spec fn empty() -> Self {
        GraphModel { payloads: Map::empty(), edges: Set::empty(), next_id: 0 }
    }

    /// The identifiers of the vertices that are currently present.
    pub open spec fn vertices(self) -> Set<i32> {
        self.payloads.dom()
    }

    /// Whether `id` names a vertex that may take part in an edge: it has been
    /// issued and its vertex is still present.
    pub open spec fn valid(self, id: i32) -> bool {
        id < self.next_id && self.payloads.contains_key(id)
    }

    /// Whether there is an edge from `u` to `v`.
    pub open spec fn has_edge(self, u: i32, v: i32) -> bool {
        self.edges.contains((u, v))
    }

    /// The outward adjacency of `u`: the targets of the edges that leave it.
    pub open spec fn successors(self, u: i32) -> Set<i32> {
        Set::new(|v: i32| self.edges.contains((u, v)))
    }

    /// The inward adjacency of `v`: the sources of the edges that enter it.
    pub open spec fn predecessors(self, v: i32) -> Set<i32> {
        Set::new(|u: i32| self.edges.contains((u, v)))
    }

    /// The payload lookup: the payload of `id` if its vertex is present.
    pub open spec fn payload<'a>(self, id: i32) -> Option<&'a T> {
        if self.payloads.contains_key(id) {
            Some(&self.payloads[id])
        } else {
            None
        }
    }

    /// The well-formedness of a model: finitely many vertices, every present
    /// identifier issued (so between 0 and `next_id`), the counter within the
    /// range of an identifier, and edges only between present vertices.
    pub open spec fn wf(self) -> bool {
        &&& self.payloads.dom().finite()
        &&& 0 <= self.next_id <= i32::MAX
        &&& forall|id: i32| #[trigger]
            self.payloads.contains_key(id) ==> 0 <= id < self.next_id
        &&& forall|u: i32, v: i32| #[trigger]
            self.edges.contains((u, v)) ==> self.payloads.contains_key(u)
                && self.payloads.contains_key(v)
    }

    /// The model after a vertex with `payload` is inserted: it receives the
    /// identifier `next_id`, and the counter moves on by one.
    pub open spec fn with_vertex(self, payload: T) -> Self {
        GraphModel {
            payloads: self.payloads.insert(self.next_id as i32, payload),
            edges: self.edges,
            next_id: self.next_id + 1,
        }
    }

    /// The model after a request to link `u` to `v`: the edge is present if
    /// both endpoints are valid, and nothing changes otherwise.
    pub open spec fn with_edge(self, u: i32, v: i32) -> Self {
        if self.valid(u) && self.valid(v) {
            GraphModel { edges: self.edges.insert((u, v)), ..self }
        } else {
            self
        }
    }

    /// The model after a request to unlink `u` from `v`: the edge is absent if
    /// both endpoints are valid, and nothing changes otherwise.
    pub open spec fn without_edge(self, u: i32, v: i32) -> Self {
        if self.valid(u) && self.valid(v) {
            GraphModel { edges: self.edges.remove((u, v)), ..self }
        } else {
            self
        }
    }

    /// The model after a reset: no vertex and no edge is left, and the counter
    /// keeps its value.
    pub open spec fn cleared(self) -> Self {
        GraphModel { payloads: Map::empty(), edges: Set::empty(), next_id: self.next_id }
    }
}

impl<T: Comparable> GraphModel<T> {
    /// Whether the vertex `id` is present and its payload compares equal to `val`.
    pub open spec fn matches(self, id: i32, val: T) -> bool {
        self.payloads.contains_key(id) && self.payloads[id].compare_spec(&val) == 0
    }

    /// Whether `found` holds, position by position, the payloads of the
    /// vertices in `order`.
    pub open spec fn lists_payloads(self, order: Seq<i32>, found: Seq<Option<&T>>) -> bool {
        &&& found.len() == order.len()
        &&& forall|i: int| 0 <= i < order.len() ==> #[trigger] found[i] == self.payload(order[i])
    }
}

} // verus!
