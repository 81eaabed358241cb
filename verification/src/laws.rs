//! Laws of the graph store: facts that relate several of its operations.
//!
//! Each operation of a store says what it does to the store's model, so a law
//! about a run of operations is a statement about the model functions that
//! those operations follow.

use vstd::prelude::*;
use crate::comparable::Comparable;
use crate::graph::Graph;
use crate::graph::IGraph;
use crate::model::GraphModel;

verus! {

impl<T> GraphModel<T> {
    /// The model after a run of insertions, one for each payload in turn.
    pub open spec fn with_vertices(self, payloads: Seq<T>) -> Self
        decreases payloads.len(),
    {
        if payloads.len() == 0 {
            self
        } else {
            self.with_vertices(payloads.drop_last()).with_vertex(payloads.last())
        }
    }

    /// The identifier that insertion number `i` (from 0) of a run of
    /// insertions returns: the counter after the `i` insertions before it.
    pub open spec fn issued_id(self, payloads: Seq<T>, i: int) -> int {
        self.with_vertices(payloads.take(i)).next_id
    }
}

/// A run of insertions moves the counter on by its length, and touches no edge.
pub proof fn lemma_insertions_count<T>(m: GraphModel<T>, payloads: Seq<T>)
    ensures
        m.with_vertices(payloads).next_id == m.next_id + payloads.len(),
        m.with_vertices(payloads).edges == m.edges,
    decreases payloads.len(),
{
    if payloads.len() > 0 {
        lemma_insertions_count(m, payloads.drop_last());
    }
}

/// The identifiers that a run of insertions returns count up one by one from
/// the counter at its start, whatever the payloads are: insertion number `i`
/// returns the counter plus `i`. On a new store that is `i` itself.
pub proof fn lemma_issued_ids_count_up<T>(m: GraphModel<T>, payloads: Seq<T>, i: int)
    requires
        0 <= i < payloads.len(),
    ensures
        m.issued_id(payloads, i) == m.next_id + i,
        GraphModel::<T>::empty().issued_id(payloads, i) == i,
{
    lemma_insertions_count(m, payloads.take(i));
    lemma_insertions_count(GraphModel::<T>::empty(), payloads.take(i));
}

/// The identifiers that a run of insertions returns are strictly increasing.
pub proof fn lemma_issued_ids_increase<T>(m: GraphModel<T>, payloads: Seq<T>, i: int, j: int)
    requires
        0 <= i < j < payloads.len(),
    ensures
        m.issued_id(payloads, i) < m.issued_id(payloads, j),
{
    lemma_issued_ids_count_up(m, payloads, i);
    lemma_issued_ids_count_up(m, payloads, j);
}

/// Linking `u` to `v` and unlinking them at once restores the model, and with
/// it the outward adjacency of `u` and the inward adjacency of every vertex,
/// provided that the edge was not there before.
pub proof fn lemma_link_then_unlink_restores<T>(m: GraphModel<T>, u: i32, v: i32)
    requires
        !m.has_edge(u, v),
    ensures
        m.with_edge(u, v).without_edge(u, v) == m,
        m.with_edge(u, v).without_edge(u, v).successors(u) == m.successors(u),
        forall|w: i32| #[trigger]
            m.with_edge(u, v).without_edge(u, v).predecessors(w) == m.predecessors(w),
{
}

/// If a store went from `before` to `after` by linking `u` to `v` and
/// unlinking them at once, and the edge was not there before, then the inward
/// index of `after` holds the records that the one of `before` held.
pub proof fn lemma_link_then_unlink_restores_inward_index<T: Comparable>(
    before: Graph<T>,
    after: Graph<T>,
    u: i32,
    v: i32,
)
    requires
        before.wf(),
        after.wf(),
        !before@.has_edge(u, v),
        after@ == before@.with_edge(u, v).without_edge(u, v),
    ensures
        after.inward_records() == before.inward_records(),
{
    lemma_link_then_unlink_restores(before@, u, v);
    before.lemma_inward_mirrors_edges();
    after.lemma_inward_mirrors_edges();
    assert forall|e: (i32, i32)|
        after.inward_records().contains(e) <==> before.inward_records().contains(e) by {
        assert(before.inward_records().contains((e.0, e.1)) <==> before@.has_edge(e.1, e.0));
    }
}

/// An identifier that was never issued is not valid, so a request to link or
/// unlink with it changes nothing.
pub proof fn lemma_unissued_identifier_is_invalid<T>(m: GraphModel<T>, id: i32, other: i32)
    requires
        m.wf(),
        id < 0 || id >= m.next_id,
    ensures
        !m.valid(id),
        m.with_edge(id, other) == m,
        m.with_edge(other, id) == m,
        m.without_edge(id, other) == m,
        m.without_edge(other, id) == m,
{
}

/// After a reset no identifier is valid, so a request to link changes
/// nothing, whatever was valid before.
pub proof fn lemma_no_identifier_valid_after_clear<T>(m: GraphModel<T>, u: i32, v: i32)
    ensures
        !m.cleared().valid(u),
        m.cleared().with_edge(u, v) == m.cleared(),
        m.cleared().edges == Set::<(i32, i32)>::empty(),
{
}

/// A reset leaves no vertex but keeps the counter: the next insertion
/// returns the identifier that it would have returned without the reset,
/// which is greater than that of every vertex that was present.
pub proof fn lemma_clear_keeps_counter<T>(m: GraphModel<T>, payload: T)
    requires
        m.wf(),
    ensures
        m.cleared().wf(),
        m.cleared().vertices() == Set::<i32>::empty(),
        m.cleared().next_id == m.next_id,
        forall|id: i32| #[trigger] m.vertices().contains(id) ==> id < m.cleared().next_id,
        m.cleared().with_vertex(payload).vertices() == set![m.next_id as i32],
{
}

/// Every identifier that a run of insertions returned is smaller than the
/// one that the next insertion returns, also when the store is reset in
/// between.
pub proof fn lemma_issued_ids_stay_behind<T>(m: GraphModel<T>, payloads: Seq<T>, i: int)
    requires
        0 <= i < payloads.len(),
    ensures
        m.issued_id(payloads, i) < m.with_vertices(payloads).next_id,
        m.issued_id(payloads, i) < m.with_vertices(payloads).cleared().next_id,
{
    lemma_insertions_count(m, payloads);
    lemma_issued_ids_count_up(m, payloads, i);
}

} // verus!
