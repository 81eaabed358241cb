//! Visitors: algorithms that run over a graph store through its interface.
//!
//! [`IGraphVisitor`] is the capability: given a store, produce a result.
//! [`TopoSortVisitor`] is the one visitor of this library. It orders the
//! vertices by a depth-first search, and does not fail on cycles: an edge may
//! point backwards in its result, but only if it closes a cycle whose other
//! edges all point forwards.

use vstd::prelude::*;
use std::collections::HashSet;
use crate::comparable::Comparable;
use crate::graph::IGraph;
use crate::model::GraphModel;
use crate::order::enumerates;
use crate::order::lemma_cycle_defeats_topological_order;
use crate::order::lemma_insert_keeps_precedence;
use crate::order::lemma_prepend;
use crate::order::precedes;
use crate::order::step;
use crate::search::depth_first_order;
use crate::search::explore;
use crate::search::explore_list;
use crate::search::idle_count;
use crate::search::lemma_explore_list_frame;
use crate::search::lemma_idle_count_decreases;

verus! {

/// An algorithm over a graph store with payloads of type `T` that produces an `R`.
pub trait IGraphVisitor<T: Comparable, R> {
    /// What a visit promises: whether the visitor, in the state `self`, may
    /// turn a store with the model `before` into one with the model `after`
    /// and return `result`.
    spec fn yields(&self, before: GraphModel<T>, after: GraphModel<T>, result: R) -> bool;

    /// Runs the algorithm over `graph`.
    fn visit<G: IGraph<T>>(&mut self, graph: &mut G) -> (result: R)
        requires
            old(graph).wf(),
        ensures
            final(graph).wf(),
            old(self).yields(old(graph)@, final(graph)@, result),
    ;
}

/// A topological sort by depth-first search that tolerates cycles.
///
/// The state is that of one traversal: the vertices whose descendants have
/// all been ordered, the vertices on the current search path, and the order
/// built so far. Every visit starts by resetting it.
pub struct TopoSortVisitor {
    perm_visited: HashSet<i32>,
    temp_visited: HashSet<i32>,
    result: Vec<i32>,
}

/// Whether the record `later` of the neighbours taken holds everything that
/// the record `earlier` holds.
spec fn extends(earlier: Map<i32, Seq<i32>>, later: Map<i32, Seq<i32>>) -> bool {
    forall|x: i32| #[trigger]
        earlier.contains_key(x) ==> later.contains_key(x) && later[x] == earlier[x]
}

/// A search path, followed by anything, makes the walk from any of its
/// vertices to its last a walk along forward edges.
proof fn lemma_path_tail_is_forward<T>(m: GraphModel<T>, path: Seq<i32>, rest: Seq<i32>, i: int)
    requires
        0 <= i < path.len(),
        forall|k: int| 0 <= k < path.len() - 1 ==> m.edges.contains(#[trigger] step(path, k)),
    ensures
        m.closes_forward_cycle(path + rest, path.last(), path[i]),
{
    let order = path + rest;
    let p = path.subrange(i, path.len() as int);
    assert forall|k: int| 0 <= k < p.len() - 1 implies m.edges.contains(#[trigger] step(p, k))
        && precedes(order, p[k], p[k + 1]) by {
        assert(step(p, k) == step(path, i + k));
        assert(order[i + k] == p[k] && order[i + k + 1] == p[k + 1]);
    }
    assert(m.is_forward_path(order, p) && p.first() == path[i] && p.last() == path.last());
}

impl TopoSortVisitor {
    /// The vertices whose descendants have all been explored and ordered.
    pub closed spec fn permanently_visited(&self) -> Set<i32> {
        self.perm_visited@
    }

    /// The vertices on the current search path.
    pub closed spec fn in_progress(&self) -> Set<i32> {
        self.temp_visited@
    }

    /// The order built so far.
    pub closed spec fn ordering(&self) -> Seq<i32> {
        self.result@
    }

    /// The vertices met so far, as they will stand in the final order
    /// relative to each other: those on the search path `path`, from its
    /// start, before those that are ordered already.
    spec fn pending(&self, path: Seq<i32>) -> Seq<i32> {
        path + self.result@
    }

    /// The invariant of a traversal of a graph with the model `m`, while the
    /// search is on the path `path` and has taken the neighbours of the
    /// vertices that it met as `taken` records.
    spec fn traversal_inv<T>(
        &self,
        m: GraphModel<T>,
        path: Seq<i32>,
        taken: Map<i32, Seq<i32>>,
    ) -> bool {
        &&& enumerates(self.result@, self.perm_visited@)
        &&& forall|x: i32| #[trigger]
            taken.contains_key(x) <==> self.perm_visited@.contains(x)
                || self.temp_visited@.contains(x)
        &&& forall|x: i32| #[trigger]
            taken.contains_key(x) ==> enumerates(taken[x], m.successors(x))
        &&& enumerates(path, self.temp_visited@)
        &&& forall|x: i32| #[trigger] self.perm_visited@.contains(x) ==> m.vertices().contains(x)
        &&& forall|x: i32| #[trigger]
            self.temp_visited@.contains(x) ==> m.vertices().contains(x)
                && !self.perm_visited@.contains(x)
        &&& forall|k: int| 0 <= k < path.len() - 1 ==> m.edges.contains(#[trigger] step(path, k))
        &&& forall|u: i32, w: i32|
            self.perm_visited@.contains(u) && #[trigger] m.edges.contains((u, w)) ==> precedes(
                self.pending(path),
                u,
                w,
            ) || m.closes_forward_cycle(self.pending(path), u, w)
    }

    /// Creates a visitor that has visited nothing.
    pub fn new() -> (visitor: TopoSortVisitor)
        ensures
            visitor.permanently_visited() == Set::<i32>::empty(),
            visitor.in_progress() == Set::<i32>::empty(),
            visitor.ordering() == Seq::<i32>::empty(),
    {
        return TopoSortVisitor {
            perm_visited: HashSet::<i32>::new(),
            temp_visited: HashSet::<i32>::new(),
            result: Vec::<i32>::new(),
        };
    }

    /// Explores `v`, which the search reached along `path`: unless `v` is
    /// ordered already or lies on the path itself, orders first what can be
    /// reached from it and then `v`, in front of all that.
    fn topo<T: Comparable, G: IGraph<T>>(
        &mut self,
        graph: &mut G,
        v: i32,
        Ghost(path): Ghost<Seq<i32>>,
        taken: &mut Ghost<Map<i32, Seq<i32>>>,
    )
        requires
            old(graph).wf(),
            old(self).traversal_inv(old(graph)@, path, old(taken)@),
            old(graph)@.vertices().contains(v),
            path.len() > 0 ==> old(graph)@.has_edge(path.last(), v),
        ensures
            final(graph).wf(),
            final(graph)@ == old(graph)@,
            final(self).traversal_inv(old(graph)@, path, final(taken)@),
            extends(old(taken)@, final(taken)@),
            final(self).temp_visited@ == old(self).temp_visited@,
            old(self).perm_visited@.subset_of(final(self).perm_visited@),
            final(self).perm_visited@.contains(v) || old(self).temp_visited@.contains(v),
            final(self).result@ == explore(
                final(taken)@,
                old(graph)@.vertices(),
                old(self).temp_visited@,
                old(self).result@,
                v,
            ),
        decreases idle_count(old(graph)@.vertices(), old(self).temp_visited@),
    {
        let ghost m = graph@;
        let ghost temp0 = self.temp_visited@;
        let ghost perm0 = self.perm_visited@;
        let ghost order0 = self.result@;
        let ghost taken0 = taken@;
        let ghost deeper = path.push(v);
        proof {
            graph.lemma_wf_model();
        }
        if self.perm_visited.contains(&v) {
            // ok
            return;
        }
        if !self.temp_visited.insert(v) {
            // no good, cycle detected!
            assert(self.temp_visited@ == temp0);
            return;
        }
        let neighbours = graph.get_out_neighbours(v);
        let ghost targets = neighbours@;
        proof {
            taken@ = taken0.insert(v, targets);
        }
        let ghost taken1 = taken@;
        proof {
            lemma_idle_count_decreases(m.vertices(), temp0, v);
            let before = path + self.result@;
            assert(deeper + self.result@ == before.insert(path.len() as int, v));
            lemma_insert_keeps_precedence(before, path.len() as int, v);
            m.lemma_insert_keeps_forward_cycles(before, path.len() as int, v);
            assert(!path.contains(v));
            assert(deeper.no_duplicates());
            assert forall|x: i32| #[trigger] deeper.contains(x) <==> temp0.insert(v).contains(
                x,
            ) by {
                if deeper.contains(x) {
                    let i = choose|i: int| 0 <= i < deeper.len() && deeper[i] == x;
                    if i < path.len() {
                        assert(path.contains(deeper[i]));
                    }
                }
                if path.contains(x) {
                    let i = choose|i: int| 0 <= i < path.len() && path[i] == x;
                    assert(deeper[i] == x);
                }
                assert(deeper[path.len() as int] == v);
            }
            assert forall|k: int| 0 <= k < deeper.len() - 1 implies m.edges.contains(
                #[trigger] step(deeper, k),
            ) by {
                if k < path.len() - 1 {
                    assert(step(deeper, k) == step(path, k));
                } else {
                    assert(step(deeper, k) == (path.last(), v));
                }
            }
            assert(self.traversal_inv(m, deeper, taken1));
        }
        for neighbor in walk: neighbours.iter()
            invariant
                walk.seq().unref() == targets,
                enumerates(targets, m.successors(v)),
                graph.wf(),
                graph@ == m,
                m.wf(),
                m.vertices().contains(v),
                deeper == path.push(v),
                self.traversal_inv(m, deeper, taken@),
                extends(taken1, taken@),
                taken1 == taken0.insert(v, targets),
                self.temp_visited@ == temp0.insert(v),
                perm0.subset_of(self.perm_visited@),
                self.result@ == explore_list(
                    taken@,
                    m.vertices(),
                    temp0.insert(v),
                    order0,
                    targets,
                    walk.index() as nat,
                ),
                enumerates(order0, perm0),
                idle_count(m.vertices(), temp0.insert(v)) < idle_count(m.vertices(), temp0),
                idle_count(m.vertices(), temp0) == idle_count(
                    old(graph)@.vertices(),
                    old(self).temp_visited@,
                ),
                forall|i: int|
                    0 <= i < walk.index() ==> self.perm_visited@.contains(#[trigger] targets[i])
                        || temp0.insert(v).contains(targets[i]),
        {
            let ghost order_here = self.result@;
            let ghost taken_here = taken@;
            proof {
                assert(targets[walk.index()] == *neighbor);
                assert(targets.contains(*neighbor));
                assert(m.edges.contains((v, *neighbor)));
            }
            self.topo(graph, *neighbor, Ghost(deeper), taken);
            proof {
                // what was ordered before this step was taken from records
                // that the step has kept
                assert forall|x: i32| #[trigger]
                    order_here.contains(x) && !order0.contains(x) implies taken_here[x]
                    == taken@[x] by {
                    assert(taken_here.contains_key(x));
                }
                lemma_explore_list_frame(
                    taken_here,
                    taken@,
                    m.vertices(),
                    temp0.insert(v),
                    order0,
                    targets,
                    walk.index() as nat,
                );
            }
        }
        let ghost before = *self;
        proof {
            assert(self.temp_visited@.contains(v));
            lemma_prepend(self.result@, v);
        }
        self.temp_visited.remove(&v);
        self.perm_visited.insert(v);
        self.result.insert(0, v);
        proof {
            let order = self.pending(path);
            assert(self.temp_visited@ == temp0);
            assert(order == before.pending(deeper));
            assert(taken1.contains_key(v));
            assert(taken@[v] == targets);
            assert forall|x: i32| #[trigger] taken0.contains_key(x) implies taken@.contains_key(x)
                && taken@[x] == taken0[x] by {
                assert(taken1.contains_key(x));
            }
            assert(self.result@ == seq![v] + before.result@);
            assert forall|u: i32, w: i32|
                self.perm_visited@.contains(u) && #[trigger] m.edges.contains(
                    (u, w),
                ) implies precedes(order, u, w) || m.closes_forward_cycle(order, u, w) by {
                if u == v {
                    assert(m.successors(v).contains(w));
                    assert(targets.contains(w));
                    let i = choose|i: int| 0 <= i < targets.len() && targets[i] == w;
                    assert(before.perm_visited@.contains(targets[i]) || temp0.insert(v).contains(
                        targets[i],
                    ));
                    if before.perm_visited@.contains(w) {
                        assert(before.result@.contains(w));
                        let j = choose|j: int| 0 <= j < before.result@.len() && before.result@[j] == w;
                        assert(order[path.len() as int] == v);
                        assert(order[path.len() + 1 + j] == w);
                    } else {
                        assert(deeper.contains(w));
                        let i = choose|i: int| 0 <= i < deeper.len() && deeper[i] == w;
                        lemma_path_tail_is_forward(m, deeper, before.result@, i);
                    }
                }
            }
        }
        return;
    }
}

impl<T: Comparable> IGraphVisitor<T, Vec<i32>> for TopoSortVisitor {
    /// A visit leaves the store as it is and returns a cycle-tolerant
    /// topological order of its vertices.
    open spec fn yields(
        &self,
        before: GraphModel<T>,
        after: GraphModel<T>,
        result: Vec<i32>,
    ) -> bool {
        &&& after == before
        &&& before.is_depth_first_order(result@)
        &&& before.is_cycle_tolerant_order(result@)
    }

    /// Orders the vertices of `graph` by a depth-first search.
    ///
    /// The result is the depth-first order for some enumeration of the
    /// vertices and of the targets of their edges. It lists every vertex
    /// exactly once. Every edge points in it from an earlier to a later
    /// vertex, or closes a cycle whose other edges all do: so the result is a
    /// topological order exactly when the graph has no cycle. The store is
    /// left as it was, and the visitor holds the result as its order.
    fn visit<G: IGraph<T>>(&mut self, graph: &mut G) -> (result: Vec<i32>)
        ensures
            final(graph)@ == old(graph)@,
            old(graph)@.is_depth_first_order(result@),
            enumerates(result@, old(graph)@.vertices()),
            old(graph)@.is_topological_order_up_to_cycles(result@),
            old(graph)@.acyclic() <==> old(graph)@.is_topological_order(result@),
            final(self).ordering() == result@,
            final(self).permanently_visited() == old(graph)@.vertices(),
            final(self).in_progress() == Set::<i32>::empty(),
    {
        let ghost m = graph@;
        self.perm_visited.clear();
        self.temp_visited.clear();
        self.result.clear();
        let vertices = graph.vertices();
        let ghost ids = vertices@;
        let ghost nowhere = Seq::<i32>::empty();
        let ghost nothing = Set::<i32>::empty();
        let mut taken: Ghost<Map<i32, Seq<i32>>> = Ghost(Map::empty());
        for vertex in walk: vertices
            invariant
                walk.seq() == ids,
                enumerates(ids, m.vertices()),
                graph.wf(),
                graph@ == m,
                nowhere == Seq::<i32>::empty(),
                nothing == Set::<i32>::empty(),
                self.traversal_inv(m, nowhere, taken@),
                self.temp_visited@ == nothing,
                self.result@ == explore_list(
                    taken@,
                    m.vertices(),
                    nothing,
                    nowhere,
                    ids,
                    walk.index() as nat,
                ),
                forall|i: int|
                    0 <= i < walk.index() ==> self.perm_visited@.contains(#[trigger] ids[i]),
        {
            let ghost order_here = self.result@;
            let ghost taken_here = taken@;
            proof {
                assert(ids[walk.index()] == vertex);
                assert(ids.contains(vertex));
            }
            self.topo(graph, vertex, Ghost(nowhere), &mut taken);
            proof {
                assert forall|x: i32| #[trigger]
                    order_here.contains(x) && !nowhere.contains(x) implies taken_here[x]
                    == taken@[x] by {
                    assert(taken_here.contains_key(x));
                }
                lemma_explore_list_frame(
                    taken_here,
                    taken@,
                    m.vertices(),
                    nothing,
                    nowhere,
                    ids,
                    walk.index() as nat,
                );
            }
        }
        proof {
            assert forall|x: i32| m.vertices().contains(x) implies self.perm_visited@.contains(
                x,
            ) by {
                assert(ids.contains(x));
                let i = choose|i: int| 0 <= i < ids.len() && ids[i] == x;
                assert(self.perm_visited@.contains(ids[i]));
            }
            assert(self.perm_visited@ == m.vertices());
            assert(self.pending(nowhere) == self.result@);
            graph.lemma_wf_model();
            assert(m.is_topological_order_up_to_cycles(self.result@));
            if m.acyclic() {
                m.lemma_acyclic_order_is_topological(self.result@);
            } else {
                let (u, w) = choose|u: i32, w: i32| #[trigger]
                    m.edges.contains((u, w)) && m.reaches(w, u);
                lemma_cycle_defeats_topological_order(m, self.result@, u, w);
            }
            assert(ids.to_set() == m.vertices());
            assert(m.enumerated_by(ids, taken@) && self.result@ == depth_first_order(ids, taken@));
        }
        let mut result = Vec::<i32>::new();
        for v in walk: &self.result
            invariant
                result@ == self.result@.take(walk.index()),
        {
            result.push(*v);
        }
        assert(result@ == self.result@);
        return result;
    }
}

} // verus!
