//! Orders of the vertices of a graph.
//!
//! What it means for a sequence to list a set, for one element to come before
//! another, for a vertex to be reachable from another, and for an order to be
//! topological: outright, or but for cycles.

use vstd::prelude::*;
use crate::model::GraphModel;

verus! {

/// The vertex at position `i` of a walk, paired with the one after it.
pub open spec fn step(p: Seq<i32>, i: int) -> (i32, i32) {
    (p[i], p[i + 1])
}

/// Whether `order` lists each element of `s` exactly once, and nothing else.
pub open spec fn enumerates<A>(order: Seq<A>, s: Set<A>) -> bool {
    &&& order.no_duplicates()
    &&& forall|a: A| #[trigger] order.contains(a) <==> s.contains(a)
}

/// Whether some occurrence of `u` in `order` comes before some occurrence of `v`.
pub open spec fn precedes(order: Seq<i32>, u: i32, v: i32) -> bool {
    exists|i: int, j: int|
        0 <= i < j < order.len() && #[trigger] order[i] == u && #[trigger] order[j] == v
}

/// Putting a new element into an order keeps in order what was in order.
pub proof fn lemma_insert_keeps_precedence(order: Seq<i32>, k: int, x: i32)
    requires
        0 <= k <= order.len(),
    ensures
        forall|a: i32, b: i32| #[trigger]
            precedes(order, a, b) ==> precedes(order.insert(k, x), a, b),
{
    let longer = order.insert(k, x);
    assert forall|a: i32, b: i32| #[trigger] precedes(order, a, b) implies precedes(
        longer,
        a,
        b,
    ) by {
        let (i, j) = choose|i: int, j: int|
            0 <= i < j < order.len() && #[trigger] order[i] == a && #[trigger] order[j] == b;
        let i2 = if i < k { i } else { i + 1 };
        let j2 = if j < k { j } else { j + 1 };
        assert(longer[i2] == a && longer[j2] == b);
    }
}

/// Putting a new element in front of an order without repetitions keeps it
/// without repetitions, and adds that element and no other.
pub proof fn lemma_prepend(order: Seq<i32>, v: i32)
    requires
        order.no_duplicates(),
        !order.contains(v),
    ensures
        order.insert(0, v).no_duplicates(),
        forall|x: i32| #[trigger] order.insert(0, v).contains(x) <==> x == v || order.contains(x),
{
    let longer = order.insert(0, v);
    assert(longer[0] == v);
    assert forall|k: int| 0 <= k < order.len() implies #[trigger] longer[k + 1] == order[k] by {}
    assert forall|x: i32| #[trigger] longer.contains(x) <==> x == v || order.contains(x) by {
        if longer.contains(x) {
            let i = choose|i: int| 0 <= i < longer.len() && longer[i] == x;
            assert(i == 0 || longer[i] == order[i - 1]);
        }
        if order.contains(x) {
            let i = choose|i: int| 0 <= i < order.len() && order[i] == x;
            assert(longer[i + 1] == x);
        }
    }
}

/// In an order without repetitions, "comes before" is transitive.
proof fn lemma_precedes_transitive(order: Seq<i32>, a: i32, b: i32, c: i32)
    requires
        order.no_duplicates(),
        precedes(order, a, b),
        precedes(order, b, c),
    ensures
        precedes(order, a, c),
{
    let (i, j) = choose|i: int, j: int|
        0 <= i < j < order.len() && #[trigger] order[i] == a && #[trigger] order[j] == b;
    let (k, l) = choose|k: int, l: int|
        0 <= k < l < order.len() && #[trigger] order[k] == b && #[trigger] order[l] == c;
    assert(j == k);
    assert(order[i] == a && order[l] == c);
}

/// In a topological order without repetitions, the start of a walk along
/// edges comes before each later vertex of the walk.
proof fn lemma_walk_ascends<T>(m: GraphModel<T>, order: Seq<i32>, p: Seq<i32>, k: int)
    requires
        order.no_duplicates(),
        m.is_topological_order(order),
        m.is_path(p),
        0 < k < p.len(),
    ensures
        precedes(order, p[0], p[k]),
    decreases k,
{
    assert(m.edges.contains(step(p, k - 1)));
    if k > 1 {
        lemma_walk_ascends(m, order, p, k - 1);
        lemma_precedes_transitive(order, p[0], p[k - 1], p[k]);
    }
}

/// No order without repetitions is topological for a graph with a cycle:
/// some edge points backwards.
pub proof fn lemma_cycle_defeats_topological_order<T>(
    m: GraphModel<T>,
    order: Seq<i32>,
    u: i32,
    v: i32,
)
    requires
        order.no_duplicates(),
        m.has_edge(u, v),
        m.reaches(v, u),
    ensures
        !m.is_topological_order(order),
{
    if m.is_topological_order(order) {
        let p = choose|p: Seq<i32>| #[trigger] m.is_path(p) && p.first() == v && p.last() == u;
        assert(precedes(order, u, v));
        if p.len() > 1 {
            lemma_walk_ascends(m, order, p, p.len() - 1);
            lemma_precedes_transitive(order, u, v, u);
        }
        // so `u` comes before itself, which no order without repetitions allows
        let (i, j) = choose|i: int, j: int|
            0 <= i < j < order.len() && #[trigger] order[i] == u && #[trigger] order[j] == u;
        assert(order[i] == order[j]);
    }
}

impl<T> GraphModel<T> {
    /// Whether `p` is a walk along edges: it has at least one vertex, and each
    /// one is linked to the next.
    pub open spec fn is_path(self, p: Seq<i32>) -> bool {
        &&& p.len() >= 1
        &&& forall|i: int| 0 <= i < p.len() - 1 ==> self.edges.contains(#[trigger] step(p, i))
    }

    /// Whether `b` can be reached from `a` along zero or more edges.
    pub open spec fn reaches(self, a: i32, b: i32) -> bool {
        exists|p: Seq<i32>| #[trigger] self.is_path(p) && p.first() == a && p.last() == b
    }

    /// Whether no edge lies on a cycle (a self-loop is a cycle).
    pub open spec fn acyclic(self) -> bool {
        forall|u: i32, v: i32| #[trigger] self.edges.contains((u, v)) ==> !self.reaches(v, u)
    }

    /// Whether in `order` every edge points from an earlier to a later element.
    pub open spec fn is_topological_order(self, order: Seq<i32>) -> bool {
        forall|u: i32, v: i32| #[trigger]
            self.edges.contains((u, v)) ==> precedes(order, u, v)
    }

    /// Whether `p` is a walk along edges that all point forwards in `order`,
    /// from an earlier to a later element.
    pub open spec fn is_forward_path(self, order: Seq<i32>, p: Seq<i32>) -> bool {
        &&& p.len() >= 1
        &&& forall|i: int|
            0 <= i < p.len() - 1 ==> self.edges.contains(#[trigger] step(p, i)) && precedes(
                order,
                p[i],
                p[i + 1],
            )
    }

    /// Whether an edge from `u` to `v` closes a cycle whose other edges all
    /// point forwards in `order`: `u` can be reached from `v` along edges
    /// that point forwards.
    pub open spec fn closes_forward_cycle(self, order: Seq<i32>, u: i32, v: i32) -> bool {
        exists|p: Seq<i32>| #[trigger]
            self.is_forward_path(order, p) && p.first() == v && p.last() == u
    }

    /// Whether `order` is topological but for cycles: every edge points
    /// forwards in it, from an earlier to a later element, or closes a cycle
    /// whose other edges all point forwards.
    pub open spec fn is_topological_order_up_to_cycles(self, order: Seq<i32>) -> bool {
        forall|u: i32, v: i32| #[trigger]
            self.edges.contains((u, v)) ==> precedes(order, u, v) || self.closes_forward_cycle(
                order,
                u,
                v,
            )
    }

    /// Whether `order` is what a cycle-tolerant topological sort may return:
    /// it lists every vertex exactly once, and is topological but for cycles.
    pub open spec fn is_cycle_tolerant_order(self, order: Seq<i32>) -> bool {
        &&& enumerates(order, self.vertices())
        &&& self.is_topological_order_up_to_cycles(order)
    }

    /// An edge that closes a cycle of forward edges lies on a cycle.
    pub proof fn lemma_forward_cycle_is_cycle(self, order: Seq<i32>, u: i32, v: i32)
        requires
            self.closes_forward_cycle(order, u, v),
        ensures
            self.reaches(v, u),
    {
        let p = choose|p: Seq<i32>| #[trigger]
            self.is_forward_path(order, p) && p.first() == v && p.last() == u;
        assert forall|i: int| 0 <= i < p.len() - 1 implies self.edges.contains(
            #[trigger] step(p, i),
        ) by {}
        assert(self.is_path(p));
    }

    /// On a graph without cycles, an order that is topological but for cycles
    /// is topological.
    pub proof fn lemma_acyclic_order_is_topological(self, order: Seq<i32>)
        requires
            self.acyclic(),
            self.is_topological_order_up_to_cycles(order),
        ensures
            self.is_topological_order(order),
    {
        assert forall|u: i32, v: i32| #[trigger] self.edges.contains((u, v)) implies precedes(
            order,
            u,
            v,
        ) by {
            if self.closes_forward_cycle(order, u, v) {
                self.lemma_forward_cycle_is_cycle(order, u, v);
            }
        }
    }

    /// Putting a new element into an order keeps every walk along forward
    /// edges a walk along forward edges.
    pub proof fn lemma_insert_keeps_forward_cycles(self, order: Seq<i32>, k: int, x: i32)
        requires
            0 <= k <= order.len(),
        ensures
            forall|u: i32, v: i32| #[trigger]
                self.closes_forward_cycle(order, u, v) ==> self.closes_forward_cycle(
                    order.insert(k, x),
                    u,
                    v,
                ),
    {
        lemma_insert_keeps_precedence(order, k, x);
        assert forall|u: i32, v: i32| #[trigger]
            self.closes_forward_cycle(order, u, v) implies self.closes_forward_cycle(
            order.insert(k, x),
            u,
            v,
        ) by {
            let p = choose|p: Seq<i32>| #[trigger]
                self.is_forward_path(order, p) && p.first() == v && p.last() == u;
            assert forall|i: int| 0 <= i < p.len() - 1 implies self.edges.contains(
                #[trigger] step(p, i),
            ) && precedes(order.insert(k, x), p[i], p[i + 1]) by {
                assert(self.edges.contains(step(p, i)));
            }
            assert(self.is_forward_path(order.insert(k, x), p));
        }
    }
}

} // verus!
