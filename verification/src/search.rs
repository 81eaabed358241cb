//! The depth-first order, as a mathematical function.
//!
//! A depth-first search is determined by the order in which it takes the
//! vertices and, for each vertex, the order in which it takes the targets of
//! its edges. Given both, [`depth_first_order`] is the order that the search
//! builds: each vertex is put in front of the order once everything that can
//! be reached from it has been ordered, and a vertex that is met again while
//! it is still being explored is passed over.

use vstd::prelude::*;
use crate::model::GraphModel;
use crate::order::enumerates;

verus! {

/// The number of vertices of `universe` that are not in progress: what
/// shrinks as the search goes deeper.
pub open spec fn idle_count(universe: Set<i32>, in_progress: Set<i32>) -> nat {
    universe.difference(in_progress).len()
}

/// Taking one more vertex into progress leaves fewer idle.
pub proof fn lemma_idle_count_decreases(universe: Set<i32>, in_progress: Set<i32>, v: i32)
    requires
        universe.finite(),
        universe.contains(v),
        !in_progress.contains(v),
    ensures
        idle_count(universe, in_progress.insert(v)) < idle_count(universe, in_progress),
{
    assert(universe.difference(in_progress.insert(v)) == universe.difference(in_progress).remove(
        v,
    ));
}

/// The order after `v` is explored, starting from `order`.
///
/// If `v` is ordered already or is in progress, nothing changes. Otherwise
/// `v` is in progress while the targets of its edges are explored, in the
/// order `neighbours[v]`, and is then put in front of what that gave.
/// The search stays within `universe`, which is finite.
pub open spec fn explore(
    neighbours: Map<i32, Seq<i32>>,
    universe: Set<i32>,
    in_progress: Set<i32>,
    order: Seq<i32>,
    v: i32,
) -> Seq<i32>
    decreases idle_count(universe, in_progress), 0nat, 0nat,
{
    if order.contains(v) || in_progress.contains(v) {
        order
    } else if !universe.finite() || !universe.contains(v) {
        order
    } else {
        proof {
            lemma_idle_count_decreases(universe, in_progress, v);
        }
        seq![v] + explore_list(
            neighbours,
            universe,
            in_progress.insert(v),
            order,
            neighbours[v],
            neighbours[v].len(),
        )
    }
}

/// The order after the first `n` vertices of `list` are explored one after
/// the other, starting from `order`.
pub open spec fn explore_list(
    neighbours: Map<i32, Seq<i32>>,
    universe: Set<i32>,
    in_progress: Set<i32>,
    order: Seq<i32>,
    list: Seq<i32>,
    n: nat,
) -> Seq<i32>
    decreases idle_count(universe, in_progress), 1nat, n,
{
    if n == 0 || n > list.len() {
        order
    } else {
        explore(
            neighbours,
            universe,
            in_progress,
            explore_list(neighbours, universe, in_progress, order, list, (n - 1) as nat),
            list[n - 1],
        )
    }
}

/// The order that a depth-first search builds when it takes the vertices in
/// the order `vertices` and the targets of the edges of each vertex `v` in
/// the order `neighbours[v]`.
pub open spec fn depth_first_order(vertices: Seq<i32>, neighbours: Map<i32, Seq<i32>>) -> Seq<i32> {
    explore_list(
        neighbours,
        vertices.to_set(),
        Set::empty(),
        Seq::empty(),
        vertices,
        vertices.len(),
    )
}

/// Exploring a vertex drops nothing from the order.
pub proof fn lemma_explore_keeps(
    neighbours: Map<i32, Seq<i32>>,
    universe: Set<i32>,
    in_progress: Set<i32>,
    order: Seq<i32>,
    v: i32,
)
    ensures
        forall|x: i32|
            order.contains(x) ==> #[trigger] explore(
                neighbours,
                universe,
                in_progress,
                order,
                v,
            ).contains(x),
    decreases idle_count(universe, in_progress), 0nat, 0nat,
{
    let after = explore(neighbours, universe, in_progress, order, v);
    if !(order.contains(v) || in_progress.contains(v)) && universe.finite() && universe.contains(
        v,
    ) {
        lemma_idle_count_decreases(universe, in_progress, v);
        let inner = explore_list(
            neighbours,
            universe,
            in_progress.insert(v),
            order,
            neighbours[v],
            neighbours[v].len(),
        );
        lemma_explore_list_keeps(
            neighbours,
            universe,
            in_progress.insert(v),
            order,
            neighbours[v],
            neighbours[v].len(),
        );
        assert forall|x: i32| order.contains(x) implies after.contains(x) by {
            assert(inner.contains(x));
            let i = choose|i: int| 0 <= i < inner.len() && inner[i] == x;
            assert(after[i + 1] == x);
        }
    }
}

/// Exploring a list of vertices drops nothing from the order.
pub proof fn lemma_explore_list_keeps(
    neighbours: Map<i32, Seq<i32>>,
    universe: Set<i32>,
    in_progress: Set<i32>,
    order: Seq<i32>,
    list: Seq<i32>,
    n: nat,
)
    ensures
        forall|x: i32|
            order.contains(x) ==> #[trigger] explore_list(
                neighbours,
                universe,
                in_progress,
                order,
                list,
                n,
            ).contains(x),
    decreases idle_count(universe, in_progress), 1nat, n,
{
    if !(n == 0 || n > list.len()) {
        let inner = explore_list(neighbours, universe, in_progress, order, list, (n - 1) as nat);
        let after = explore(neighbours, universe, in_progress, inner, list[n - 1]);
        lemma_explore_list_keeps(neighbours, universe, in_progress, order, list, (n - 1) as nat);
        lemma_explore_keeps(neighbours, universe, in_progress, inner, list[n - 1]);
        assert forall|x: i32| order.contains(x) implies after.contains(x) by {
            assert(inner.contains(x));
        }
    }
}

/// Whether two enumerations of neighbours agree on every vertex that is in
/// `after` but not in `before`.
pub open spec fn agree_on_new(
    first: Map<i32, Seq<i32>>,
    second: Map<i32, Seq<i32>>,
    before: Seq<i32>,
    after: Seq<i32>,
) -> bool {
    forall|x: i32| #[trigger] after.contains(x) && !before.contains(x) ==> first[x] == second[x]
}

/// What exploring a vertex gives depends on the neighbours of those
/// vertices only that it adds to the order.
pub proof fn lemma_explore_frame(
    first: Map<i32, Seq<i32>>,
    second: Map<i32, Seq<i32>>,
    universe: Set<i32>,
    in_progress: Set<i32>,
    order: Seq<i32>,
    v: i32,
)
    requires
        agree_on_new(first, second, order, explore(first, universe, in_progress, order, v)),
    ensures
        explore(second, universe, in_progress, order, v) == explore(
            first,
            universe,
            in_progress,
            order,
            v,
        ),
    decreases idle_count(universe, in_progress), 0nat, 0nat,
{
    let after = explore(first, universe, in_progress, order, v);
    if !(order.contains(v) || in_progress.contains(v)) && universe.finite() && universe.contains(
        v,
    ) {
        lemma_idle_count_decreases(universe, in_progress, v);
        let deeper = in_progress.insert(v);
        let inner = explore_list(first, universe, deeper, order, first[v], first[v].len());
        assert(after[0] == v);
        assert(after.contains(v));
        assert forall|x: i32| #[trigger] inner.contains(x) && !order.contains(x) implies first[x]
            == second[x] by {
            let i = choose|i: int| 0 <= i < inner.len() && inner[i] == x;
            assert(after[i + 1] == x);
            assert(after.contains(x));
        }
        lemma_explore_list_frame(first, second, universe, deeper, order, first[v], first[v].len());
    }
}

/// What exploring a list of vertices gives depends on the neighbours of
/// those vertices only that it adds to the order.
pub proof fn lemma_explore_list_frame(
    first: Map<i32, Seq<i32>>,
    second: Map<i32, Seq<i32>>,
    universe: Set<i32>,
    in_progress: Set<i32>,
    order: Seq<i32>,
    list: Seq<i32>,
    n: nat,
)
    requires
        agree_on_new(
            first,
            second,
            order,
            explore_list(first, universe, in_progress, order, list, n),
        ),
    ensures
        explore_list(second, universe, in_progress, order, list, n) == explore_list(
            first,
            universe,
            in_progress,
            order,
            list,
            n,
        ),
    decreases idle_count(universe, in_progress), 1nat, n,
{
    if !(n == 0 || n > list.len()) {
        let inner = explore_list(first, universe, in_progress, order, list, (n - 1) as nat);
        let after = explore(first, universe, in_progress, inner, list[n - 1]);
        lemma_explore_list_keeps(first, universe, in_progress, order, list, (n - 1) as nat);
        lemma_explore_keeps(first, universe, in_progress, inner, list[n - 1]);
        assert forall|x: i32| #[trigger] inner.contains(x) && !order.contains(x) implies first[x]
            == second[x] by {
            assert(after.contains(x));
        }
        lemma_explore_list_frame(
            first,
            second,
            universe,
            in_progress,
            order,
            list,
            (n - 1) as nat,
        );
        assert forall|x: i32| #[trigger] after.contains(x) && !inner.contains(x) implies first[x]
            == second[x] by {
            if order.contains(x) {
                assert(inner.contains(x));
            }
        }
        lemma_explore_frame(first, second, universe, in_progress, inner, list[n - 1]);
    }
}

impl<T> GraphModel<T> {
    /// Whether `vertices` and `neighbours` enumerate the graph: the first
    /// lists every vertex once, and the second gives for every vertex a list
    /// of the targets of its edges, each once.
    pub open spec fn enumerated_by(
        self,
        vertices: Seq<i32>,
        neighbours: Map<i32, Seq<i32>>,
    ) -> bool {
        &&& enumerates(vertices, self.vertices())
        &&& forall|v: i32| #[trigger]
            self.payloads.contains_key(v) ==> neighbours.contains_key(v) && enumerates(
                neighbours[v],
                self.successors(v),
            )
    }

    /// Whether `order` is the depth-first order of the graph for some way of
    /// enumerating its vertices and the targets of their edges.
    pub open spec fn is_depth_first_order(self, order: Seq<i32>) -> bool {
        exists|vertices: Seq<i32>, neighbours: Map<i32, Seq<i32>>| #[trigger]
            self.enumerated_by(vertices, neighbours) && order == depth_first_order(
                vertices,
                neighbours,
            )
    }
}

} // verus!
