use digraph::graph::{Graph, IGraph};
use digraph::visitor::{IGraphVisitor, TopoSortVisitor};

fn store_with(n: i32, edges: &[(i32, i32)]) -> Graph<i32> {
    let mut g = Graph::<i32>::new();
    for p in 0..n {
        assert_eq!(g.add(p + 1), p);
    }
    for (u, v) in edges {
        assert!(g.link(*u, *v));
    }
    g
}

fn position(order: &[i32], v: i32) -> usize {
    order.iter().position(|x| *x == v).unwrap()
}

fn lists_each_vertex_once(order: &[i32], n: i32) -> bool {
    let mut seen = order.to_vec();
    seen.sort();
    seen == (0..n).collect::<Vec<i32>>()
}

#[test]
fn visit_orders_the_three_vertex_chain() {
    let mut g = store_with(3, &[(0, 1), (0, 2), (1, 2)]);
    let mut visitor = TopoSortVisitor::new();
    assert_eq!(visitor.visit(&mut g), vec![0, 1, 2]);
}

#[test]
fn accept_hands_the_store_to_the_visitor() {
    let mut g = store_with(3, &[(0, 1), (0, 2), (1, 2)]);
    let mut visitor = TopoSortVisitor::new();
    assert_eq!(g.accept(&mut visitor), vec![0, 1, 2]);
    assert_eq!(g.accept(&mut visitor), vec![0, 1, 2]);
}

#[test]
fn visit_orders_a_reversed_chain() {
    let mut g = store_with(4, &[(3, 2), (2, 1), (1, 0)]);
    let mut visitor = TopoSortVisitor::new();
    assert_eq!(visitor.visit(&mut g), vec![3, 2, 1, 0]);
}

#[test]
fn visit_of_an_acyclic_graph_is_topological() {
    let edges = [(0, 3), (0, 4), (1, 3), (2, 4), (3, 5), (4, 5), (5, 6), (1, 6), (7, 0), (7, 2)];
    let mut g = store_with(9, &edges);
    let mut visitor = TopoSortVisitor::new();
    let order = visitor.visit(&mut g);
    assert!(lists_each_vertex_once(&order, 9));
    for (u, v) in edges {
        assert!(position(&order, u) < position(&order, v));
    }
}

#[test]
fn visit_of_a_graph_without_edges_lists_every_vertex() {
    let mut g = store_with(5, &[]);
    let mut visitor = TopoSortVisitor::new();
    let order = visitor.visit(&mut g);
    assert!(lists_each_vertex_once(&order, 5));
}

#[test]
fn visit_of_an_empty_store_is_empty() {
    let mut g = Graph::<i32>::new();
    let mut visitor = TopoSortVisitor::new();
    assert!(visitor.visit(&mut g).is_empty());
}

#[test]
fn visit_of_a_cycle_terminates_and_lists_every_vertex_once() {
    let mut g = store_with(3, &[(0, 1), (1, 2), (2, 0)]);
    let mut visitor = TopoSortVisitor::new();
    let order = visitor.visit(&mut g);
    assert!(lists_each_vertex_once(&order, 3));
    // the order follows the cycle from wherever the search entered it, so
    // exactly one of the three edges points backwards
    let backwards = [(0, 1), (1, 2), (2, 0)]
        .iter()
        .filter(|(u, v)| position(&order, *u) > position(&order, *v))
        .count();
    assert_eq!(backwards, 1);
}

#[test]
fn visit_of_a_self_loop_terminates() {
    let mut g = store_with(2, &[(0, 0), (0, 1)]);
    let mut visitor = TopoSortVisitor::new();
    assert_eq!(visitor.visit(&mut g), vec![0, 1]);
}

#[test]
fn visit_keeps_edges_off_the_cycle_in_order() {
    // 0 -> 1 -> 2 -> 1 is a cycle between 1 and 2; 0 -> 1 and 2 -> 3 lie on none
    let mut g = store_with(4, &[(0, 1), (1, 2), (2, 1), (2, 3)]);
    let mut visitor = TopoSortVisitor::new();
    let order = visitor.visit(&mut g);
    assert!(lists_each_vertex_once(&order, 4));
    assert!(position(&order, 0) < position(&order, 1));
    assert!(position(&order, 2) < position(&order, 3));
}

#[test]
fn visit_leaves_the_store_as_it_is() {
    let mut g = store_with(3, &[(0, 1), (1, 2)]);
    let mut visitor = TopoSortVisitor::new();
    visitor.visit(&mut g);
    let mut vertices = g.vertices();
    vertices.sort();
    assert_eq!(vertices, vec![0, 1, 2]);
    assert_eq!(g.get_out_neighbours(0), vec![1]);
    assert_eq!(g.get_out_neighbours(1), vec![2]);
    assert!(g.get_out_neighbours(2).is_empty());
    assert_eq!(g.get(1), Some(&2));
    assert_eq!(g.add(7), 3);
}

#[test]
fn a_visitor_can_be_used_again() {
    let mut visitor = TopoSortVisitor::new();
    let mut first = store_with(3, &[(2, 1), (1, 0)]);
    assert_eq!(visitor.visit(&mut first), vec![2, 1, 0]);
    let mut second = store_with(2, &[(0, 1)]);
    assert_eq!(visitor.visit(&mut second), vec![0, 1]);
    assert_eq!(visitor.visit(&mut first), vec![2, 1, 0]);
}

#[test]
fn visit_follows_the_edges_that_are_there_now() {
    let mut g = store_with(3, &[(0, 1), (1, 2)]);
    let mut visitor = TopoSortVisitor::new();
    assert_eq!(visitor.visit(&mut g), vec![0, 1, 2]);
    assert!(g.unlink(0, 1));
    assert!(g.unlink(1, 2));
    assert!(g.link(2, 1));
    assert!(g.link(1, 0));
    assert_eq!(visitor.visit(&mut g), vec![2, 1, 0]);
}

#[test]
fn visit_after_a_clear_sees_only_new_vertices() {
    let mut g = store_with(3, &[(0, 1), (1, 2)]);
    g.clear();
    let mut visitor = TopoSortVisitor::new();
    assert!(visitor.visit(&mut g).is_empty());
    assert_eq!(g.add(1), 3);
    assert_eq!(g.add(2), 4);
    assert!(g.link(4, 3));
    assert_eq!(visitor.visit(&mut g), vec![4, 3]);
}

/// The depth-first order for given enumerations, written out plainly.
fn explore(
    neighbours: &dyn Fn(i32) -> Vec<i32>,
    in_progress: &mut Vec<i32>,
    order: &mut Vec<i32>,
    v: i32,
) {
    if order.contains(&v) || in_progress.contains(&v) {
        return;
    }
    in_progress.push(v);
    for n in neighbours(v) {
        explore(neighbours, in_progress, order, n);
    }
    in_progress.pop();
    order.insert(0, v);
}

#[test]
fn visit_is_the_depth_first_order_of_the_enumeration() {
    let edge_lists: [&[(i32, i32)]; 5] = [
        &[],
        &[(0, 1), (1, 2), (2, 0)],
        &[(0, 2), (2, 0)],
        &[(0, 1), (1, 2), (2, 1), (2, 3), (3, 0), (4, 4), (4, 2), (5, 4)],
        &[(5, 0), (5, 1), (5, 2), (4, 5), (3, 4), (0, 3), (1, 1), (2, 5)],
    ];
    for edges in edge_lists {
        let mut g = store_with(6, edges);
        let vertices = g.vertices();
        let mut lists = Vec::new();
        for v in 0..6 {
            lists.push(g.get_out_neighbours(v));
        }
        let neighbours = |v: i32| lists[v as usize].clone();
        let mut expected = Vec::new();
        let mut in_progress = Vec::new();
        for v in &vertices {
            explore(&neighbours, &mut in_progress, &mut expected, *v);
        }
        let mut visitor = TopoSortVisitor::new();
        assert_eq!(visitor.visit(&mut g), expected);
    }
}

#[test]
fn visit_of_a_two_cycle_beside_a_lone_vertex_keeps_the_cycle_together() {
    // the two vertices of the cycle stand next to each other, wherever the
    // lone vertex 1 falls
    let mut g = store_with(3, &[(0, 2), (2, 0)]);
    let mut visitor = TopoSortVisitor::new();
    let order = visitor.visit(&mut g);
    assert!(lists_each_vertex_once(&order, 3));
    let gap = (position(&order, 0) as i32 - position(&order, 2) as i32).abs();
    assert_eq!(gap, 1);
}
