use digraph::graph::{Graph, IGraph, NOT_FOUND};
use digraph::util::add_one;
use digraph::Comparable;

fn sorted(mut v: Vec<i32>) -> Vec<i32> {
    v.sort();
    v
}

fn three_vertices() -> Graph<i32> {
    let mut g = Graph::<i32>::new();
    g.add(1);
    g.add(2);
    g.add(3);
    g
}

#[test]
fn identifiers_count_up_from_zero() {
    let mut g = Graph::<i32>::new();
    let payloads = [7, -3, 7, 0, i32::MAX, i32::MIN];
    let mut expected = 0;
    for p in payloads {
        assert_eq!(g.add(p), expected);
        expected += 1;
    }
    assert_eq!(sorted(g.vertices()), vec![0, 1, 2, 3, 4, 5]);
}

#[test]
fn identifiers_do_not_depend_on_other_operations() {
    let mut g = Graph::<i32>::new();
    assert_eq!(g.add(10), 0);
    assert!(g.link(0, 0));
    assert_eq!(g.get_vector(&10), 0);
    assert_eq!(g.add(10), 1);
    assert!(g.unlink(0, 0));
    assert_eq!(g.add(10), 2);
}

#[test]
fn get_returns_the_payload_of_a_present_vertex() {
    let mut g = three_vertices();
    assert_eq!(g.get(0), Some(&1));
    assert_eq!(g.get(1), Some(&2));
    assert_eq!(g.get(2), Some(&3));
}

#[test]
fn get_of_an_absent_vertex_is_none() {
    let mut g = three_vertices();
    assert_eq!(g.get(3), None);
    assert_eq!(g.get(-1), None);
    assert_eq!(g.get(i32::MAX), None);
    let mut empty = Graph::<i32>::new();
    assert_eq!(empty.get(0), None);
}

#[test]
fn find_id_returns_the_vertex_of_a_payload() {
    let mut g = three_vertices();
    assert_eq!(g.get_vector(&2), 1);
    assert_eq!(g.get_vector(&1), 0);
    assert_eq!(g.get_vector(&3), 2);
}

#[test]
fn find_id_of_an_absent_payload_is_the_sentinel() {
    let mut g = three_vertices();
    assert_eq!(NOT_FOUND, -1);
    assert_eq!(g.get_vector(&99), -1);
    let mut empty = Graph::<i32>::new();
    assert_eq!(empty.get_vector(&1), NOT_FOUND);
}

#[test]
fn find_id_with_duplicates_returns_one_of_them() {
    let mut g = Graph::<i32>::new();
    g.add(5);
    g.add(6);
    g.add(5);
    let id = g.get_vector(&5);
    assert!(id == 0 || id == 2);
    assert_eq!(g.get(id), Some(&5));
}

#[test]
fn bulk_get_lists_every_vertex_and_ignores_its_argument() {
    let mut g = three_vertices();
    for ids in [vec![], vec![1], vec![1, 2, 3], vec![42, 42, -7, 0]] {
        let found = g.bulk_get(ids);
        assert_eq!(found.len(), 3);
        let mut payloads = Vec::new();
        for entry in found {
            assert!(entry.is_some());
            payloads.push(*entry.unwrap());
        }
        assert_eq!(sorted(payloads), vec![1, 2, 3]);
    }
}

#[test]
fn bulk_get_of_an_empty_store_is_empty() {
    let mut g = Graph::<i32>::new();
    assert!(g.bulk_get(vec![0, 1, 2]).is_empty());
}

#[test]
fn link_adds_an_edge_once() {
    let mut g = three_vertices();
    assert!(g.link(0, 1));
    assert!(!g.link(0, 1));
    assert_eq!(g.get_out_neighbours(0), vec![1]);
    assert!(g.link(1, 0));
    assert_eq!(g.get_out_neighbours(1), vec![0]);
    assert_eq!(g.get_out_neighbours(0), vec![1]);
}

#[test]
fn link_permits_self_loops() {
    let mut g = three_vertices();
    assert!(g.link(1, 1));
    assert!(!g.link(1, 1));
    assert_eq!(g.get_out_neighbours(1), vec![1]);
    assert!(g.unlink(1, 1));
    assert!(g.get_out_neighbours(1).is_empty());
}

#[test]
fn link_with_an_unknown_endpoint_is_refused() {
    let mut g = three_vertices();
    assert!(g.link(0, 1));
    for (u, v) in [(0, 3), (3, 0), (3, 3), (-1, 0), (0, -1), (i32::MAX, 0), (0, i32::MIN)] {
        assert!(!g.link(u, v));
        assert!(!g.unlink(u, v));
    }
    assert_eq!(g.get_out_neighbours(0), vec![1]);
    assert!(g.get_out_neighbours(1).is_empty());
    assert!(g.get_out_neighbours(2).is_empty());
    assert!(g.get_out_neighbours(3).is_empty());
    assert!(g.get_out_neighbours(-1).is_empty());
}

#[test]
fn link_with_an_identifier_from_before_a_clear_is_refused() {
    let mut g = three_vertices();
    assert!(g.link(0, 1));
    g.clear();
    assert!(!g.link(0, 1));
    assert!(!g.link(1, 2));
    assert!(!g.unlink(0, 1));
    assert!(g.get_out_neighbours(0).is_empty());
    assert_eq!(g.add(4), 3);
    assert!(!g.link(0, 3));
    assert!(!g.link(3, 0));
    assert!(g.link(3, 3));
}

#[test]
fn unlink_removes_one_edge() {
    let mut g = three_vertices();
    assert!(g.link(0, 1));
    assert!(g.link(0, 2));
    assert!(g.link(1, 0));
    assert!(g.unlink(0, 1));
    assert_eq!(g.get_out_neighbours(0), vec![2]);
    assert_eq!(g.get_out_neighbours(1), vec![0]);
    assert!(!g.unlink(0, 1));
}

#[test]
fn unlink_of_an_absent_edge_is_refused() {
    let mut g = three_vertices();
    assert!(!g.unlink(0, 1));
    assert!(g.link(0, 1));
    assert!(!g.unlink(1, 0));
    assert_eq!(g.get_out_neighbours(0), vec![1]);
}

#[test]
fn link_then_unlink_restores_the_adjacency() {
    let mut g = three_vertices();
    assert!(g.link(0, 2));
    assert!(g.link(1, 2));
    let before0 = sorted(g.get_out_neighbours(0));
    let before1 = sorted(g.get_out_neighbours(1));
    let before2 = sorted(g.get_out_neighbours(2));
    assert!(g.link(0, 1));
    assert!(g.unlink(0, 1));
    assert_eq!(sorted(g.get_out_neighbours(0)), before0);
    assert_eq!(sorted(g.get_out_neighbours(1)), before1);
    assert_eq!(sorted(g.get_out_neighbours(2)), before2);
    // both indices are back where they were: the same edge can be added and
    // removed again, and the edges that entered vertex 2 are still there
    assert!(g.link(0, 1));
    assert!(g.unlink(0, 1));
    assert!(!g.link(0, 2));
    assert!(!g.link(1, 2));
}

#[test]
fn link_then_unlink_with_invalid_endpoints_changes_nothing() {
    let mut g = three_vertices();
    assert!(g.link(0, 1));
    assert!(!g.link(0, 9));
    assert!(!g.unlink(0, 9));
    assert_eq!(g.get_out_neighbours(0), vec![1]);
}

#[test]
fn out_neighbours_lists_each_target_once() {
    let mut g = Graph::<i32>::new();
    for p in 0..6 {
        g.add(p);
    }
    for v in [5, 3, 1, 3, 5, 4] {
        g.link(2, v);
    }
    assert_eq!(sorted(g.get_out_neighbours(2)), vec![1, 3, 4, 5]);
    assert!(g.get_out_neighbours(0).is_empty());
}

#[test]
fn vertices_lists_each_vertex_once() {
    let mut g = Graph::<i32>::new();
    assert!(g.vertices().is_empty());
    for p in 0..20 {
        g.add(p * 3);
    }
    assert_eq!(sorted(g.vertices()), (0..20).collect::<Vec<i32>>());
}

#[test]
fn clear_empties_the_store_and_keeps_the_counter() {
    let mut g = three_vertices();
    g.link(0, 1);
    g.clear();
    assert!(g.vertices().is_empty());
    assert!(g.bulk_get(vec![0, 1, 2]).is_empty());
    assert_eq!(g.get(0), None);
    assert_eq!(g.get_vector(&1), NOT_FOUND);
    assert_eq!(g.iter().count(), 0);
    assert_eq!(g.add(9), 3);
    assert_eq!(g.vertices(), vec![3]);
    g.clear();
    g.clear();
    assert_eq!(g.add(9), 4);
    assert_eq!(g.add(9), 5);
    assert_eq!(sorted(g.vertices()), vec![4, 5]);
}

#[test]
fn clear_of_a_new_store_keeps_the_counter_at_zero() {
    let mut g = Graph::<i32>::new();
    g.clear();
    assert_eq!(g.add(1), 0);
}

#[test]
fn iter_yields_each_pair_once() {
    let mut g = three_vertices();
    let mut pairs: Vec<(i32, i32)> = g.iter().map(|(k, v)| (*k, *v)).collect();
    pairs.sort();
    assert_eq!(pairs, vec![(0, 1), (1, 2), (2, 3)]);
    // a second call starts over
    assert_eq!(g.iter().count(), 3);
}

#[test]
fn compare_is_three_way() {
    assert_eq!(5.compare(&3), 1);
    assert_eq!(3.compare(&3), 0);
    assert_eq!(3.compare(&5), -1);
    assert_eq!(i32::MIN.compare(&i32::MAX), -1);
    assert_eq!(i32::MAX.compare(&i32::MIN), 1);
    assert_eq!(0.compare(&0), 0);
}

#[test]
fn add_one_increments() {
    let mut v = 12;
    add_one(&mut v);
    assert_eq!(v, 13);
    let mut w = -1;
    add_one(&mut w);
    assert_eq!(w, 0);
    let mut x = i32::MAX - 1;
    add_one(&mut x);
    assert_eq!(x, i32::MAX);
}
