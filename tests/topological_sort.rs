use std::collections::HashMap;
use topo_sort::graph::successor_list;
use topo_sort::{dfs, topological_sort};

fn build(edges: &[(usize, &[usize])]) -> HashMap<usize, Vec<usize>> {
    let mut graph = HashMap::new();
    for (v, succs) in edges {
        graph.insert(*v, succs.to_vec());
    }
    graph
}

fn is_permutation(order: &[usize], n: usize) -> bool {
    let mut seen = vec![false; n];
    for &v in order {
        if v >= n || seen[v] {
            return false;
        }
        seen[v] = true;
    }
    order.len() == n
}

fn respects_edges(order: &[usize], graph: &HashMap<usize, Vec<usize>>) -> bool {
    let mut pos = vec![0usize; order.len()];
    for (i, &v) in order.iter().enumerate() {
        pos[v] = i;
    }
    graph
        .iter()
        .all(|(&u, succs)| succs.iter().all(|&w| pos[u] < pos[w]))
}

fn example_dag() -> HashMap<usize, Vec<usize>> {
    build(&[(0, &[1, 2]), (1, &[3]), (2, &[3]), (3, &[4]), (4, &[])])
}

#[test]
fn example_dag_order() {
    let graph = example_dag();
    let order = topological_sort(&graph, 5);
    assert!(is_permutation(&order, 5));
    assert!(respects_edges(&order, &graph));
    assert_eq!(order, vec![0, 2, 1, 3, 4]);
}

#[test]
fn example_dag_pairwise_constraints() {
    let graph = example_dag();
    let order = topological_sort(&graph, 5);
    let pos = |v: usize| order.iter().position(|&x| x == v).unwrap();
    assert!(pos(0) < pos(1) && pos(0) < pos(2));
    assert!(pos(1) < pos(3) && pos(2) < pos(3));
    assert!(pos(3) < pos(4));
}

#[test]
fn empty_graph_zero_vertices() {
    let graph = HashMap::new();
    assert_eq!(topological_sort(&graph, 0), Vec::<usize>::new());
}

#[test]
fn no_edges_single_vertex() {
    let graph = HashMap::new();
    assert_eq!(topological_sort(&graph, 1), vec![0]);
}

#[test]
fn no_edges_reverse_scan_order() {
    let graph = HashMap::new();
    assert_eq!(topological_sort(&graph, 4), vec![3, 2, 1, 0]);
    let listed = build(&[(0, &[]), (1, &[]), (2, &[]), (3, &[])]);
    assert_eq!(topological_sort(&listed, 4), vec![3, 2, 1, 0]);
}

#[test]
fn missing_key_same_as_empty_list() {
    let with_entry = build(&[(0, &[1]), (1, &[])]);
    let without_entry = build(&[(0, &[1])]);
    assert_eq!(topological_sort(&with_entry, 2), topological_sort(&without_entry, 2));
    assert_eq!(topological_sort(&without_entry, 2), vec![0, 1]);
}

#[test]
fn chain_is_ordered() {
    let graph = build(&[(3, &[2]), (2, &[1]), (1, &[0])]);
    assert_eq!(topological_sort(&graph, 4), vec![3, 2, 1, 0]);
    let forward = build(&[(0, &[1]), (1, &[2]), (2, &[3])]);
    assert_eq!(topological_sort(&forward, 4), vec![0, 1, 2, 3]);
}

#[test]
fn disconnected_components() {
    let graph = build(&[(0, &[1]), (2, &[3]), (4, &[5]), (5, &[6])]);
    let order = topological_sort(&graph, 8);
    assert!(is_permutation(&order, 8));
    assert!(respects_edges(&order, &graph));
    assert_eq!(order, vec![7, 4, 5, 6, 2, 3, 0, 1]);
}

#[test]
fn deterministic_on_repeat() {
    let graph = build(&[(0, &[3, 1]), (1, &[2]), (3, &[2]), (4, &[0])]);
    let first = topological_sort(&graph, 5);
    let second = topological_sort(&graph, 5);
    assert_eq!(first, second);
    let mut rebuilt = HashMap::new();
    rebuilt.insert(4, vec![0]);
    rebuilt.insert(3, vec![2]);
    rebuilt.insert(1, vec![2]);
    rebuilt.insert(0, vec![3, 1]);
    assert_eq!(topological_sort(&rebuilt, 5), first);
    assert!(respects_edges(&first, &graph));
}

#[test]
fn successor_order_decides_ties() {
    let a = build(&[(0, &[1, 2])]);
    let b = build(&[(0, &[2, 1])]);
    assert_eq!(topological_sort(&a, 3), vec![0, 2, 1]);
    assert_eq!(topological_sort(&b, 3), vec![0, 1, 2]);
}

#[test]
fn self_loop_still_permutation() {
    let graph = build(&[(0, &[0]), (1, &[0])]);
    let order = topological_sort(&graph, 2);
    assert!(is_permutation(&order, 2));
    assert_eq!(order, vec![1, 0]);
}

#[test]
fn cycle_still_permutation() {
    let graph = build(&[(0, &[1]), (1, &[2]), (2, &[0]), (3, &[1])]);
    let order = topological_sort(&graph, 4);
    assert!(is_permutation(&order, 4));
    assert_eq!(order, vec![3, 0, 1, 2]);
}

#[test]
fn larger_dag_respects_edges() {
    let graph = build(&[
        (0, &[5, 7]),
        (1, &[0, 6]),
        (2, &[1]),
        (3, &[2, 0]),
        (4, &[9]),
        (5, &[8]),
        (6, &[5]),
        (7, &[8]),
        (9, &[3]),
    ]);
    let order = topological_sort(&graph, 10);
    assert!(is_permutation(&order, 10));
    assert!(respects_edges(&order, &graph));
}

#[test]
fn dfs_pushes_after_descendants() {
    let graph = example_dag();
    let mut visited = vec![false; 5];
    let mut stack = Vec::new();
    dfs(1, &graph, &mut visited, &mut stack);
    assert_eq!(stack, vec![4, 3, 1]);
    assert_eq!(visited, vec![false, true, false, true, true]);
    dfs(0, &graph, &mut visited, &mut stack);
    assert_eq!(stack, vec![4, 3, 1, 2, 0]);
    assert_eq!(visited, vec![true; 5]);
}

#[test]
fn dfs_from_visited_vertex_explores_rest() {
    let graph = build(&[(0, &[1])]);
    let mut visited = vec![true, false];
    let mut stack = Vec::new();
    dfs(0, &graph, &mut visited, &mut stack);
    assert_eq!(stack, vec![1, 0]);
    assert_eq!(visited, vec![true, true]);
}

#[test]
fn successor_list_lookup() {
    let graph = example_dag();
    assert_eq!(successor_list(&graph, 0), Some(&vec![1, 2]));
    assert_eq!(successor_list(&graph, 4), Some(&vec![]));
    assert_eq!(successor_list(&graph, 7), None);
}
