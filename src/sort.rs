use vstd::prelude::*;
use std::collections::HashMap;
use crate::graph::{adjacency, has_edge, is_acyclic, successor_list, successors, successors_in_range};
use crate::properties::{
    lemma_scan, lemma_topo_order_is_permutation, lemma_topo_order_respects_edges, lemma_visit_frame,
};
use crate::traversal::{explore, lemma_mark_one, lemma_more_marks, scan, topo_order, unvisited_count, visit};

verus! {

/// Orders a visit of a marked vertex after the visits it starts, which are
/// of unmarked vertices.
pub open spec fn visit_rank(marks: Seq<bool>, v: usize) -> nat {
    if marks[v as int] {
        1
    } else {
        0
    }
}

/// Depth-first visit of `v`: marks it, visits each unmarked successor in the
/// order of its successor list, then pushes `v` onto `stack`, so that every
/// vertex lands on the stack after all vertices first reached from it.
pub fn dfs(
    v: usize,
    graph: &HashMap<usize, Vec<usize>>,
    visited: &mut Vec<bool>,
    stack: &mut Vec<usize>,
)
    requires
        v < old(visited).len(),
        successors_in_range(adjacency(graph@), old(visited).len() as nat),
    ensures
        (final(visited)@, final(stack)@) == visit(
            adjacency(graph@),
            v,
            old(visited)@,
            old(stack)@,
        ),
    decreases unvisited_count(old(visited)@), visit_rank(old(visited)@, v),
{
    let ghost adj = adjacency(graph@);
    let ghost start = visited@;
    let ghost start_stack = stack@;
    visited.set(v, true);
    let ghost marked = visited@;
    proof {
        if start[v as int] {
            assert(marked =~= start);
        } else {
            lemma_mark_one(start, v as int);
        }
    }
    match successor_list(graph, v) {
        Some(neighbors) => {
            let mut i: usize = 0;
            while i < neighbors.len()
                invariant
                    neighbors@ == successors(adj, v),
                    start == old(visited)@,
                    i <= neighbors.len(),
                    visited@.len() == start.len(),
                    v < start.len(),
                    adj == adjacency(graph@),
                    successors_in_range(adj, start.len() as nat),
                    explore(adj, v, i as nat, visited@, stack@) == explore(
                        adj,
                        v,
                        0,
                        marked,
                        start_stack,
                    ),
                    unvisited_count(visited@) <= unvisited_count(marked),
                    start[v as int] ==> unvisited_count(marked) == unvisited_count(start),
                    !start[v as int] ==> unvisited_count(marked) < unvisited_count(start),
                decreases neighbors.len() - i,
            {
                let u = neighbors[i];
                let ghost prev = (visited@, stack@);
                assert(u < start.len());
                if !visited[u] {
                    proof {
                        lemma_visit_frame(adj, u, prev.0, prev.1);
                        lemma_more_marks(prev.0, visit(adj, u, prev.0, prev.1).0);
                    }
                    dfs(u, graph, visited, stack);
                }
                assert(explore(adj, v, i as nat, prev.0, prev.1) == explore(
                    adj,
                    v,
                    (i + 1) as nat,
                    visited@,
                    stack@,
                ));
                i += 1;
            }
        },
        None => {},
    }
    stack.push(v);
}

/// Orders the vertices `0..n` of `graph`: every vertex is visited depth
/// first in increasing order of the unvisited ones, and the finish stack is
/// returned reversed.
///
/// The result is exactly `topo_order` of the graph's contents and `n`, so
/// two calls on equal graphs give equal sequences. It holds each vertex of
/// `0..n` once, and when the graph has no cycle every edge `u -> w` puts `u`
/// before `w`.
pub fn topological_sort(graph: &HashMap<usize, Vec<usize>>, n: usize) -> (order: Vec<usize>)
    requires
        successors_in_range(adjacency(graph@), n as nat),
    ensures
        order@ == topo_order(adjacency(graph@), n),
        order.len() == n,
        order@.no_duplicates(),
        forall|i: int| 0 <= i < n ==> #[trigger] order[i] < n,
        forall|x: usize| x < n ==> #[trigger] order@.contains(x),
        is_acyclic(adjacency(graph@), n as nat) ==> forall|i: int, j: int|
            0 <= i < n && 0 <= j < n && #[trigger] has_edge(adjacency(graph@), order[i], order[j])
                ==> i < j,
{
    let ghost adj = adjacency(graph@);
    let mut visited: Vec<bool> = Vec::new();
    let mut k: usize = 0;
    while k < n
        invariant
            k <= n,
            visited@ =~= Seq::new(k as nat, |i: int| false),
        decreases n - k,
    {
        visited.push(false);
        k += 1;
    }
    let mut stack: Vec<usize> = Vec::new();
    let mut v: usize = 0;
    proof {
        assert(scan(adj, n, 0).0 =~= visited@);
    }
    while v < n
        invariant
            v <= n,
            adj == adjacency(graph@),
            successors_in_range(adj, n as nat),
            (visited@, stack@) == scan(adj, n, v as nat),
        decreases n - v,
    {
        proof {
            lemma_scan(adj, n, v as nat);
        }
        if !visited[v] {
            dfs(v, graph, &mut visited, &mut stack);
        }
        v += 1;
    }
    let mut order: Vec<usize> = Vec::new();
    let mut j: usize = stack.len();
    while j > 0
        invariant
            j <= stack.len(),
            order.len() == stack.len() - j,
            forall|i: int| 0 <= i < order.len() ==> order[i] == stack@[stack.len() - 1 - i],
        decreases j,
    {
        j -= 1;
        order.push(stack[j]);
    }
    proof {
        assert(order@ =~= stack@.reverse());
        lemma_topo_order_is_permutation(adj, n);
        if is_acyclic(adj, n as nat) {
            lemma_topo_order_respects_edges(adj, n);
        }
    }
    order
}

} // verus!
