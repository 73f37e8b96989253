use vstd::prelude::*;
use std::collections::HashMap;

verus! {

/// The mathematical view of a graph: each key is mapped to its successor
/// sequence. A vertex that is not a key has no outgoing edges.
pub open spec fn adjacency(graph: Map<usize, Vec<usize>>) -> Map<usize, Seq<usize>> {
    graph.map_values(|succs: Vec<usize>| succs@)
}

/// The successors of `v`, in their fixed exploration order.
pub open spec fn successors(adj: Map<usize, Seq<usize>>, v: usize) -> Seq<usize> {
    if adj.contains_key(v) {
        adj[v]
    } else {
        Seq::empty()
    }
}

pub open spec fn has_edge(adj: Map<usize, Seq<usize>>, u: usize, v: usize) -> bool {
    successors(adj, u).contains(v)
}

/// Every successor of a vertex below `n` is itself below `n`.
pub open spec fn successors_in_range(adj: Map<usize, Seq<usize>>, n: nat) -> bool {
    forall|v: usize, i: int|
        v < n && 0 <= i < successors(adj, v).len() ==> #[trigger] successors(adj, v)[i] < n
}

/// `p` is a walk through vertices below `n` that follows edges of the graph.
pub open spec fn is_path(adj: Map<usize, Seq<usize>>, n: nat, p: Seq<usize>) -> bool {
    &&& forall|i: int| 0 <= i < p.len() ==> #[trigger] p[i] < n
    &&& forall|i: int| 0 <= i < p.len() - 1 ==> #[trigger] has_edge(adj, p[i], p[i + 1])
}

/// No walk of at least one edge among the vertices `0..n` returns to where
/// it started.
pub open spec fn is_acyclic(adj: Map<usize, Seq<usize>>, n: nat) -> bool {
    forall|p: Seq<usize>|
        #[trigger] is_path(adj, n, p) && p.len() >= 2 ==> p[0] != p[p.len() - 1]
}

/// Looks up the successor list of `v`; `None` when `v` has no entry.
pub fn successor_list(graph: &HashMap<usize, Vec<usize>>, v: usize) -> (r: Option<&Vec<usize>>)
    ensures
        match r {
            Some(succs) => adjacency(graph@).contains_key(v) && succs@ == adjacency(graph@)[v],
            None => !adjacency(graph@).contains_key(v),
        },
{
    broadcast use vstd::std_specs::hash::group_hash_axioms;
    graph.get(&v)
}

} // verus!
