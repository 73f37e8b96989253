use vstd::prelude::*;
use crate::graph::{adjacency, has_edge, is_acyclic, is_path, successors, successors_in_range};
use crate::traversal::{
    explore, lemma_count_extremes, lemma_mark_one, lemma_more_marks, scan, topo_order,
    unvisited_count, visit,
};

verus! {

/// A finish sequence without repeats, all of whose vertices are marked.
pub open spec fn finish_wf(marks: Seq<bool>, finished: Seq<usize>) -> bool {
    &&& finished.no_duplicates()
    &&& forall|j: int|
        0 <= j < finished.len() ==> #[trigger] finished[j] < marks.len()
            && marks[finished[j] as int]
}

/// How a traversal step relates its final state `after` to its initial
/// state: marks are only added, the finish sequence only grows at its end,
/// each vertex appended was unmarked at the start, each newly marked vertex
/// was appended, and the finish sequence grows by as many vertices as lose
/// their unvisited status.
pub open spec fn grows(marks: Seq<bool>, finished: Seq<usize>, after: (Seq<bool>, Seq<usize>)) -> bool {
    &&& after.0.len() == marks.len()
    &&& forall|x: int| 0 <= x < marks.len() && #[trigger] marks[x] ==> after.0[x]
    &&& finished.len() <= after.1.len()
    &&& forall|j: int| 0 <= j < finished.len() ==> #[trigger] after.1[j] == finished[j]
    &&& forall|j: int|
        finished.len() <= j < after.1.len() ==> #[trigger] after.1[j] < marks.len()
            && !marks[after.1[j] as int]
    &&& forall|x: usize|
        x < marks.len() && #[trigger] after.0[x as int] && !marks[x as int] ==> after.1.contains(x)
    &&& after.1.len() + unvisited_count(after.0) == finished.len() + unvisited_count(marks)
}

/// What one visit of an unmarked vertex does to the traversal state.
pub proof fn lemma_visit_frame(
    adj: Map<usize, Seq<usize>>,
    v: usize,
    marks: Seq<bool>,
    finished: Seq<usize>,
)
    requires
        v < marks.len(),
        !marks[v as int],
    ensures
        grows(marks, finished, visit(adj, v, marks, finished)),
        visit(adj, v, marks, finished).0[v as int],
        finish_wf(marks, finished) ==> finish_wf(
            visit(adj, v, marks, finished).0,
            visit(adj, v, marks, finished).1,
        ),
    decreases unvisited_count(marks), 0nat, 0int,
{
    let m1 = marks.update(v as int, true);
    lemma_mark_one(marks, v as int);
    lemma_explore_frame(adj, v, 0, m1, finished);
    let e = explore(adj, v, 0, m1, finished);
    let r = visit(adj, v, marks, finished);
    assert(r == (e.0, e.1.push(v)));
    assert(r.1[e.1.len() as int] == v);
    assert(m1[v as int]);
    assert forall|x: int| 0 <= x < marks.len() && #[trigger] marks[x] implies r.0[x] by {
        assert(m1[x]);
    }
    assert forall|j: int| finished.len() <= j < r.1.len() implies #[trigger] r.1[j] < marks.len()
        && !marks[r.1[j] as int] by {
        if j < e.1.len() {
            assert(r.1[j] == e.1[j]);
            assert(!m1[e.1[j] as int]);
        }
    }
    assert forall|j: int| 0 <= j < finished.len() implies #[trigger] r.1[j] == finished[j] by {
        assert(e.1[j] == finished[j]);
    }
    assert forall|x: usize| x < marks.len() && #[trigger] r.0[x as int] && !marks[x as int] implies r.1.contains(
        x,
    ) by {
        if x == v {
            assert(r.1[e.1.len() as int] == v);
        } else {
            assert(!m1[x as int]);
            let j = choose|j: int| 0 <= j < e.1.len() && e.1[j] == x;
            assert(r.1[j] == x);
        }
    }
    if finish_wf(marks, finished) {
        assert(finish_wf(m1, finished));
        assert forall|j: int| 0 <= j < e.1.len() implies e.1[j] != v by {
            if j >= finished.len() {
                assert(!m1[e.1[j] as int]);
            } else {
                assert(e.1[j] == finished[j]);
            }
        }
        assert(r.1.no_duplicates()) by {
            assert forall|a: int, b: int| 0 <= a < r.1.len() && 0 <= b < r.1.len() && a != b
                implies r.1[a] != r.1[b] by {
                if a < e.1.len() && b < e.1.len() {
                    assert(e.1[a] != e.1[b]);
                } else if a < e.1.len() {
                    assert(e.1[a] != v);
                } else if b < e.1.len() {
                    assert(e.1[b] != v);
                }
            }
        }
    }
}

/// What exploring a successor list does to the traversal state.
pub proof fn lemma_explore_frame(
    adj: Map<usize, Seq<usize>>,
    v: usize,
    i: nat,
    marks: Seq<bool>,
    finished: Seq<usize>,
)
    ensures
        grows(marks, finished, explore(adj, v, i, marks, finished)),
        finish_wf(marks, finished) ==> finish_wf(
            explore(adj, v, i, marks, finished).0,
            explore(adj, v, i, marks, finished).1,
        ),
    decreases unvisited_count(marks), 1nat, successors(adj, v).len() - i,
{
    let r = explore(adj, v, i, marks, finished);
    if i < successors(adj, v).len() {
        let u = successors(adj, v)[i as int];
        let step = if u < marks.len() && !marks[u as int] {
            visit(adj, u, marks, finished)
        } else {
            (marks, finished)
        };
        if u < marks.len() && !marks[u as int] {
            lemma_visit_frame(adj, u, marks, finished);
        }
        assert(grows(marks, finished, step));
        lemma_more_marks(marks, step.0);
        lemma_explore_frame(adj, v, i + 1, step.0, step.1);
        assert(r == explore(adj, v, i + 1, step.0, step.1));
        assert forall|x: usize| x < marks.len() && #[trigger] r.0[x as int] && !marks[x as int] implies r.1.contains(
            x,
        ) by {
            if step.0[x as int] {
                let j = choose|j: int| 0 <= j < step.1.len() && step.1[j] == x;
                assert(r.1[j] == x);
            }
        }
        assert forall|j: int| finished.len() <= j < r.1.len() implies #[trigger] r.1[j] < marks.len()
            && !marks[r.1[j] as int] by {
            if j < step.1.len() {
                assert(r.1[j] == step.1[j]);
            } else {
                assert(!step.0[r.1[j] as int]);
            }
        }
    } else {
        assert(grows(marks, finished, r));
    }
}

/// What holds after the outer scan has considered the vertices `0..k`: the
/// marked vertices are exactly the finished ones, each finished once, and
/// every vertex below `k` is marked.
pub open spec fn scan_inv(n: usize, k: nat, state: (Seq<bool>, Seq<usize>)) -> bool {
    &&& state.0.len() == n
    &&& finish_wf(state.0, state.1)
    &&& forall|x: usize| x < n ==> (#[trigger] state.0[x as int] <==> state.1.contains(x))
    &&& state.1.len() + unvisited_count(state.0) == n
    &&& forall|x: int| 0 <= x < k ==> #[trigger] state.0[x]
}

/// The outer scan keeps `scan_inv`.
pub proof fn lemma_scan(adj: Map<usize, Seq<usize>>, n: usize, k: nat)
    requires
        k <= n,
    ensures
        scan_inv(n, k, scan(adj, n, k)),
    decreases k,
{
    let s = scan(adj, n, k);
    if k == 0 {
        lemma_count_extremes(s.0);
    } else {
        lemma_scan(adj, n, (k - 1) as nat);
        let prev = scan(adj, n, (k - 1) as nat);
        let v = (k - 1) as usize;
        if !prev.0[v as int] {
            lemma_visit_frame(adj, v, prev.0, prev.1);
            assert forall|x: usize| x < n implies (#[trigger] s.0[x as int] <==> s.1.contains(x)) by {
                if prev.0[x as int] {
                    let j = choose|j: int| 0 <= j < prev.1.len() && prev.1[j] == x;
                    assert(s.1[j] == x);
                }
                if s.1.contains(x) {
                    let j = choose|j: int| 0 <= j < s.1.len() && s.1[j] == x;
                    assert(s.0[s.1[j] as int]);
                }
            }
            assert forall|x: int| 0 <= x < k implies #[trigger] s.0[x] by {
                if x < k - 1 {
                    assert(prev.0[x]);
                }
            }
        }
    }
}

/// The order contains each vertex of `0..n` exactly once, whatever the
/// graph, cycles included.
pub proof fn lemma_topo_order_is_permutation(adj: Map<usize, Seq<usize>>, n: usize)
    ensures
        topo_order(adj, n).len() == n,
        topo_order(adj, n).no_duplicates(),
        forall|i: int| 0 <= i < n ==> #[trigger] topo_order(adj, n)[i] < n,
        forall|x: usize| x < n ==> #[trigger] topo_order(adj, n).contains(x),
{
    lemma_scan(adj, n, n as nat);
    let s = scan(adj, n, n as nat);
    let r = topo_order(adj, n);
    lemma_count_extremes(s.0);
    assert(r.len() == n);
    assert forall|i: int| 0 <= i < n implies #[trigger] r[i] == s.1[n - 1 - i] by {}
    assert forall|x: usize| x < n implies #[trigger] r.contains(x) by {
        assert(s.0[x as int]);
        let j = choose|j: int| 0 <= j < s.1.len() && s.1[j] == x;
        assert(r[n - 1 - j] == x);
    }
    assert forall|a: int, b: int| 0 <= a < r.len() && 0 <= b < r.len() && a != b implies r[a]
        != r[b] by {
        assert(s.1[n - 1 - a] != s.1[n - 1 - b]);
    }
    assert forall|i: int| 0 <= i < n implies #[trigger] r[i] < n by {
        assert(s.1[n - 1 - i] < n);
    }
}

/// Every edge out of a finished vertex leads to a vertex finished before it.
pub open spec fn finished_closed(adj: Map<usize, Seq<usize>>, finished: Seq<usize>) -> bool {
    &&& forall|j: int, x: usize|
        0 <= j < finished.len() && #[trigger] has_edge(adj, finished[j], x) ==> finished.contains(x)
    &&& forall|a: int, b: int|
        0 <= a < finished.len() && 0 <= b < finished.len() && #[trigger] has_edge(
            adj,
            finished[a],
            finished[b],
        ) ==> b < a
}

/// The marked vertices are the finished ones together with those of `path`,
/// the chain of visits still in progress.
pub open spec fn marked_exactly(marks: Seq<bool>, finished: Seq<usize>, path: Seq<usize>) -> bool {
    forall|x: usize|
        x < marks.len() ==> (#[trigger] marks[x as int] <==> (finished.contains(x) || path.contains(
            x,
        )))
}

/// An edge from the end of a walk back into it closes a cycle.
proof fn lemma_no_back_edge(adj: Map<usize, Seq<usize>>, n: nat, q: Seq<usize>, u: usize)
    requires
        is_acyclic(adj, n),
        is_path(adj, n, q),
        q.len() > 0,
        has_edge(adj, q[q.len() - 1], u),
    ensures
        !q.contains(u),
{
    if q.contains(u) {
        let k = choose|k: int| 0 <= k < q.len() && q[k] == u;
        let p = q.subrange(k, q.len() as int).push(u);
        assert forall|t: int| 0 <= t < p.len() - 1 implies #[trigger] has_edge(adj, p[t], p[t + 1]) by {
            if t < p.len() - 2 {
                assert(p[t] == q[k + t] && p[t + 1] == q[k + t + 1]);
            }
        }
        assert(is_path(adj, n, p));
    }
}

/// Under no cycle, a visit started below the chain `path` of visits in
/// progress leaves the finish sequence closed under edges.
proof fn lemma_visit_ordered(
    adj: Map<usize, Seq<usize>>,
    v: usize,
    marks: Seq<bool>,
    finished: Seq<usize>,
    path: Seq<usize>,
)
    requires
        successors_in_range(adj, marks.len()),
        is_acyclic(adj, marks.len()),
        v < marks.len(),
        !marks[v as int],
        is_path(adj, marks.len(), path.push(v)),
        finish_wf(marks, finished),
        finished_closed(adj, finished),
        marked_exactly(marks, finished, path),
    ensures
        finished_closed(adj, visit(adj, v, marks, finished).1),
        marked_exactly(visit(adj, v, marks, finished).0, visit(adj, v, marks, finished).1, path),
    decreases unvisited_count(marks), 0nat, 0int,
{
    let m1 = marks.update(v as int, true);
    let q = path.push(v);
    lemma_mark_one(marks, v as int);
    lemma_visit_frame(adj, v, marks, finished);
    assert(finish_wf(m1, finished));
    assert forall|x: usize| x < m1.len() implies (#[trigger] m1[x as int] <==> (finished.contains(x)
        || q.contains(x))) by {
        if x != v && q.contains(x) {
            let t = choose|t: int| 0 <= t < q.len() && q[t] == x;
            assert(path[t] == x);
        }
        if x == v {
            assert(q[path.len() as int] == v);
        } else if path.contains(x) {
            let t = choose|t: int| 0 <= t < path.len() && path[t] == x;
            assert(q[t] == x);
        }
    }
    lemma_explore_ordered(adj, v, 0, m1, finished, path);
    let e = explore(adj, v, 0, m1, finished);
    let r = visit(adj, v, marks, finished);
    assert(r == (e.0, e.1.push(v)));
    let last = e.1.len() as int;
    assert(r.1[last] == v);
    assert(!e.1.contains(v)) by {
        if e.1.contains(v) {
            let t = choose|t: int| 0 <= t < e.1.len() && e.1[t] == v;
            assert(r.1[t] == r.1[last]);
        }
    }
    assert forall|j: int, x: usize| 0 <= j < r.1.len() && #[trigger] has_edge(adj, r.1[j], x) implies r.1.contains(
        x,
    ) by {
        let t = if j == last {
            choose|t: int| 0 <= t < successors(adj, v).len() && successors(adj, v)[t] == x
        } else {
            assert(r.1[j] == e.1[j]);
            0
        };
        let w = choose|w: int| 0 <= w < e.1.len() && e.1[w] == x;
        assert(r.1[w] == x);
    }
    assert forall|a: int, b: int|
        0 <= a < r.1.len() && 0 <= b < r.1.len() && #[trigger] has_edge(adj, r.1[a], r.1[b]) implies b
        < a by {
        if a == last && b == last {
            lemma_no_back_edge(adj, marks.len(), seq![v], v);
        } else if b == last {
            assert(r.1[a] == e.1[a]);
            assert(has_edge(adj, e.1[a], v));
        } else if a < last {
            assert(r.1[a] == e.1[a] && r.1[b] == e.1[b]);
        }
    }
    assert forall|x: usize| x < r.0.len() implies (#[trigger] r.0[x as int] <==> (r.1.contains(x)
        || path.contains(x))) by {
        if x == v {
            assert(m1[v as int]);
        } else {
            if e.1.contains(x) {
                let t = choose|t: int| 0 <= t < e.1.len() && e.1[t] == x;
                assert(r.1[t] == x);
            }
            if r.1.contains(x) {
                let t = choose|t: int| 0 <= t < r.1.len() && r.1[t] == x;
                assert(t != last);
                assert(e.1[t] == x);
            }
            if q.contains(x) {
                let t = choose|t: int| 0 <= t < q.len() && q[t] == x;
                assert(path[t] == x);
            }
            if path.contains(x) {
                let t = choose|t: int| 0 <= t < path.len() && path[t] == x;
                assert(q[t] == x);
            }
        }
    }
}

/// Under no cycle, exploring the successors of `v` leaves all of them
/// finished and the finish sequence closed under edges.
proof fn lemma_explore_ordered(
    adj: Map<usize, Seq<usize>>,
    v: usize,
    i: nat,
    marks: Seq<bool>,
    finished: Seq<usize>,
    path: Seq<usize>,
)
    requires
        successors_in_range(adj, marks.len()),
        is_acyclic(adj, marks.len()),
        v < marks.len(),
        is_path(adj, marks.len(), path.push(v)),
        finish_wf(marks, finished),
        finished_closed(adj, finished),
        marked_exactly(marks, finished, path.push(v)),
        forall|t: int| 0 <= t < i && t < successors(adj, v).len() ==> finished.contains(
            #[trigger] successors(adj, v)[t],
        ),
    ensures
        finished_closed(adj, explore(adj, v, i, marks, finished).1),
        marked_exactly(
            explore(adj, v, i, marks, finished).0,
            explore(adj, v, i, marks, finished).1,
            path.push(v),
        ),
        forall|t: int| 0 <= t < successors(adj, v).len() ==> explore(adj, v, i, marks, finished).1.contains(
            #[trigger] successors(adj, v)[t],
        ),
    decreases unvisited_count(marks), 1nat, successors(adj, v).len() - i,
{
    let q = path.push(v);
    if i < successors(adj, v).len() {
        let u = successors(adj, v)[i as int];
        assert(u < marks.len());
        assert(has_edge(adj, v, u));
        let step = if !marks[u as int] {
            visit(adj, u, marks, finished)
        } else {
            (marks, finished)
        };
        if !marks[u as int] {
            assert(is_path(adj, marks.len(), q.push(u))) by {
                assert forall|t: int| 0 <= t < q.push(u).len() - 1 implies #[trigger] has_edge(
                    adj,
                    q.push(u)[t],
                    q.push(u)[t + 1],
                ) by {
                    if t < q.len() - 1 {
                        assert(q.push(u)[t] == q[t] && q.push(u)[t + 1] == q[t + 1]);
                    }
                }
            }
            lemma_visit_frame(adj, u, marks, finished);
            lemma_visit_ordered(adj, u, marks, finished, q);
        } else {
            lemma_no_back_edge(adj, marks.len(), q, u);
        }
        assert(step.1.contains(u)) by {
            if marks[u as int] {
            } else {
                assert(step.0[u as int]);
            }
        }
        assert(grows(marks, finished, step));
        lemma_more_marks(marks, step.0);
        assert(explore(adj, v, i, marks, finished) == explore(adj, v, i + 1, step.0, step.1));
        assert forall|t: int| 0 <= t < i + 1 && t < successors(adj, v).len() implies step.1.contains(
            #[trigger] successors(adj, v)[t],
        ) by {
            if t < i {
                let w = choose|w: int| 0 <= w < finished.len() && finished[w] == successors(adj, v)[t];
                assert(step.1[w] == finished[w]);
            }
        }
        lemma_explore_ordered(adj, v, i + 1, step.0, step.1, path);
    }
}

/// With no cycle, the finish sequence of a scan is closed under edges.
proof fn lemma_scan_ordered(adj: Map<usize, Seq<usize>>, n: usize, k: nat)
    requires
        k <= n,
        successors_in_range(adj, n as nat),
        is_acyclic(adj, n as nat),
    ensures
        finished_closed(adj, scan(adj, n, k).1),
    decreases k,
{
    if k > 0 {
        lemma_scan_ordered(adj, n, (k - 1) as nat);
        lemma_scan(adj, n, (k - 1) as nat);
        let prev = scan(adj, n, (k - 1) as nat);
        let v = (k - 1) as usize;
        if !prev.0[v as int] {
            let empty = Seq::<usize>::empty();
            assert(empty.push(v) =~= seq![v]);
            assert(is_path(adj, n as nat, empty.push(v)));
            lemma_visit_ordered(adj, v, prev.0, prev.1, empty);
        }
    }
}

/// In a graph without cycles, every edge between two vertices of the order
/// goes from an earlier position to a later one.
pub proof fn lemma_topo_order_respects_edges(adj: Map<usize, Seq<usize>>, n: usize)
    requires
        successors_in_range(adj, n as nat),
        is_acyclic(adj, n as nat),
    ensures
        forall|i: int, j: int|
            0 <= i < n && 0 <= j < n && #[trigger] has_edge(
                adj,
                topo_order(adj, n)[i],
                topo_order(adj, n)[j],
            ) ==> i < j,
{
    lemma_scan(adj, n, n as nat);
    lemma_scan_ordered(adj, n, n as nat);
    lemma_count_extremes(scan(adj, n, n as nat).0);
    let s = scan(adj, n, n as nat).1;
    let r = topo_order(adj, n);
    assert forall|i: int, j: int|
        0 <= i < n && 0 <= j < n && #[trigger] has_edge(adj, r[i], r[j]) implies i < j by {
        assert(r[i] == s[n - 1 - i] && r[j] == s[n - 1 - j]);
    }
}

/// The order depends on the graph's contents alone: two maps with the same
/// keys and the same successor sequences yield the same order for the same
/// `n`, however they were built.
pub proof fn lemma_order_determined_by_contents(
    g1: Map<usize, Vec<usize>>,
    g2: Map<usize, Vec<usize>>,
    n: usize,
)
    requires
        g1.dom() == g2.dom(),
        forall|v: usize| g1.contains_key(v) ==> #[trigger] g1[v]@ == g2[v]@,
    ensures
        topo_order(adjacency(g1), n) == topo_order(adjacency(g2), n),
{
    assert(adjacency(g1) =~= adjacency(g2));
}

/// The scan of a graph without edges visits each vertex alone, so it
/// finishes the vertices in increasing order.
proof fn lemma_scan_edgeless(adj: Map<usize, Seq<usize>>, n: usize, k: nat)
    requires
        k <= n,
        forall|v: usize| v < n ==> (#[trigger] successors(adj, v)).len() == 0,
    ensures
        scan(adj, n, k).0 == Seq::new(n as nat, |i: int| i < k),
        scan(adj, n, k).1 == Seq::new(k, |i: int| i as usize),
    decreases k,
{
    if k == 0 {
        assert(scan(adj, n, k).0 =~= Seq::new(n as nat, |i: int| i < k));
        assert(scan(adj, n, k).1 =~= Seq::new(k, |i: int| i as usize));
    } else {
        lemma_scan_edgeless(adj, n, (k - 1) as nat);
        let prev = scan(adj, n, (k - 1) as nat);
        let v = (k - 1) as usize;
        assert(!prev.0[v as int]);
        let m1 = prev.0.update(v as int, true);
        assert(successors(adj, v).len() == 0);
        assert(explore(adj, v, 0, m1, prev.1) == (m1, prev.1));
        assert(m1 =~= Seq::new(n as nat, |i: int| i < k));
        assert(prev.1.push(v) =~= Seq::new(k, |i: int| i as usize));
    }
}

/// A graph with no edges among `0..n` is ordered `n - 1, ..., 1, 0`: each
/// vertex is finished as soon as the scan reaches it, and the finish order is
/// reversed. The order is the identity `0, ..., n - 1` only for `n <= 1`.
pub proof fn lemma_edgeless_order(adj: Map<usize, Seq<usize>>, n: usize)
    requires
        forall|v: usize| v < n ==> (#[trigger] successors(adj, v)).len() == 0,
    ensures
        topo_order(adj, n) == Seq::new(n as nat, |i: int| (n - 1 - i) as usize),
        n <= 1 ==> topo_order(adj, n) == Seq::new(n as nat, |i: int| i as usize),
{
    lemma_scan_edgeless(adj, n, n as nat);
    assert(topo_order(adj, n) =~= Seq::new(n as nat, |i: int| (n - 1 - i) as usize));
    assert(Seq::new(n as nat, |i: int| (n - 1 - i) as usize) =~= Seq::new(
        n as nat,
        |i: int| i as usize,
    ) || n > 1);
}

} // verus!
