use vstd::prelude::*;
use crate::graph::successors;

verus! {

/// The number of vertices not yet marked as visited.
pub open spec fn unvisited_count(marks: Seq<bool>) -> nat
    decreases marks.len(),
{
    if marks.len() == 0 {
        0
    } else {
        unvisited_count(marks.drop_last()) + if marks.last() {
            0nat
        } else {
            1nat
        }
    }
}

/// Marking one unvisited vertex lowers the count by exactly one.
pub proof fn lemma_mark_one(marks: Seq<bool>, v: int)
    requires
        0 <= v < marks.len(),
        !marks[v],
    ensures
        unvisited_count(marks.update(v, true)) + 1 == unvisited_count(marks),
    decreases marks.len(),
{
    let m = marks.update(v, true);
    if v < marks.len() - 1 {
        lemma_mark_one(marks.drop_last(), v);
        assert(m.drop_last() =~= marks.drop_last().update(v, true));
    } else {
        assert(m.drop_last() =~= marks.drop_last());
    }
}

/// Marking more vertices never raises the count.
pub proof fn lemma_more_marks(a: Seq<bool>, b: Seq<bool>)
    requires
        a.len() == b.len(),
        forall|i: int| 0 <= i < a.len() && #[trigger] a[i] ==> b[i],
    ensures
        unvisited_count(b) <= unvisited_count(a),
    decreases a.len(),
{
    if a.len() > 0 {
        lemma_more_marks(a.drop_last(), b.drop_last());
    }
}

/// With every vertex marked the count is zero; with none marked it is the
/// number of vertices.
pub proof fn lemma_count_extremes(marks: Seq<bool>)
    ensures
        (forall|i: int| 0 <= i < marks.len() ==> marks[i]) ==> unvisited_count(marks) == 0,
        (forall|i: int| 0 <= i < marks.len() ==> !marks[i]) ==> unvisited_count(marks)
            == marks.len(),
    decreases marks.len(),
{
    if marks.len() > 0 {
        lemma_count_extremes(marks.drop_last());
    }
}

#[via_fn]
proof fn visit_decreases(
    adj: Map<usize, Seq<usize>>,
    v: usize,
    marks: Seq<bool>,
    finished: Seq<usize>,
) {
    if v < marks.len() && !marks[v as int] {
        lemma_mark_one(marks, v as int);
    } else if v < marks.len() {
        assert(marks.update(v as int, true) =~= marks);
    }
}

/// One depth-first visit of `v`: mark it, explore its successors in order,
/// then append it to the finish sequence. Returns the new marks and the new
/// finish sequence.
pub open spec fn visit(
    adj: Map<usize, Seq<usize>>,
    v: usize,
    marks: Seq<bool>,
    finished: Seq<usize>,
) -> (Seq<bool>, Seq<usize>)
    decreases
            unvisited_count(marks),
            if v < marks.len() && marks[v as int] {
                2nat
            } else {
                0nat
            },
            0int,
    via visit_decreases
{
    if v < marks.len() {
        let after = explore(adj, v, 0, marks.update(v as int, true), finished);
        (after.0, after.1.push(v))
    } else {
        (marks, finished)
    }
}

/// Explores the successors of `v` from position `i` on: each one that is not
/// yet marked is visited, in the order of the successor list.
///
/// A visit never unmarks a vertex (`lemma_visit_frame`), so the count test
/// below always passes; it keeps the recursion well founded.
pub open spec fn explore(
    adj: Map<usize, Seq<usize>>,
    v: usize,
    i: nat,
    marks: Seq<bool>,
    finished: Seq<usize>,
) -> (Seq<bool>, Seq<usize>)
    decreases unvisited_count(marks), 1nat, successors(adj, v).len() - i,
{
    if i < successors(adj, v).len() {
        let u = successors(adj, v)[i as int];
        let step = if u < marks.len() && !marks[u as int] {
            visit(adj, u, marks, finished)
        } else {
            (marks, finished)
        };
        if unvisited_count(step.0) <= unvisited_count(marks) {
            explore(adj, v, i + 1, step.0, step.1)
        } else {
            step
        }
    } else {
        (marks, finished)
    }
}

/// The traversal state after the outer scan has considered the vertices
/// `0..k`, starting from all `n` vertices unmarked and nothing finished.
pub open spec fn scan(adj: Map<usize, Seq<usize>>, n: usize, k: nat) -> (Seq<bool>, Seq<usize>)
    decreases k,
{
    if k == 0 {
        (Seq::new(n as nat, |i: int| false), Seq::empty())
    } else {
        let prev = scan(adj, n, (k - 1) as nat);
        let v = (k - 1) as usize;
        if (k - 1) < prev.0.len() && !prev.0[v as int] {
            visit(adj, v, prev.0, prev.1)
        } else {
            prev
        }
    }
}

/// The order produced for a graph on the vertices `0..n`: the finish
/// sequence of the whole scan, reversed.
pub open spec fn topo_order(adj: Map<usize, Seq<usize>>, n: usize) -> Seq<usize> {
    scan(adj, n, n as nat).1.reverse()
}

} // verus!
