//! Walks in an adjacency-list multigraph that avoid a set of edge ids or a
//! set of nodes, and the structural facts of undirected multigraphs that the
//! depth-first searches rely on.

use vstd::prelude::*;

use crate::graph::{graph_wf, linked, Graph};

verus! {

/// Node `a` has an arc to `b` carrying edge id `k`.
pub open spec fn has_arc(g: &Graph, a: int, b: int, k: int) -> bool {
    exists|i: int|
        0 <= i < g.adjacency@[a]@.len() && (#[trigger] g.adjacency@[a]@[i]).to == b
            && g.adjacency@[a]@[i].edge == k
}

/// Every arc has a reverse arc with the same edge id.
pub open spec fn undirected(g: &Graph) -> bool {
    forall|a: int, i: int|
        0 <= a < g.adjacency@.len() && 0 <= i < g.adjacency@[a]@.len() ==> has_arc(
            g,
            (#[trigger] g.adjacency@[a]@[i]).to as int,
            a,
            g.adjacency@[a]@[i].edge as int,
        )
}

/// Two arcs with the same edge id join the same two nodes.
pub open spec fn edge_ends_fixed(g: &Graph) -> bool {
    forall|a: int, i: int, b: int, j: int|
        #![trigger g.adjacency@[a]@[i], g.adjacency@[b]@[j]]
        0 <= a < g.adjacency@.len() && 0 <= i < g.adjacency@[a]@.len() && 0 <= b
            < g.adjacency@.len() && 0 <= j < g.adjacency@[b]@.len() && g.adjacency@[a]@[i].edge
            == g.adjacency@[b]@[j].edge ==> ((a == b && g.adjacency@[a]@[i].to
            == g.adjacency@[b]@[j].to) || (a == g.adjacency@[b]@[j].to && b
            == g.adjacency@[a]@[i].to))
}

/// One step from `a` to `b` along an arc whose edge id is not in `avoid`.
pub open spec fn step_avoiding(g: &Graph, avoid: Set<int>, a: int, b: int) -> bool {
    exists|i: int|
        0 <= i < g.adjacency@[a]@.len() && (#[trigger] g.adjacency@[a]@[i]).to == b
            && !avoid.contains(g.adjacency@[a]@[i].edge as int)
}

/// `p` is a walk of graph nodes whose steps avoid `avoid`.
pub open spec fn walk_avoiding(g: &Graph, avoid: Set<int>, p: Seq<int>) -> bool {
    &&& p.len() >= 1
    &&& forall|i: int| 0 <= i < p.len() ==> 0 <= #[trigger] p[i] < g.adjacency@.len()
    &&& forall|i: int| 0 <= i < p.len() - 1 ==> step_avoiding(g, avoid, #[trigger] p[i], p[i + 1])
}

/// `b` can be reached from `a` without using the edges in `avoid`.
pub open spec fn reach_avoiding(g: &Graph, avoid: Set<int>, a: int, b: int) -> bool {
    exists|p: Seq<int>| #[trigger] walk_avoiding(g, avoid, p) && p[0] == a && p.last() == b
}

/// Removing edge `e` leaves the two ends of each of its arcs connected.
pub open spec fn edge_not_bridge(g: &Graph, e: int) -> bool {
    forall|a: int, i: int|
        0 <= a < g.adjacency@.len() && 0 <= i < g.adjacency@[a]@.len() && (#[trigger] g.adjacency@[a]@[i]).edge
            == e ==> reach_avoiding(g, set![e], a, g.adjacency@[a]@[i].to as int)
}

pub proof fn lemma_reach_refl(g: &Graph, avoid: Set<int>, a: int)
    requires
        0 <= a < g.adjacency@.len(),
    ensures
        reach_avoiding(g, avoid, a, a),
{
    let p = seq![a];
    assert(walk_avoiding(g, avoid, p));
}

pub proof fn lemma_reach_step(g: &Graph, avoid: Set<int>, a: int, b: int, c: int)
    requires
        graph_wf(g),
        reach_avoiding(g, avoid, a, b),
        step_avoiding(g, avoid, b, c),
    ensures
        reach_avoiding(g, avoid, a, c),
{
    let p = choose|p: Seq<int>| #[trigger] walk_avoiding(g, avoid, p) && p[0] == a && p.last() == b;
    let i = choose|i: int|
        0 <= i < g.adjacency@[b]@.len() && (#[trigger] g.adjacency@[b]@[i]).to == c
            && !avoid.contains(g.adjacency@[b]@[i].edge as int);
    let q = p.push(c);
    assert forall|k: int| 0 <= k < q.len() implies 0 <= #[trigger] q[k] < g.adjacency@.len() by {
        if k < p.len() {
            assert(q[k] == p[k]);
        }
    }
    assert forall|k: int| 0 <= k < q.len() - 1 implies step_avoiding(g, avoid, #[trigger] q[k], q[k + 1]) by {
        if k < p.len() - 1 {
            assert(q[k] == p[k] && q[k + 1] == p[k + 1]);
        }
    }
    assert(walk_avoiding(g, avoid, q));
}

pub proof fn lemma_reach_transitive(g: &Graph, avoid: Set<int>, a: int, b: int, c: int)
    requires
        reach_avoiding(g, avoid, a, b),
        reach_avoiding(g, avoid, b, c),
    ensures
        reach_avoiding(g, avoid, a, c),
{
    let p = choose|p: Seq<int>| #[trigger] walk_avoiding(g, avoid, p) && p[0] == a && p.last() == b;
    let q = choose|q: Seq<int>| #[trigger] walk_avoiding(g, avoid, q) && q[0] == b && q.last() == c;
    let r = p + q.drop_first();
    assert forall|k: int| 0 <= k < r.len() implies 0 <= #[trigger] r[k] < g.adjacency@.len() by {
        if k < p.len() {
            assert(r[k] == p[k]);
        } else {
            assert(r[k] == q[k - p.len() + 1]);
        }
    }
    assert forall|k: int| 0 <= k < r.len() - 1 implies step_avoiding(g, avoid, #[trigger] r[k], r[k + 1]) by {
        if k < p.len() - 1 {
            assert(r[k] == p[k] && r[k + 1] == p[k + 1]);
        } else {
            let j = k - (p.len() - 1);
            assert(r[k] == q[j]);
            assert(r[k + 1] == q[j + 1]);
        }
    }
    assert(walk_avoiding(g, avoid, r));
}

/// Avoiding fewer edges keeps every walk.
pub proof fn lemma_reach_weaken(g: &Graph, avoid: Set<int>, fewer: Set<int>, a: int, b: int)
    requires
        reach_avoiding(g, avoid, a, b),
        fewer.subset_of(avoid),
    ensures
        reach_avoiding(g, fewer, a, b),
{
    let p = choose|p: Seq<int>| #[trigger] walk_avoiding(g, avoid, p) && p[0] == a && p.last() == b;
    assert forall|k: int| 0 <= k < p.len() - 1 implies step_avoiding(g, fewer, #[trigger] p[k], p[k + 1]) by {
        assert(step_avoiding(g, avoid, p[k], p[k + 1]));
        let i = choose|i: int|
            0 <= i < g.adjacency@[p[k]]@.len() && (#[trigger] g.adjacency@[p[k]]@[i]).to == p[k + 1]
                && !avoid.contains(g.adjacency@[p[k]]@[i].edge as int);
    }
    assert(walk_avoiding(g, fewer, p));
}

/// In an undirected graph every walk can be walked back.
pub proof fn lemma_reach_symmetric(g: &Graph, avoid: Set<int>, a: int, b: int)
    requires
        graph_wf(g),
        undirected(g),
        reach_avoiding(g, avoid, a, b),
    ensures
        reach_avoiding(g, avoid, b, a),
{
    let p = choose|p: Seq<int>| #[trigger] walk_avoiding(g, avoid, p) && p[0] == a && p.last() == b;
    let q = p.reverse();
    assert forall|k: int| 0 <= k < q.len() implies 0 <= #[trigger] q[k] < g.adjacency@.len() by {
        assert(q[k] == p[p.len() - 1 - k]);
    }
    assert forall|k: int| 0 <= k < q.len() - 1 implies step_avoiding(g, avoid, #[trigger] q[k], q[k + 1]) by {
        let j = p.len() - 2 - k;
        assert(q[k] == p[j + 1]);
        assert(q[k + 1] == p[j]);
        assert(step_avoiding(g, avoid, p[j], p[j + 1]));
        let x = p[j];
        let i = choose|i: int|
            0 <= i < g.adjacency@[x]@.len() && (#[trigger] g.adjacency@[x]@[i]).to == p[j + 1]
                && !avoid.contains(g.adjacency@[x]@[i].edge as int);
        let _ = p[j];
        assert(has_arc(g, p[j + 1], x, g.adjacency@[x]@[i].edge as int));
        let i2 = choose|i2: int|
            0 <= i2 < g.adjacency@[p[j + 1]]@.len() && (#[trigger] g.adjacency@[p[j + 1]]@[i2]).to == x
                && g.adjacency@[p[j + 1]]@[i2].edge == g.adjacency@[x]@[i].edge;
        assert(step_avoiding(g, avoid, p[j + 1], x));
    }
    assert(walk_avoiding(g, avoid, q));
}

/// `p` is a walk along arcs whose nodes, all but the last, lie outside `s`.
pub open spec fn walk_outside(g: &Graph, s: Set<int>, p: Seq<int>) -> bool {
    &&& p.len() >= 1
    &&& forall|i: int| 0 <= i < p.len() ==> 0 <= #[trigger] p[i] < g.adjacency@.len()
    &&& forall|i: int| 0 <= i < p.len() - 1 ==> linked(g, #[trigger] p[i], p[i + 1]) && !s.contains(p[i])
}

/// `b` is reached from `a` by a walk that enters `s` at most at its end.
pub open spec fn reach_outside(g: &Graph, s: Set<int>, a: int, b: int) -> bool {
    exists|p: Seq<int>| #[trigger] walk_outside(g, s, p) && p[0] == a && p.last() == b
}

/// Removing node `v` leaves every two of its other neighbours connected.
pub open spec fn not_cut_vertex(g: &Graph, v: int) -> bool {
    forall|i: int, j: int|
        0 <= i < g.adjacency@[v]@.len() && 0 <= j < g.adjacency@[v]@.len() && g.adjacency@[v]@[i].to != v
            && g.adjacency@[v]@[j].to != v ==> reach_outside(
            g,
            set![v],
            (#[trigger] g.adjacency@[v]@[i]).to as int,
            (#[trigger] g.adjacency@[v]@[j]).to as int,
        )
}

pub proof fn lemma_outside_refl(g: &Graph, s: Set<int>, a: int)
    requires
        0 <= a < g.adjacency@.len(),
    ensures
        reach_outside(g, s, a, a),
{
    let p = seq![a];
    assert(walk_outside(g, s, p));
}

/// A walk extended by one arc out of its last node, which lies outside `s`.
pub proof fn lemma_outside_append(g: &Graph, s: Set<int>, a: int, b: int, c: int)
    requires
        graph_wf(g),
        reach_outside(g, s, a, b),
        !s.contains(b),
        linked(g, b, c),
    ensures
        reach_outside(g, s, a, c),
{
    let p = choose|p: Seq<int>| #[trigger] walk_outside(g, s, p) && p[0] == a && p.last() == b;
    let i = choose|i: int| 0 <= i < g.adjacency@[b]@.len() && #[trigger] g.adjacency@[b]@[i].to == c;
    let _ = g.adjacency@[b]@[i];
    let q = p.push(c);
    assert forall|k: int| 0 <= k < q.len() implies 0 <= #[trigger] q[k] < g.adjacency@.len() by {
        if k < p.len() {
            assert(q[k] == p[k]);
        }
    }
    assert forall|k: int| 0 <= k < q.len() - 1 implies linked(g, #[trigger] q[k], q[k + 1]) && !s.contains(q[k]) by {
        if k < p.len() - 1 {
            assert(q[k] == p[k] && q[k + 1] == p[k + 1]);
        } else {
            assert(q[k] == b && q[k + 1] == c);
        }
    }
    assert(walk_outside(g, s, q));
}

/// Two walks joined at a node outside `s`.
pub proof fn lemma_outside_transitive(g: &Graph, s: Set<int>, a: int, b: int, c: int)
    requires
        reach_outside(g, s, a, b),
        !s.contains(b),
        reach_outside(g, s, b, c),
    ensures
        reach_outside(g, s, a, c),
{
    let p = choose|p: Seq<int>| #[trigger] walk_outside(g, s, p) && p[0] == a && p.last() == b;
    let q = choose|q: Seq<int>| #[trigger] walk_outside(g, s, q) && q[0] == b && q.last() == c;
    let r = p + q.drop_first();
    assert forall|k: int| 0 <= k < r.len() implies 0 <= #[trigger] r[k] < g.adjacency@.len() by {
        if k < p.len() {
            assert(r[k] == p[k]);
        } else {
            assert(r[k] == q[k - p.len() + 1]);
        }
    }
    assert forall|k: int| 0 <= k < r.len() - 1 implies linked(g, #[trigger] r[k], r[k + 1]) && !s.contains(r[k]) by {
        if k < p.len() - 1 {
            assert(r[k] == p[k] && r[k + 1] == p[k + 1]);
        } else {
            let j = k - (p.len() - 1);
            assert(r[k] == q[j]);
            assert(r[k + 1] == q[j + 1]);
        }
    }
    assert(walk_outside(g, s, r));
}

/// Staying outside a larger set stays outside a smaller one.
pub proof fn lemma_outside_weaken(g: &Graph, s: Set<int>, fewer: Set<int>, a: int, b: int)
    requires
        reach_outside(g, s, a, b),
        fewer.subset_of(s),
    ensures
        reach_outside(g, fewer, a, b),
{
    let p = choose|p: Seq<int>| #[trigger] walk_outside(g, s, p) && p[0] == a && p.last() == b;
    assert forall|k: int| 0 <= k < p.len() - 1 implies linked(g, #[trigger] p[k], p[k + 1]) && !fewer.contains(p[k]) by {
        assert(linked(g, p[k], p[k + 1]) && !s.contains(p[k]));
    }
    assert(walk_outside(g, fewer, p));
}

/// In an undirected graph a walk between two nodes outside `s` can be walked back.
pub proof fn lemma_outside_symmetric(g: &Graph, s: Set<int>, a: int, b: int)
    requires
        graph_wf(g),
        undirected(g),
        reach_outside(g, s, a, b),
        !s.contains(b),
    ensures
        reach_outside(g, s, b, a),
{
    let p = choose|p: Seq<int>| #[trigger] walk_outside(g, s, p) && p[0] == a && p.last() == b;
    let q = p.reverse();
    assert forall|k: int| 0 <= k < q.len() implies 0 <= #[trigger] q[k] < g.adjacency@.len() by {
        assert(q[k] == p[p.len() - 1 - k]);
    }
    assert forall|k: int| 0 <= k < q.len() - 1 implies linked(g, #[trigger] q[k], q[k + 1]) && !s.contains(q[k]) by {
        let j = p.len() - 2 - k;
        assert(q[k] == p[j + 1]);
        assert(q[k + 1] == p[j]);
        assert(linked(g, p[j], p[j + 1]) && !s.contains(p[j]));
        if j + 1 < p.len() - 1 {
            assert(linked(g, p[j + 1], p[j + 2]) && !s.contains(p[j + 1]));
        }
        let x = p[j];
        let i = choose|i: int| 0 <= i < g.adjacency@[x]@.len() && #[trigger] g.adjacency@[x]@[i].to == p[j + 1];
        let _ = g.adjacency@[x]@[i];
        assert(has_arc(g, p[j + 1], x, g.adjacency@[x]@[i].edge as int));
        let i2 = choose|i2: int|
            0 <= i2 < g.adjacency@[p[j + 1]]@.len() && (#[trigger] g.adjacency@[p[j + 1]]@[i2]).to == x
                && g.adjacency@[p[j + 1]]@[i2].edge == g.adjacency@[x]@[i].edge;
        let _ = g.adjacency@[p[j + 1]]@[i2];
    }
    assert(walk_outside(g, s, q));
}

} // verus!
