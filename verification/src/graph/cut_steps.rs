//! The steps of the cut-vertex search preserve its invariant.

use vstd::prelude::*;

use crate::graph::bridge_steps::{
    advanced, lemma_advanced_shape, lemma_parent_arc, lemma_stack_ok_advance, lemma_top_facts,
    lemma_top_path, lemma_trees_get,
};
use crate::graph::bridges::{
    arcs_closed, lemma_tree_path_frame, on_stack, stack_ok, tree_path_ok, trees_ok,
};
use crate::graph::cuts::{
    ancestors, children_ok, cut_finished_ok, cut_lows_ok, lemma_ancestors, roots_ok,
};
use crate::graph::dfs::{frames_valid, stack_work, DfsFrame};
use crate::graph::walks::{
    edge_ends_fixed, has_arc, lemma_outside_append, lemma_outside_refl, lemma_outside_transitive,
    lemma_outside_weaken, reach_outside, undirected,
};
use crate::graph::{graph_wf, linked, Graph};

verus! {

/// A discovered arc target of the top lies in the top's tree.
#[verifier::spinoff_prover]
pub proof fn lemma_cut_target_same_tree(
    g: &Graph,
    disc: Seq<usize>,
    parent: Seq<Option<usize>>,
    tpath: Seq<Seq<int>>,
    tedges: Seq<Seq<int>>,
    low: Seq<usize>,
    cut: Seq<bool>,
    stack: Seq<DfsFrame>,
    i: int,
)
    requires
        graph_wf(g),
        undirected(g),
        trees_ok(g, disc, parent, tpath, tedges),
        stack_ok(g, disc, stack, tpath, tedges),
        cut_finished_ok(g, disc, low, cut, stack, tpath),
        0 <= i < g.adjacency@[stack.last().node as int]@.len(),
        disc[g.adjacency@[stack.last().node as int]@[i].to as int] != 0,
    ensures
        tpath[g.adjacency@[stack.last().node as int]@[i].to as int][0] == tpath[stack.last().node as int][0],
{
    let x = stack.last().node as int;
    let y = g.adjacency@[x]@[i].to as int;
    lemma_top_facts(g, disc, parent, tpath, tedges, stack);
    if on_stack(stack, y) {
        let k = choose|k: int| 0 <= k < stack.len() && (#[trigger] stack[k]).node == y;
        assert(stack[k].node == tpath[x][k]);
        reveal(tree_path_ok);
        assert(tpath[tpath[x][k]] == tpath[x].take(k + 1));
    } else {
        assert(has_arc(g, y, x, g.adjacency@[x]@[i].edge as int));
        let i2 = choose|i2: int|
            0 <= i2 < g.adjacency@[y]@.len() && (#[trigger] g.adjacency@[y]@[i2]).to == x
                && g.adjacency@[y]@[i2].edge == g.adjacency@[x]@[i].edge;
        reveal(cut_finished_ok);
        assert(arcs_closed(g, disc, tpath, y));
        reveal(arcs_closed);
        let _ = g.adjacency@[y]@[i2];
    }
}

/// The finished nodes are the same after advancing the top.
#[verifier::spinoff_prover]
pub proof fn lemma_cut_finished_advance(
    g: &Graph,
    disc: Seq<usize>,
    low: Seq<usize>,
    cut: Seq<bool>,
    stack: Seq<DfsFrame>,
    tpath: Seq<Seq<int>>,
)
    requires
        cut_finished_ok(g, disc, low, cut, stack, tpath),
        stack.len() > 0,
        frames_valid(g, stack),
        stack.last().next_arc < g.adjacency@[stack.last().node as int]@.len(),
        stack.last().next_arc < usize::MAX,
    ensures
        cut_finished_ok(g, disc, low, cut, advanced(stack), tpath),
{
    lemma_advanced_shape(g, stack);
    reveal(cut_finished_ok);
}

/// A back arc to a node discovered earlier improves the top's low link.
#[verifier::spinoff_prover]
pub proof fn lemma_cut_lows_back(
    g: &Graph,
    disc: Seq<usize>,
    parent: Seq<Option<usize>>,
    tpath: Seq<Seq<int>>,
    tedges: Seq<Seq<int>>,
    l0: Seq<usize>,
    l1: Seq<usize>,
    y0: Seq<int>,
    y1: Seq<int>,
    stack: Seq<DfsFrame>,
)
    requires
        graph_wf(g),
        disc.len() == g.adjacency@.len(),
        trees_ok(g, disc, parent, tpath, tedges),
        stack_ok(g, disc, stack, tpath, tedges),
        cut_lows_ok(g, disc, l0, y0, tpath),
        stack.last().next_arc < g.adjacency@[stack.last().node as int]@.len(),
        ({
            let x = stack.last().node as int;
            let y = g.adjacency@[x]@[stack.last().next_arc as int].to as int;
            &&& disc[y] != 0
            &&& tpath[y][0] == tpath[x][0]
            &&& disc[y] < l0[x]
            &&& l1 == l0.update(x, disc[y])
            &&& y1 == y0.update(x, y)
        }),
    ensures
        cut_lows_ok(g, disc, l1, y1, tpath),
{
    lemma_top_facts(g, disc, parent, tpath, tedges, stack);
    let x = stack.last().node as int;
    let i = stack.last().next_arc as int;
    let y = g.adjacency@[x]@[i].to as int;
    reveal(cut_lows_ok);
    assert(l0[x] <= disc[x]);
    lemma_ancestors(g, disc, tpath, tedges, x);
    lemma_outside_refl(g, ancestors(tpath, x), x);
    let _ = g.adjacency@[x]@[i];
    assert(linked(g, x, y));
    lemma_outside_append(g, ancestors(tpath, x), x, x, y);
}

/// Scanning the arc back along the top's own tree edge keeps the invariant.
#[verifier::spinoff_prover]
pub proof fn lemma_cut_scan_skip(
    g: &Graph,
    d: Seq<usize>,
    parent: Seq<Option<usize>>,
    t: Seq<Seq<int>>,
    e: Seq<Seq<int>>,
    low: Seq<usize>,
    cut: Seq<bool>,
    s0: Seq<DfsFrame>,
)
    requires
        graph_wf(g),
        edge_ends_fixed(g),
        d.len() == g.adjacency@.len(),
        trees_ok(g, d, parent, t, e),
        stack_ok(g, d, s0, t, e),
        cut_finished_ok(g, d, low, cut, s0, t),
        frames_valid(g, s0),
        s0.last().next_arc < g.adjacency@[s0.last().node as int]@.len(),
        s0.last().next_arc < usize::MAX,
        s0.last().parent_edge == Some(g.adjacency@[s0.last().node as int]@[s0.last().next_arc as int].edge),
    ensures
        stack_ok(g, d, advanced(s0), t, e),
        cut_finished_ok(g, d, low, cut, advanced(s0), t),
        frames_valid(g, advanced(s0)),
        stack_work(g, advanced(s0)) < stack_work(g, s0),
{
    lemma_top_facts(g, d, parent, t, e, s0);
    let x = s0.last().node as int;
    let i = s0.last().next_arc as int;
    let n0 = s0.len() as int;
    assert(n0 >= 2);
    let k = n0 - 1;
    assert(s0[k].parent_edge == Some(e[x][k - 1] as usize));
    lemma_trees_get(g, d, parent, t, e, x);
    assert(g.adjacency@[x]@[i].edge == e[x].last());
    lemma_parent_arc(g, d, parent, t, e, x, i);
    lemma_stack_ok_advance(g, d, t, e, s0);
    lemma_cut_finished_advance(g, d, low, cut, s0, t);
    lemma_advanced_shape(g, s0);
}

/// Scanning an arc to a node discovered earlier keeps the invariant, with or
/// without an improved low link.
#[verifier::spinoff_prover]
pub proof fn lemma_cut_scan_seen(
    g: &Graph,
    d: Seq<usize>,
    parent: Seq<Option<usize>>,
    t: Seq<Seq<int>>,
    e: Seq<Seq<int>>,
    l0: Seq<usize>,
    l1: Seq<usize>,
    y0: Seq<int>,
    y1: Seq<int>,
    cut: Seq<bool>,
    s0: Seq<DfsFrame>,
)
    requires
        graph_wf(g),
        undirected(g),
        d.len() == g.adjacency@.len(),
        l0.len() == d.len(),
        trees_ok(g, d, parent, t, e),
        stack_ok(g, d, s0, t, e),
        cut_finished_ok(g, d, l0, cut, s0, t),
        cut_lows_ok(g, d, l0, y0, t),
        frames_valid(g, s0),
        s0.last().next_arc < g.adjacency@[s0.last().node as int]@.len(),
        s0.last().next_arc < usize::MAX,
        ({
            let x = s0.last().node as int;
            let y = g.adjacency@[x]@[s0.last().next_arc as int].to as int;
            &&& d[y] != 0
            &&& ((l1 == l0 && y1 == y0) || (d[y] < l0[x] && l1 == l0.update(x, d[y]) && y1 == y0.update(x, y)))
        }),
    ensures
        stack_ok(g, d, advanced(s0), t, e),
        cut_finished_ok(g, d, l1, cut, advanced(s0), t),
        cut_lows_ok(g, d, l1, y1, t),
        frames_valid(g, advanced(s0)),
        stack_work(g, advanced(s0)) < stack_work(g, s0),
        l1.len() == l0.len(),
{
    lemma_top_facts(g, d, parent, t, e, s0);
    let x = s0.last().node as int;
    let i = s0.last().next_arc as int;
    lemma_cut_target_same_tree(g, d, parent, t, e, l0, cut, s0, i);
    lemma_stack_ok_advance(g, d, t, e, s0);
    lemma_advanced_shape(g, s0);
    if l1 != l0 {
        lemma_cut_lows_back(g, d, parent, t, e, l0, l1, y0, y1, s0);
        assert(on_stack(s0, x)) by {
            assert(s0[s0.len() - 1].node == x);
        }
        assert(cut_finished_ok(g, d, l1, cut, s0, t)) by {
            reveal(cut_finished_ok);
        }
    }
    lemma_cut_finished_advance(g, d, l1, cut, s0, t);
}

/// Discovering a child keeps every low-link witness.
#[verifier::spinoff_prover]
pub proof fn lemma_cut_push_lows(
    g: &Graph,
    d0: Seq<usize>,
    d1: Seq<usize>,
    t0: Seq<Seq<int>>,
    t1: Seq<Seq<int>>,
    l0: Seq<usize>,
    l1: Seq<usize>,
    y0: Seq<int>,
    y1: Seq<int>,
    x: int,
    c: int,
    clock: int,
)
    requires
        cut_lows_ok(g, d0, l0, y0, t0),
        d0.len() == g.adjacency@.len(),
        t0.len() == d0.len(),
        0 <= x < d0.len(),
        0 <= c < d0.len(),
        d0[c] == 0,
        clock <= usize::MAX,
        clock >= 1,
        d1 == d0.update(c, clock as usize),
        l1 == l0.update(c, clock as usize),
        y1 == y0.update(c, c),
        t1 == t0.update(c, t0[x].push(c)),
    ensures
        cut_lows_ok(g, d1, l1, y1, t1),
{
    reveal(cut_lows_ok);
    assert forall|z: int|
        0 <= z < g.adjacency@.len() && #[trigger] d1[z] != 0 implies {
            let y = y1[z];
            &&& 0 <= y < g.adjacency@.len()
            &&& d1[y] != 0
            &&& d1[y] == l1[z]
            &&& l1[z] <= d1[z]
            &&& t1[y][0] == t1[z][0]
            &&& reach_outside(g, ancestors(t1, z), z, y)
        } by {
        if z == c {
            lemma_outside_refl(g, ancestors(t1, c), c);
        } else {
            assert(d0[z] != 0);
            let y = y0[z];
            assert(d0[y] != 0);
            assert(y != c);
            assert(ancestors(t1, z) == ancestors(t0, z));
        }
    }
}

/// Discovering a child finishes no node and keeps the finished nodes' facts.
#[verifier::spinoff_prover]
pub proof fn lemma_cut_push_finished(
    g: &Graph,
    d0: Seq<usize>,
    d1: Seq<usize>,
    parent0: Seq<Option<usize>>,
    l0: Seq<usize>,
    l1: Seq<usize>,
    cut: Seq<bool>,
    s0: Seq<DfsFrame>,
    s1: Seq<DfsFrame>,
    t0: Seq<Seq<int>>,
    t1: Seq<Seq<int>>,
    e0: Seq<Seq<int>>,
    c: int,
)
    requires
        graph_wf(g),
        d0.len() == g.adjacency@.len(),
        cut_finished_ok(g, d0, l0, cut, s0, t0),
        trees_ok(g, d0, parent0, t0, e0),
        0 <= c < d0.len(),
        d0[c] == 0,
        d1.len() == d0.len(),
        l1.len() == l0.len(),
        forall|z: int| 0 <= z < d0.len() && z != c ==> #[trigger] d1[z] == d0[z],
        forall|z: int| 0 <= z < d0.len() && z != c ==> #[trigger] l1[z] == l0[z],
        forall|z: int| 0 <= z < d0.len() && z != c ==> #[trigger] t1[z] == t0[z],
        on_stack(s1, c),
        forall|z: int| on_stack(s0, z) ==> on_stack(s1, z),
    ensures
        cut_finished_ok(g, d1, l1, cut, s1, t1),
{
    reveal(cut_finished_ok);
    reveal(arcs_closed);
    reveal(trees_ok);
    assert forall|z: int|
        0 <= z < g.adjacency@.len() && #[trigger] d1[z] != 0 && !on_stack(s1, z) implies {
            &&& arcs_closed(g, d1, t1, z)
            &&& (t1[z].len() >= 2 && t1[t1[z][t1[z].len() - 2]].len() >= 2) ==> (cut[t1[z][t1[z].len() - 2]]
                || l1[z] < d1[t1[z][t1[z].len() - 2]])
        } by {
        assert(z != c);
        assert(d0[z] != 0);
        assert(!on_stack(s0, z));
        assert(arcs_closed(g, d0, t0, z));
        assert forall|i: int| 0 <= i < g.adjacency@[z]@.len() implies {
            let w = (#[trigger] g.adjacency@[z]@[i]).to as int;
            d1[w] != 0 && t1[w][0] == t1[z][0]
        } by {
            let w = g.adjacency@[z]@[i].to as int;
            assert(d0[w] != 0);
            assert(w != c);
        }
        if t1[z].len() >= 2 {
            assert(tree_path_ok(g, d0, t0, e0, z));
            reveal(tree_path_ok);
            let q = t0[z][t0[z].len() - 2];
            assert(d0[q] != 0);
            assert(q != c);
        }
    }
}

/// Counting a new tree child keeps the child counts right.
#[verifier::spinoff_prover]
pub proof fn lemma_cut_push_children(
    g: &Graph,
    p0: Seq<Option<usize>>,
    p1: Seq<Option<usize>>,
    k0: Seq<usize>,
    k1: Seq<usize>,
    x: int,
    c: int,
)
    requires
        children_ok(g, p0, k0),
        p0.len() == g.adjacency@.len(),
        forall|z: int| 0 <= z < p0.len() && (#[trigger] p0[z]) is Some ==> p0[z]->0 < g.adjacency@.len(),
        0 <= x < g.adjacency@.len(),
        0 <= c < g.adjacency@.len(),
        p0[c] is None,
        k0[x] < usize::MAX,
        p1 == p0.update(c, Some(x as usize)),
        k1 == k0.update(x, (k0[x] + 1) as usize),
    ensures
        children_ok(g, p1, k1),
{
    reveal(children_ok);
    let n = g.adjacency@.len();
    assert(g.adjacency.len() == g.adjacency@.len());
    assert forall|c1: int, c2: int|
        0 <= c1 < n && 0 <= c2 < n && (#[trigger] p1[c1]) is Some && #[trigger] p1[c2] == p1[c1] implies {
            &&& k1[p1[c1]->0 as int] >= 1
            &&& k1[p1[c1]->0 as int] <= 1 ==> c1 == c2
        } by {
        let v = p1[c1]->0 as int;
        if c1 != c && c2 != c {
            assert(p0[c1] == p1[c1] && p0[c2] == p1[c2]);
        } else if c1 == c && c2 == c {
        } else {
            assert(v == x);
            let other = if c1 == c { c2 } else { c1 };
            assert(p0[other] == Some(x as usize));
            assert(p0[other] == p0[other]);
            assert(k0[x] >= 1);
        }
    }
    assert forall|v: int| 0 <= v < n && #[trigger] k1[v] >= 1 implies exists|c3: int|
        0 <= c3 < n && p1[c3] == Some(v as usize) by {
        if v == x {
            assert(p1[c] == Some(x as usize));
        } else {
            assert(k0[v] >= 1);
            let c3 = choose|c3: int| 0 <= c3 < n && p0[c3] == Some(v as usize);
            assert(c3 != c);
            assert(p1[c3] == p0[c3]);
        }
    }
    assert forall|v: int| 0 <= v < n && #[trigger] k1[v] >= 2 implies exists|c1: int, c2: int|
        0 <= c1 < n && 0 <= c2 < n && c1 != c2 && p1[c1] == Some(v as usize) && p1[c2] == Some(v as usize) by {
        if v == x {
            assert(k0[x] >= 1);
            let c3 = choose|c3: int| 0 <= c3 < n && p0[c3] == Some(x as usize);
            assert(c3 != c);
            assert(p1[c3] == p0[c3]);
            assert(p1[c] == Some(x as usize));
        } else {
            assert(k0[v] >= 2);
            let (c1, c2) = choose|c1: int, c2: int|
                0 <= c1 < n && 0 <= c2 < n && c1 != c2 && p0[c1] == Some(v as usize) && p0[c2] == Some(v as usize);
            assert(c1 != c && c2 != c);
            assert(p1[c1] == p0[c1] && p1[c2] == p0[c2]);
        }
    }
}

/// Discovering a child leaves every other tree root as it was.
#[verifier::spinoff_prover]
pub proof fn lemma_cut_push_roots(
    g: &Graph,
    d0: Seq<usize>,
    d1: Seq<usize>,
    t0: Seq<Seq<int>>,
    t1: Seq<Seq<int>>,
    e0: Seq<Seq<int>>,
    cut: Seq<bool>,
    k0: Seq<usize>,
    k1: Seq<usize>,
    x: int,
    c: int,
    r: int,
)
    requires
        roots_ok(g, d0, t0, cut, k0, r),
        tree_path_ok(g, d0, t0, e0, x),
        t0[x][0] == r,
        d0.len() == g.adjacency@.len(),
        t0.len() == d0.len(),
        k0.len() == d0.len(),
        0 <= x < d0.len(),
        0 <= c < d0.len(),
        d0[c] == 0,
        d1.len() == d0.len(),
        forall|z: int| 0 <= z < d0.len() && z != c ==> #[trigger] d1[z] == d0[z],
        t1 == t0.update(c, t0[x].push(c)),
        k1 == k0.update(x, k1[x]),
    ensures
        roots_ok(g, d1, t1, cut, k1, r),
{
    reveal(tree_path_ok);
    assert(t0[x].len() == 1 ==> x == r);
    assert(d0[t0[x][t0[x].len() - 1]] != 0);
    assert(x != c);
    assert forall|z: int|
        0 <= z < g.adjacency@.len() && #[trigger] d1[z] != 0 && t1[z].len() == 1 && z != r implies cut[z]
            || k1[z] <= 1 by {
        if z == c {
            assert(t1[c].len() == t0[x].len() + 1);
        } else {
            assert(d0[z] != 0);
            if z == x {
                assert(t0[x].len() == 1);
            }
        }
    }
}

/// Popping a child passes its low link to its parent.
#[verifier::spinoff_prover]
pub proof fn lemma_cut_pop_lows(
    g: &Graph,
    d: Seq<usize>,
    parent: Seq<Option<usize>>,
    t: Seq<Seq<int>>,
    e: Seq<Seq<int>>,
    l0: Seq<usize>,
    l1: Seq<usize>,
    y0: Seq<int>,
    y1: Seq<int>,
    s0: Seq<DfsFrame>,
)
    requires
        graph_wf(g),
        d.len() == g.adjacency@.len(),
        t.len() == d.len(),
        e.len() == d.len(),
        trees_ok(g, d, parent, t, e),
        cut_lows_ok(g, d, l0, y0, t),
        stack_ok(g, d, s0, t, e),
        s0.len() >= 2,
        ({
            let v = s0.last().node as int;
            let p = t[v][s0.len() - 2];
            if l0[v] < l0[p] {
                l1 == l0.update(p, l0[v]) && y1 == y0.update(p, y0[v])
            } else {
                l1 == l0 && y1 == y0
            }
        }),
    ensures
        cut_lows_ok(g, d, l1, y1, t),
{
    lemma_top_path(g, d, parent, t, e, s0);
    lemma_top_facts(g, d, parent, t, e, s0);
    let v = s0.last().node as int;
    let n0 = s0.len() as int;
    let p = t[v][n0 - 2];
    if l0[v] < l0[p] {
        reveal(cut_lows_ok);
        let y = y0[v];
        let ap = ancestors(t, p);
        lemma_ancestors(g, d, t, e, p);
        let i = choose|i: int|
            0 <= i < g.adjacency@[p]@.len() && (#[trigger] g.adjacency@[p]@[i]).to == v
                && g.adjacency@[p]@[i].edge == e[v][n0 - 2];
        let _ = g.adjacency@[p]@[i];
        assert(linked(g, p, v));
        lemma_outside_refl(g, ap, p);
        lemma_outside_append(g, ap, p, p, v);
        assert(ap.subset_of(ancestors(t, v))) by {
            assert forall|z: int| ap.contains(z) implies ancestors(t, v).contains(z) by {
                let j = choose|j: int| 0 <= j < t[p].drop_last().len() && t[p].drop_last()[j] == z;
                assert(t[v].drop_last()[j] == z);
            }
        }
        lemma_outside_weaken(g, ancestors(t, v), ap, v, y);
        assert(!ap.contains(v)) by {
            if ap.contains(v) {
                let j = choose|j: int| 0 <= j < t[p].drop_last().len() && t[p].drop_last()[j] == v;
                assert(t[p][j] == v);
            }
        }
        lemma_outside_transitive(g, ap, p, v, y);
        assert(t[y][0] == t[v][0]);
        assert(t[v][0] == t[p][0]);
    }
}

/// Popping a node finishes it: its arcs are closed, and its non-root parent is
/// flagged unless its low link reaches above that parent.
#[verifier::spinoff_prover]
pub proof fn lemma_cut_pop_finished(
    g: &Graph,
    d: Seq<usize>,
    parent: Seq<Option<usize>>,
    t: Seq<Seq<int>>,
    e: Seq<Seq<int>>,
    l0: Seq<usize>,
    l1: Seq<usize>,
    c0: Seq<bool>,
    c1: Seq<bool>,
    count: Seq<usize>,
    s0: Seq<DfsFrame>,
    r: int,
)
    requires
        graph_wf(g),
        d.len() == g.adjacency@.len(),
        t.len() == d.len(),
        e.len() == d.len(),
        l0.len() == d.len(),
        c0.len() == d.len(),
        trees_ok(g, d, parent, t, e),
        cut_finished_ok(g, d, l0, c0, s0, t),
        roots_ok(g, d, t, c0, count, r),
        stack_ok(g, d, s0, t, e),
        frames_valid(g, s0),
        s0.last().next_arc >= g.adjacency@[s0.last().node as int]@.len(),
        s0.len() >= 2 ==> ({
            let v = s0.last().node as int;
            let p = t[v][s0.len() - 2];
            &&& c1 == if t[p].len() >= 2 && l0[v] >= d[p] { c0.update(p, true) } else { c0 }
            &&& l1.len() == l0.len()
            &&& l1[v] == l0[v]
            &&& forall|z: int| 0 <= z < l0.len() && z != p ==> #[trigger] l1[z] == l0[z]
        }),
        s0.len() == 1 ==> c1 == c0 && l1 == l0,
    ensures
        cut_finished_ok(g, d, l1, c1, s0.drop_last(), t),
        roots_ok(g, d, t, c1, count, r),
        c1.len() == d.len(),
{
    lemma_top_facts(g, d, parent, t, e, s0);
    let v = s0.last().node as int;
    let n0 = s0.len() as int;
    let s1 = s0.drop_last();
    if n0 >= 2 {
        lemma_top_path(g, d, parent, t, e, s0);
    }
    assert(!on_stack(s1, v)) by {
        if on_stack(s1, v) {
            let k = choose|k: int| 0 <= k < s1.len() && (#[trigger] s1[k]).node == v;
            assert(s0[k] == s1[k]);
        }
    }
    let p = if n0 >= 2 { t[v][n0 - 2] } else { v };
    assert(n0 >= 2 ==> on_stack(s1, p)) by {
        if n0 >= 2 {
            reveal(stack_ok);
            assert(s0[n0 - 2].node == t[v][n0 - 2]);
            assert(s1[n0 - 2] == s0[n0 - 2]);
        }
    }
    assert forall|z: int| 0 <= z < c0.len() && #[trigger] c0[z] implies c1[z] by {
    }
    reveal(cut_finished_ok);
    assert(arcs_closed(g, d, t, v)) by {
        reveal(arcs_closed);
        reveal(stack_ok);
        assert forall|i: int| 0 <= i < g.adjacency@[v]@.len() implies {
            let y = (#[trigger] g.adjacency@[v]@[i]).to as int;
            d[y] != 0 && t[y][0] == t[v][0]
        } by {
            let k = n0 - 1;
            assert(s0[k].node == v);
            let _ = g.adjacency@[s0[k].node as int]@[i];
        }
    }
    assert forall|z: int|
        0 <= z < g.adjacency@.len() && #[trigger] d[z] != 0 && !on_stack(s1, z) implies {
            &&& arcs_closed(g, d, t, z)
            &&& (t[z].len() >= 2 && t[t[z][t[z].len() - 2]].len() >= 2) ==> (c1[t[z][t[z].len() - 2]] || l1[z]
                < d[t[z][t[z].len() - 2]])
        } by {
        if z == v {
            if n0 >= 2 {
                assert(t[v].len() == n0);
            } else {
                assert(t[v].len() == 1);
            }
        } else {
            assert(!on_stack(s0, z)) by {
                if on_stack(s0, z) {
                    let k = choose|k: int| 0 <= k < s0.len() && (#[trigger] s0[k]).node == z;
                    if k < n0 - 1 {
                        assert(s1[k] == s0[k]);
                    }
                }
            }
            lemma_trees_get(g, d, parent, t, e, z);
            if n0 >= 2 {
                assert(z != p);
            }
            if t[z].len() >= 2 {
                reveal(tree_path_ok);
                let q = t[z][t[z].len() - 2];
                assert(0 <= q < c0.len());
                assert(c0[q] ==> c1[q]);
            }
        }
    }
}

/// Starting a new tree at an undiscovered root keeps the invariant.
#[verifier::spinoff_prover]
pub proof fn lemma_cut_root_start(
    g: &Graph,
    d0: Seq<usize>,
    d1: Seq<usize>,
    parent: Seq<Option<usize>>,
    t0: Seq<Seq<int>>,
    t1: Seq<Seq<int>>,
    e0: Seq<Seq<int>>,
    e1: Seq<Seq<int>>,
    l0: Seq<usize>,
    l1: Seq<usize>,
    y0: Seq<int>,
    y1: Seq<int>,
    cut: Seq<bool>,
    count: Seq<usize>,
    s1: Seq<DfsFrame>,
    r: int,
    clock: int,
)
    requires
        graph_wf(g),
        d0.len() == g.adjacency@.len(),
        t0.len() == d0.len(),
        e0.len() == d0.len(),
        trees_ok(g, d0, parent, t0, e0),
        cut_lows_ok(g, d0, l0, y0, t0),
        cut_finished_ok(g, d0, l0, cut, Seq::<DfsFrame>::empty(), t0),
        roots_ok(g, d0, t0, cut, count, -1),
        0 <= r < d0.len(),
        d0[r] == 0,
        1 <= clock <= usize::MAX,
        forall|z: int| 0 <= z < d0.len() ==> #[trigger] d0[z] < clock,
        d1 == d0.update(r, clock as usize),
        l1 == l0.update(r, clock as usize),
        t1 == t0.update(r, seq![r]),
        e1 == e0.update(r, Seq::<int>::empty()),
        y1 == y0.update(r, r),
        s1 == seq![DfsFrame { node: r as usize, parent_edge: None, next_arc: 0 }],
    ensures
        trees_ok(g, d1, parent, t1, e1),
        cut_lows_ok(g, d1, l1, y1, t1),
        cut_finished_ok(g, d1, l1, cut, s1, t1),
        roots_ok(g, d1, t1, cut, count, r),
        stack_ok(g, d1, s1, t1, e1),
        frames_valid(g, s1),
{
    assert(tree_path_ok(g, d1, t1, e1, r)) by {
        reveal(tree_path_ok);
        assert(t1[r].take(1) =~= t1[r]);
        assert(e1[r].take(0) =~= e1[r]);
    }
    assert(trees_ok(g, d1, parent, t1, e1)) by {
        reveal(trees_ok);
        assert forall|x: int| 0 <= x < d1.len() && #[trigger] d1[x] != 0 implies tree_path_ok(g, d1, t1, e1, x) by {
            if x != r {
                assert(d0[x] != 0);
                lemma_tree_path_frame(g, d0, d1, t0, t1, e0, e1, x, r);
            }
        }
    }
    assert(l0.len() == d0.len()) by {
        reveal(cut_lows_ok);
    }
    assert(cut_lows_ok(g, d1, l1, y1, t1)) by {
        reveal(cut_lows_ok);
        lemma_outside_refl(g, ancestors(t1, r), r);
        assert forall|x: int| 0 <= x < g.adjacency@.len() && #[trigger] d1[x] != 0 implies {
            let y = y1[x];
            &&& 0 <= y < g.adjacency@.len()
            &&& d1[y] != 0
            &&& d1[y] == l1[x]
            &&& l1[x] <= d1[x]
            &&& t1[y][0] == t1[x][0]
            &&& reach_outside(g, ancestors(t1, x), x, y)
        } by {
            if x != r {
                assert(d0[x] != 0);
                assert(d0[y0[x]] != 0);
                assert(ancestors(t1, x) == ancestors(t0, x));
            }
        }
    }
    assert(g.adjacency.len() == g.adjacency@.len());
    assert(s1[0].node == r);
    assert(on_stack(s1, r));
    assert(cut_finished_ok(g, d1, l1, cut, s1, t1)) by {
        reveal(cut_finished_ok);
        reveal(arcs_closed);
        assert forall|x: int| 0 <= x < g.adjacency@.len() && #[trigger] d1[x] != 0 && !on_stack(s1, x) implies {
            &&& arcs_closed(g, d1, t1, x)
            &&& (t1[x].len() >= 2 && t1[t1[x][t1[x].len() - 2]].len() >= 2) ==> (cut[t1[x][t1[x].len() - 2]]
                || l1[x] < d1[t1[x][t1[x].len() - 2]])
        } by {
            assert(x != r);
            assert(d0[x] != 0);
            assert(!on_stack(Seq::<DfsFrame>::empty(), x));
            assert(arcs_closed(g, d0, t0, x));
            assert(t1[x] == t0[x] && l1[x] == l0[x]);
            assert forall|i: int| 0 <= i < g.adjacency@[x]@.len() implies {
                let y = (#[trigger] g.adjacency@[x]@[i]).to as int;
                d1[y] != 0 && t1[y][0] == t1[x][0]
            } by {
                let y = g.adjacency@[x]@[i].to as int;
                assert(d0[y] != 0);
            }
            if t1[x].len() >= 2 {
                reveal(trees_ok);
                assert(tree_path_ok(g, d0, t0, e0, x));
                reveal(tree_path_ok);
                assert(d0[t0[x][t0[x].len() - 2]] != 0);
            }
        }
    }
    assert(roots_ok(g, d1, t1, cut, count, r)) by {
        assert forall|x: int|
            0 <= x < g.adjacency@.len() && #[trigger] d1[x] != 0 && t1[x].len() == 1 && x != r implies cut[x]
                || count[x] <= 1 by {
            assert(d0[x] != 0);
        }
    }
    assert(stack_ok(g, d1, s1, t1, e1)) by {
        reveal(stack_ok);
    }
}

} // verus!
