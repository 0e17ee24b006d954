//! The steps of the bridge search preserve its invariant.

use vstd::prelude::*;

use crate::graph::bridges::{
    arcs_closed, finished_ok, lemma_edge_not_parent, lemma_edge_off_path, lemma_tree_path_frame,
    lemma_tree_up, lows_ok, on_stack, stack_ok, tree_path_ok, trees_ok,
};
use crate::graph::dfs::{frames_valid, stack_work, DfsFrame};
use crate::graph::walks::{
    edge_ends_fixed, edge_not_bridge, has_arc, lemma_reach_refl, lemma_reach_step,
    lemma_reach_symmetric, lemma_reach_transitive, lemma_reach_weaken, reach_avoiding,
    step_avoiding, undirected,
};
use crate::graph::{graph_wf, Graph};

verus! {

/// The top frame with its next arc marked scanned.
pub open spec fn advanced(stack: Seq<DfsFrame>) -> Seq<DfsFrame> {
    let f = stack.last();
    stack.update(
        stack.len() - 1,
        DfsFrame { node: f.node, parent_edge: f.parent_edge, next_arc: (f.next_arc + 1) as usize },
    )
}

/// Advancing the top frame keeps the frames valid and the nodes on the stack,
/// and leaves less work.
#[verifier::spinoff_prover]
pub proof fn lemma_advanced_shape(g: &Graph, stack: Seq<DfsFrame>)
    requires
        stack.len() > 0,
        frames_valid(g, stack),
        stack.last().next_arc < g.adjacency@[stack.last().node as int]@.len(),
        stack.last().next_arc < usize::MAX,
    ensures
        frames_valid(g, advanced(stack)),
        stack_work(g, advanced(stack)) < stack_work(g, stack),
        advanced(stack).len() == stack.len(),
        advanced(stack).last().next_arc == stack.last().next_arc + 1,
        forall|k: int| 0 <= k < stack.len() ==> (#[trigger] advanced(stack)[k]).node == stack[k].node
            && advanced(stack)[k].parent_edge == stack[k].parent_edge,
        forall|k: int| 0 <= k < stack.len() - 1 ==> (#[trigger] advanced(stack)[k]).next_arc == stack[k].next_arc,
        forall|x: int| on_stack(advanced(stack), x) <==> on_stack(stack, x),
{
    let a = advanced(stack);
    assert(a.drop_last() =~= stack.drop_last());
    assert(a.last().next_arc == stack.last().next_arc + 1);
    assert(stack_work(g, a) == stack_work(g, stack) - 1);
    assert forall|k: int| 0 <= k < a.len() implies {
        &&& (#[trigger] a[k]).node < g.adjacency@.len()
        &&& a[k].next_arc <= g.adjacency@[a[k].node as int]@.len()
    } by {
        let _ = stack[k];
    }
    assert forall|x: int| on_stack(a, x) <==> on_stack(stack, x) by {
        if on_stack(a, x) {
            let k = choose|k: int| 0 <= k < a.len() && (#[trigger] a[k]).node == x;
            assert(stack[k].node == x);
        }
        if on_stack(stack, x) {
            let k = choose|k: int| 0 <= k < stack.len() && (#[trigger] stack[k]).node == x;
            assert(a[k].node == x);
        }
    }
}

/// What the stack invariant says of the top node.
#[verifier::spinoff_prover]
pub proof fn lemma_top_facts(
    g: &Graph,
    disc: Seq<usize>,
    parent: Seq<Option<usize>>,
    tpath: Seq<Seq<int>>,
    tedges: Seq<Seq<int>>,
    stack: Seq<DfsFrame>,
)
    requires
        trees_ok(g, disc, parent, tpath, tedges),
        stack_ok(g, disc, stack, tpath, tedges),
    ensures
        stack.len() >= 1,
        0 <= stack.last().node < g.adjacency@.len(),
        disc[stack.last().node as int] != 0,
        tree_path_ok(g, disc, tpath, tedges, stack.last().node as int),
        tpath[stack.last().node as int].len() == stack.len(),
        forall|k: int| 0 <= k < stack.len() ==> (#[trigger] stack[k]).node == tpath[stack.last().node as int][k],
        stack[0].parent_edge is None,
        forall|k: int|
            0 < k < stack.len() ==> (#[trigger] stack[k]).parent_edge == Some(
                tedges[stack.last().node as int][k - 1] as usize,
            ),
        parent[stack.last().node as int] == if stack.len() >= 2 {
            Some(tpath[stack.last().node as int][stack.len() - 2] as usize)
        } else {
            None::<usize>
        },
{
    reveal(stack_ok);
    reveal(trees_ok);
    let x = stack.last().node as int;
    assert(disc[x] != 0);
}

/// The arc of `x` that carries its tree edge leads back to its tree parent.
#[verifier::spinoff_prover]
pub proof fn lemma_parent_arc(
    g: &Graph,
    disc: Seq<usize>,
    parent: Seq<Option<usize>>,
    tpath: Seq<Seq<int>>,
    tedges: Seq<Seq<int>>,
    x: int,
    i: int,
)
    requires
        graph_wf(g),
        edge_ends_fixed(g),
        trees_ok(g, disc, parent, tpath, tedges),
        0 <= x < g.adjacency@.len(),
        disc[x] != 0,
        tpath[x].len() >= 2,
        0 <= i < g.adjacency@[x]@.len(),
        g.adjacency@[x]@[i].edge == tedges[x].last(),
    ensures
        g.adjacency@[x]@[i].to == tpath[x][tpath[x].len() - 2],
        disc[tpath[x][tpath[x].len() - 2]] != 0,
        tpath[tpath[x][tpath[x].len() - 2]][0] == tpath[x][0],
{
    reveal(trees_ok);
    assert(tree_path_ok(g, disc, tpath, tedges, x));
    reveal(tree_path_ok);
    let p = tpath[x];
    let t = tedges[x];
    let j = p.len() - 2;
    assert(has_arc(g, p[j], p[j + 1], t[j]));
    let i1 = choose|i1: int|
        0 <= i1 < g.adjacency@[p[j]]@.len() && (#[trigger] g.adjacency@[p[j]]@[i1]).to == p[j + 1]
            && g.adjacency@[p[j]]@[i1].edge == t[j];
    let _ = g.adjacency@[p[j]]@[i1];
    let _ = g.adjacency@[x]@[i];
    assert(p[j + 1] == x);
    assert(disc[p[j]] < disc[p[j + 1]]);
    assert(tpath[p[j]] == p.take(j + 1));
}

/// A discovered arc target of the top lies in the top's tree.
#[verifier::spinoff_prover]
pub proof fn lemma_target_same_tree(
    g: &Graph,
    disc: Seq<usize>,
    parent: Seq<Option<usize>>,
    tpath: Seq<Seq<int>>,
    tedges: Seq<Seq<int>>,
    low: Seq<usize>,
    bridge: Seq<bool>,
    stack: Seq<DfsFrame>,
    i: int,
)
    requires
        graph_wf(g),
        undirected(g),
        trees_ok(g, disc, parent, tpath, tedges),
        stack_ok(g, disc, stack, tpath, tedges),
        finished_ok(g, disc, low, bridge, stack, tpath, tedges),
        0 <= i < g.adjacency@[stack.last().node as int]@.len(),
        disc[g.adjacency@[stack.last().node as int]@[i].to as int] != 0,
    ensures
        tpath[g.adjacency@[stack.last().node as int]@[i].to as int][0] == tpath[stack.last().node as int][0],
{
    let x = stack.last().node as int;
    let y = g.adjacency@[x]@[i].to as int;
    lemma_top_facts(g, disc, parent, tpath, tedges, stack);
    if on_stack(stack, y) {
        let k = choose|k: int| 0 <= k < stack.len() && (#[trigger] stack[k]).node == y;
        assert(stack[k].node == tpath[x][k]);
        reveal(tree_path_ok);
        assert(tpath[tpath[x][k]] == tpath[x].take(k + 1));
    } else {
        assert(has_arc(g, y, x, g.adjacency@[x]@[i].edge as int));
        let i2 = choose|i2: int|
            0 <= i2 < g.adjacency@[y]@.len() && (#[trigger] g.adjacency@[y]@[i2]).to == x
                && g.adjacency@[y]@[i2].edge == g.adjacency@[x]@[i].edge;
        reveal(finished_ok);
        assert(arcs_closed(g, disc, tpath, y));
        reveal(arcs_closed);
        let _ = g.adjacency@[y]@[i2];
    }
}

/// Marking the top's next arc scanned keeps the stack invariant when its
/// target is discovered in the same tree.
#[verifier::spinoff_prover]
pub proof fn lemma_stack_ok_advance(
    g: &Graph,
    disc: Seq<usize>,
    tpath: Seq<Seq<int>>,
    tedges: Seq<Seq<int>>,
    stack: Seq<DfsFrame>,
)
    requires
        stack_ok(g, disc, stack, tpath, tedges),
        stack.len() > 0,
        frames_valid(g, stack),
        stack.last().next_arc < g.adjacency@[stack.last().node as int]@.len(),
        stack.last().next_arc < usize::MAX,
        ({
            let y = g.adjacency@[stack.last().node as int]@[stack.last().next_arc as int].to as int;
            disc[y] != 0 && tpath[y][0] == tpath[stack.last().node as int][0]
        }),
    ensures
        stack_ok(g, disc, advanced(stack), tpath, tedges),
{
    lemma_advanced_shape(g, stack);
    reveal(stack_ok);
    let a = advanced(stack);
    let t = stack.len() - 1;
    assert(a.last().node == stack.last().node);
    assert forall|k: int, i: int|
        0 <= k < a.len() && 0 <= i < a[k].next_arc implies {
            let z = (#[trigger] g.adjacency@[a[k].node as int]@[i]).to as int;
            disc[z] != 0 && tpath[z][0] == tpath[a.last().node as int][0]
        } by {
        if k == t && i == stack.last().next_arc {
        } else {
            assert(a[k].node == stack[k].node);
            let _ = g.adjacency@[stack[k].node as int]@[i];
        }
    }
}

/// The finished nodes are the same after advancing the top.
#[verifier::spinoff_prover]
pub proof fn lemma_finished_advance(
    g: &Graph,
    disc: Seq<usize>,
    low: Seq<usize>,
    bridge: Seq<bool>,
    stack: Seq<DfsFrame>,
    tpath: Seq<Seq<int>>,
    tedges: Seq<Seq<int>>,
)
    requires
        finished_ok(g, disc, low, bridge, stack, tpath, tedges),
        stack.len() > 0,
        frames_valid(g, stack),
        stack.last().next_arc < g.adjacency@[stack.last().node as int]@.len(),
        stack.last().next_arc < usize::MAX,
    ensures
        finished_ok(g, disc, low, bridge, advanced(stack), tpath, tedges),
{
    lemma_advanced_shape(g, stack);
    reveal(finished_ok);
}

/// Changing the low link of a node on the stack keeps the finished nodes' facts.
#[verifier::spinoff_prover]
pub proof fn lemma_finished_low_on_stack(
    g: &Graph,
    disc: Seq<usize>,
    l0: Seq<usize>,
    l1: Seq<usize>,
    bridge: Seq<bool>,
    stack: Seq<DfsFrame>,
    tpath: Seq<Seq<int>>,
    tedges: Seq<Seq<int>>,
    x: int,
)
    requires
        finished_ok(g, disc, l0, bridge, stack, tpath, tedges),
        on_stack(stack, x),
        l1.len() == l0.len(),
        l0.len() == g.adjacency@.len(),
        forall|z: int| 0 <= z < l0.len() && z != x ==> #[trigger] l1[z] == l0[z],
    ensures
        finished_ok(g, disc, l1, bridge, stack, tpath, tedges),
{
    reveal(finished_ok);
}

/// A back arc to a node discovered earlier improves the top's low link.
#[verifier::spinoff_prover]
pub proof fn lemma_lows_back(
    g: &Graph,
    disc: Seq<usize>,
    parent: Seq<Option<usize>>,
    tpath: Seq<Seq<int>>,
    tedges: Seq<Seq<int>>,
    l0: Seq<usize>,
    l1: Seq<usize>,
    y0: Seq<int>,
    y1: Seq<int>,
    stack: Seq<DfsFrame>,
)
    requires
        graph_wf(g),
        edge_ends_fixed(g),
        disc.len() == g.adjacency@.len(),
        trees_ok(g, disc, parent, tpath, tedges),
        stack_ok(g, disc, stack, tpath, tedges),
        lows_ok(g, disc, l0, y0, tpath, tedges),
        stack.last().next_arc < g.adjacency@[stack.last().node as int]@.len(),
        ({
            let x = stack.last().node as int;
            let arc = g.adjacency@[x]@[stack.last().next_arc as int];
            let y = arc.to as int;
            &&& stack.last().parent_edge != Some(arc.edge)
            &&& disc[y] != 0
            &&& tpath[y][0] == tpath[x][0]
            &&& disc[y] < l0[x]
            &&& l1 == l0.update(x, disc[y])
            &&& y1 == y0.update(x, y)
        }),
    ensures
        lows_ok(g, disc, l1, y1, tpath, tedges),
{
    lemma_top_facts(g, disc, parent, tpath, tedges, stack);
    let x = stack.last().node as int;
    let i = stack.last().next_arc as int;
    let arc = g.adjacency@[x]@[i];
    let y = arc.to as int;
    reveal(lows_ok);
    assert(l0[x] <= disc[x]);
    assert(has_arc(g, x, y, arc.edge as int));
    assert(tedges[x].len() == 0 || arc.edge != tedges[x].last()) by {
        reveal(tree_path_ok);
        if tedges[x].len() > 0 {
            let t = stack.len() - 1;
            assert(stack[t].parent_edge == Some(tedges[x][t - 1] as usize));
        }
    }
    lemma_edge_not_parent(g, disc, tpath, tedges, x, y, arc.edge as int);
    assert(step_avoiding(g, tedges[x].to_set(), x, y));
    lemma_reach_refl(g, tedges[x].to_set(), x);
    lemma_reach_step(g, tedges[x].to_set(), x, x, y);
}

/// The tree path of a newly discovered child extends its parent's.
#[verifier::spinoff_prover]
pub proof fn lemma_push_tree(
    g: &Graph,
    d0: Seq<usize>,
    d1: Seq<usize>,
    t0: Seq<Seq<int>>,
    t1: Seq<Seq<int>>,
    e0: Seq<Seq<int>>,
    e1: Seq<Seq<int>>,
    x: int,
    c: int,
    k: int,
    clock: int,
)
    requires
        tree_path_ok(g, d0, t0, e0, x),
        t0.len() == d0.len(),
        e0.len() == d0.len(),
        0 <= x < d0.len(),
        0 <= c < d0.len(),
        d0[c] == 0,
        has_arc(g, x, c, k),
        forall|z: int| 0 <= z < d0.len() ==> #[trigger] d0[z] < clock,
        d1 == d0.update(c, clock as usize),
        clock <= usize::MAX,
        t1 == t0.update(c, t0[x].push(c)),
        e1 == e0.update(c, e0[x].push(k)),
    ensures
        tree_path_ok(g, d1, t1, e1, c),
{
    reveal(tree_path_ok);
    let p0 = t0[x];
    let p = t1[c];
    let t = e1[c];
    assert(p == p0.push(c));
    assert(p.last() == c);
    assert forall|j: int| 0 <= j < p0.len() implies #[trigger] p0[j] != c by {
        assert(d0[p0[j]] != 0);
    }
    assert forall|j: int| 0 <= j < p.len() implies 0 <= #[trigger] p[j] < d1.len() && d1[p[j]] != 0 by {
        if j < p0.len() {
            assert(p[j] == p0[j]);
        }
    }
    assert forall|j: int| 0 <= j < p.len() - 1 implies has_arc(g, #[trigger] p[j], p[j + 1], t[j]) by {
        if j < p0.len() - 1 {
            assert(p[j] == p0[j] && p[j + 1] == p0[j + 1] && t[j] == e0[x][j]);
        } else {
            assert(p[j] == x && p[j + 1] == c && t[j] == k);
        }
    }
    assert forall|j: int, l: int| 0 <= j < l < p.len() implies d1[#[trigger] p[j]] < d1[#[trigger] p[l]] by {
        assert(p[j] == p0[j]);
        if l < p0.len() {
            assert(p[l] == p0[l]);
        }
    }
    assert forall|j: int| 0 <= j < p.len() implies t1[#[trigger] p[j]] == p.take(j + 1) && e1[p[j]] == t.take(j) by {
        if j < p0.len() {
            assert(p[j] == p0[j]);
            assert(t1[p0[j]] == t0[p0[j]]);
            assert(p.take(j + 1) =~= p0.take(j + 1));
            assert(t.take(j) =~= e0[x].take(j));
        } else {
            assert(p.take(j + 1) =~= p);
            assert(t.take(j) =~= t);
        }
    }
}

/// Discovering a child keeps every tree path and parent link.
#[verifier::spinoff_prover]
pub proof fn lemma_push_trees(
    g: &Graph,
    d0: Seq<usize>,
    d1: Seq<usize>,
    parent0: Seq<Option<usize>>,
    parent1: Seq<Option<usize>>,
    t0: Seq<Seq<int>>,
    t1: Seq<Seq<int>>,
    e0: Seq<Seq<int>>,
    e1: Seq<Seq<int>>,
    x: int,
    c: int,
    k: int,
    clock: int,
)
    requires
        trees_ok(g, d0, parent0, t0, e0),
        0 <= x < d0.len(),
        d0[x] != 0,
        0 <= c < d0.len(),
        d0[c] == 0,
        has_arc(g, x, c, k),
        forall|z: int| 0 <= z < d0.len() ==> #[trigger] d0[z] < clock,
        clock <= usize::MAX,
        d1 == d0.update(c, clock as usize),
        parent1 == parent0.update(c, Some(x as usize)),
        t1 == t0.update(c, t0[x].push(c)),
        e1 == e0.update(c, e0[x].push(k)),
    ensures
        trees_ok(g, d1, parent1, t1, e1),
        tree_path_ok(g, d1, t1, e1, c),
{
    reveal(trees_ok);
    assert(tree_path_ok(g, d0, t0, e0, x));
    lemma_push_tree(g, d0, d1, t0, t1, e0, e1, x, c, k, clock);
    assert forall|z: int| 0 <= z < d1.len() && #[trigger] d1[z] != 0 implies tree_path_ok(g, d1, t1, e1, z) by {
        if z != c {
            assert(d0[z] != 0);
            assert(tree_path_ok(g, d0, t0, e0, z));
            lemma_tree_path_frame(g, d0, d1, t0, t1, e0, e1, z, c);
        }
    }
    assert forall|z: int|
        0 <= z < d1.len() && d1[z] != 0 implies #[trigger] parent1[z] == if t1[z].len() >= 2 {
            Some(t1[z][t1[z].len() - 2] as usize)
        } else {
            None::<usize>
        } by {
        if z == c {
            reveal(tree_path_ok);
            assert(t1[c] == t0[x].push(c));
            assert(t0[x].last() == x);
        }
    }
}

/// Discovering a child keeps every low-link witness.
#[verifier::spinoff_prover]
pub proof fn lemma_push_lows(
    g: &Graph,
    d0: Seq<usize>,
    d1: Seq<usize>,
    t0: Seq<Seq<int>>,
    t1: Seq<Seq<int>>,
    e0: Seq<Seq<int>>,
    e1: Seq<Seq<int>>,
    l0: Seq<usize>,
    l1: Seq<usize>,
    y0: Seq<int>,
    y1: Seq<int>,
    x: int,
    c: int,
    k: int,
    clock: int,
)
    requires
        lows_ok(g, d0, l0, y0, t0, e0),
        d0.len() == g.adjacency@.len(),
        t0.len() == d0.len(),
        e0.len() == d0.len(),
        0 <= x < d0.len(),
        d0[x] != 0,
        0 <= c < d0.len(),
        d0[c] == 0,
        clock <= usize::MAX,
        clock >= 1,
        d1 == d0.update(c, clock as usize),
        l1 == l0.update(c, clock as usize),
        y1 == y0.update(c, c),
        t1 == t0.update(c, t0[x].push(c)),
        e1 == e0.update(c, e0[x].push(k)),
        t0[x].len() >= 1,
    ensures
        lows_ok(g, d1, l1, y1, t1, e1),
{
    reveal(lows_ok);
    assert forall|z: int|
        0 <= z < g.adjacency@.len() && #[trigger] d1[z] != 0 implies {
            let y = y1[z];
            &&& 0 <= y < g.adjacency@.len()
            &&& d1[y] != 0
            &&& d1[y] == l1[z]
            &&& l1[z] <= d1[z]
            &&& t1[y][0] == t1[z][0]
            &&& reach_avoiding(g, e1[z].to_set(), z, y)
        } by {
        if z == c {
            lemma_reach_refl(g, e1[c].to_set(), c);
        } else {
            assert(d0[z] != 0);
            let y = y0[z];
            assert(d0[y] != 0);
            assert(y != c);
        }
    }
}

/// Discovering a child finishes no node and keeps the finished nodes' facts.
#[verifier::spinoff_prover]
pub proof fn lemma_push_finished(
    g: &Graph,
    d0: Seq<usize>,
    d1: Seq<usize>,
    parent0: Seq<Option<usize>>,
    l0: Seq<usize>,
    l1: Seq<usize>,
    bridge: Seq<bool>,
    s0: Seq<DfsFrame>,
    s1: Seq<DfsFrame>,
    t0: Seq<Seq<int>>,
    t1: Seq<Seq<int>>,
    e0: Seq<Seq<int>>,
    e1: Seq<Seq<int>>,
    c: int,
)
    requires
        graph_wf(g),
        d0.len() == g.adjacency@.len(),
        finished_ok(g, d0, l0, bridge, s0, t0, e0),
        trees_ok(g, d0, parent0, t0, e0),
        0 <= c < d0.len(),
        d0[c] == 0,
        d1.len() == d0.len(),
        l1.len() == l0.len(),
        forall|z: int| 0 <= z < d0.len() && z != c ==> #[trigger] d1[z] == d0[z],
        forall|z: int| 0 <= z < d0.len() && z != c ==> #[trigger] l1[z] == l0[z],
        forall|z: int| 0 <= z < d0.len() && z != c ==> #[trigger] t1[z] == t0[z],
        forall|z: int| 0 <= z < d0.len() && z != c ==> #[trigger] e1[z] == e0[z],
        on_stack(s1, c),
        forall|z: int| on_stack(s0, z) ==> on_stack(s1, z),
    ensures
        finished_ok(g, d1, l1, bridge, s1, t1, e1),
{
    reveal(finished_ok);
    reveal(arcs_closed);
    reveal(trees_ok);
    assert forall|z: int|
        0 <= z < g.adjacency@.len() && #[trigger] d1[z] != 0 && !on_stack(s1, z) implies {
            &&& arcs_closed(g, d1, t1, z)
            &&& t1[z].len() >= 2 ==> (bridge[e1[z].last()] || l1[z] <= d1[t1[z][t1[z].len() - 2]])
        } by {
        assert(z != c);
        assert(d0[z] != 0);
        assert(!on_stack(s0, z));
        assert(arcs_closed(g, d0, t0, z));
        assert forall|i: int| 0 <= i < g.adjacency@[z]@.len() implies {
            let w = (#[trigger] g.adjacency@[z]@[i]).to as int;
            d1[w] != 0 && t1[w][0] == t1[z][0]
        } by {
            let w = g.adjacency@[z]@[i].to as int;
            assert(d0[w] != 0);
            assert(w != c);
        }
        if t1[z].len() >= 2 {
            assert(tree_path_ok(g, d0, t0, e0, z));
            reveal(tree_path_ok);
            let q = t0[z][t0[z].len() - 2];
            assert(d0[q] != 0);
            assert(q != c);
        }
    }
}

/// An undiscovered node is on no tree path.
#[verifier::spinoff_prover]
pub proof fn lemma_path_avoids(g: &Graph, d: Seq<usize>, t: Seq<Seq<int>>, e: Seq<Seq<int>>, x: int, c: int)
    requires
        tree_path_ok(g, d, t, e, x),
        0 <= c < d.len(),
        d[c] == 0,
    ensures
        forall|j: int| 0 <= j < t[x].len() ==> #[trigger] t[x][j] != c,
        t[x].len() >= 1,
        t[x].last() == x,
        e[x].len() == t[x].len() - 1,
{
    reveal(tree_path_ok);
    assert forall|j: int| 0 <= j < t[x].len() implies #[trigger] t[x][j] != c by {
        assert(d[t[x][j]] != 0);
    }
}

/// Discovering a child through the top's next arc pushes a frame that keeps
/// the stack invariant.
#[verifier::rlimit(50)]
#[verifier::spinoff_prover]
pub proof fn lemma_push_stack(
    g: &Graph,
    d0: Seq<usize>,
    d1: Seq<usize>,
    parent0: Seq<Option<usize>>,
    t0: Seq<Seq<int>>,
    t1: Seq<Seq<int>>,
    e0: Seq<Seq<int>>,
    e1: Seq<Seq<int>>,
    s0: Seq<DfsFrame>,
    s1: Seq<DfsFrame>,
)
    requires
        graph_wf(g),
        d0.len() == g.adjacency@.len(),
        t0.len() == d0.len(),
        e0.len() == d0.len(),
        trees_ok(g, d0, parent0, t0, e0),
        stack_ok(g, d0, s0, t0, e0),
        frames_valid(g, s0),
        s0.last().next_arc < g.adjacency@[s0.last().node as int]@.len(),
        s0.last().next_arc < usize::MAX,
        ({
            let x = s0.last().node as int;
            let arc = g.adjacency@[x]@[s0.last().next_arc as int];
            let c = arc.to as int;
            &&& d0[c] == 0
            &&& d1 == d0.update(c, d1[c])
            &&& d1[c] != 0
            &&& t1 == t0.update(c, t0[x].push(c))
            &&& e1 == e0.update(c, e0[x].push(arc.edge as int))
            &&& s1 == advanced(s0).push(DfsFrame { node: arc.to, parent_edge: Some(arc.edge), next_arc: 0 })
        }),
    ensures
        stack_ok(g, d1, s1, t1, e1),
        frames_valid(g, s1),
        on_stack(s1, g.adjacency@[s0.last().node as int]@[s0.last().next_arc as int].to as int),
        forall|z: int| on_stack(s0, z) ==> on_stack(s1, z),
        stack_work(g, advanced(s0)) < stack_work(g, s0),
{
    lemma_top_facts(g, d0, parent0, t0, e0, s0);
    lemma_advanced_shape(g, s0);
    let x = s0.last().node as int;
    let ai = s0.last().next_arc as int;
    let arc = g.adjacency@[x]@[ai];
    let c = arc.to as int;
    let a = advanced(s0);
    let n0 = s0.len() as int;
    assert(0 <= c < g.adjacency@.len());
    assert(s1[n0].node == c);
    assert(s1.last().node as int == c);
    lemma_path_avoids(g, d0, t0, e0, x, c);
    reveal(stack_ok);
    assert(t1[c] == t0[x].push(c));
    assert(e1[c] == e0[x].push(arc.edge as int));
    assert forall|k: int| 0 <= k < s1.len() implies (#[trigger] s1[k]).node == t1[c][k] by {
        if k < n0 {
            assert(s1[k] == a[k]);
            assert(a[k].node == s0[k].node);
        }
    }
    assert forall|k: int| 0 < k < s1.len() implies (#[trigger] s1[k]).parent_edge == Some(e1[c][k - 1] as usize) by {
        if k < n0 {
            assert(s1[k] == a[k]);
            assert(a[k].parent_edge == s0[k].parent_edge);
            assert(e1[c][k - 1] == e0[x][k - 1]);
        } else {
            assert(e1[c][k - 1] == arc.edge as int);
        }
    }
    assert(s1[0].parent_edge is None) by {
        assert(s1[0] == a[0]);
    }
    assert forall|k: int, i: int|
        0 <= k < s1.len() && 0 <= i < s1[k].next_arc implies {
            let z = (#[trigger] g.adjacency@[s1[k].node as int]@[i]).to as int;
            d1[z] != 0 && t1[z][0] == t1[s1.last().node as int][0]
        } by {
        assert(k < n0);
        assert(s1[k] == a[k]);
        let z = g.adjacency@[s1[k].node as int]@[i].to as int;
        if k == n0 - 1 && i == ai {
            assert(z == c);
        } else {
            assert(a[k].node == s0[k].node);
            if k < n0 - 1 {
                assert(a[k].next_arc == s0[k].next_arc);
            }
            let _ = g.adjacency@[s0[k].node as int]@[i];
            assert(d0[z] != 0);
            assert(z != c);
            assert(t1[z] == t0[z]);
            assert(t1[c][0] == t0[x][0]);
        }
    }
    assert(stack_ok(g, d1, s1, t1, e1));
    assert forall|k: int| 0 <= k < s1.len() implies {
        &&& (#[trigger] s1[k]).node < g.adjacency@.len()
        &&& s1[k].next_arc <= g.adjacency@[s1[k].node as int]@.len()
    } by {
        if k < n0 {
            assert(s1[k] == a[k]);
        }
    }
    assert(on_stack(s1, c)) by {
        assert(s1[n0].node == c);
    }
    assert forall|z: int| on_stack(s0, z) implies on_stack(s1, z) by {
        let k = choose|k: int| 0 <= k < s0.len() && (#[trigger] s0[k]).node == z;
        assert(s1[k] == a[k]);
        assert(a[k].node == z);
    }
}

/// A discovered node's tree path and its length.
#[verifier::spinoff_prover]
pub proof fn lemma_trees_get(
    g: &Graph,
    d: Seq<usize>,
    parent: Seq<Option<usize>>,
    t: Seq<Seq<int>>,
    e: Seq<Seq<int>>,
    z: int,
)
    requires
        graph_wf(g),
        trees_ok(g, d, parent, t, e),
        0 <= z < g.adjacency@.len(),
        d[z] != 0,
    ensures
        tree_path_ok(g, d, t, e, z),
        d.len() == g.adjacency@.len(),
        t.len() == d.len(),
        e.len() == d.len(),
        t[z].len() >= 1,
        e[z].len() == t[z].len() - 1,
        t[z].last() == z,
        forall|j: int| 0 <= j < e[z].len() ==> 0 <= #[trigger] e[z][j] < g.edges,
{
    reveal(trees_ok);
    assert(tree_path_ok(g, d, t, e, z));
    reveal(tree_path_ok);
    assert forall|j: int| 0 <= j < e[z].len() implies 0 <= #[trigger] e[z][j] < g.edges by {
        assert(has_arc(g, t[z][j], t[z][j + 1], e[z][j]));
        let i = choose|i: int|
            0 <= i < g.adjacency@[t[z][j]]@.len() && (#[trigger] g.adjacency@[t[z][j]]@[i]).to == t[z][j + 1]
                && g.adjacency@[t[z][j]]@[i].edge == e[z][j];
        let _ = g.adjacency@[t[z][j]]@[i];
    }
}

/// The top's tree path is the stack, its nodes distinct and earlier than it.
#[verifier::spinoff_prover]
pub proof fn lemma_top_path(
    g: &Graph,
    d: Seq<usize>,
    parent: Seq<Option<usize>>,
    t: Seq<Seq<int>>,
    e: Seq<Seq<int>>,
    s0: Seq<DfsFrame>,
)
    requires
        graph_wf(g),
        d.len() == g.adjacency@.len(),
        t.len() == d.len(),
        e.len() == d.len(),
        trees_ok(g, d, parent, t, e),
        stack_ok(g, d, s0, t, e),
        s0.len() >= 2,
    ensures
        ({
            let v = s0.last().node as int;
            let n0 = s0.len() as int;
            let p = t[v][n0 - 2];
            &&& 0 <= p < d.len()
            &&& d[p] != 0
            &&& d[p] < d[v]
            &&& t[p] == t[v].take(n0 - 1)
            &&& e[p] == e[v].take(n0 - 2)
            &&& e[v].len() == n0 - 1
            &&& tree_path_ok(g, d, t, e, p)
            &&& has_arc(g, p, v, e[v][n0 - 2])
            &&& 0 <= e[v][n0 - 2] < g.edges
            &&& s0.last().parent_edge == Some(e[v][n0 - 2] as usize)
            &&& parent[v] == Some(p as usize)
            &&& forall|k: int| 0 <= k < n0 - 1 ==> (#[trigger] s0[k]).node != v
            &&& forall|j: int| 0 <= j < t[p].len() ==> #[trigger] t[p][j] != v
        }),
{
    lemma_top_facts(g, d, parent, t, e, s0);
    let v = s0.last().node as int;
    let n0 = s0.len() as int;
    reveal(tree_path_ok);
    let p = t[v][n0 - 2];
    assert(d[t[v][n0 - 2]] < d[t[v][n0 - 1]]);
    assert(t[v][n0 - 1] == v);
    assert(has_arc(g, t[v][n0 - 2], t[v][n0 - 1], e[v][n0 - 2]));
    let i = choose|i: int|
        0 <= i < g.adjacency@[p]@.len() && (#[trigger] g.adjacency@[p]@[i]).to == v
            && g.adjacency@[p]@[i].edge == e[v][n0 - 2];
    let _ = g.adjacency@[p]@[i];
    reveal(trees_ok);
    assert(tree_path_ok(g, d, t, e, p));
    assert forall|k: int| 0 <= k < n0 - 1 implies (#[trigger] s0[k]).node != v by {
        assert(s0[k].node == t[v][k]);
        assert(d[t[v][k]] < d[t[v][n0 - 1]]);
    }
    assert forall|j: int| 0 <= j < t[p].len() implies #[trigger] t[p][j] != v by {
        assert(t[p][j] == t[v][j]);
        assert(d[t[v][j]] < d[t[v][n0 - 1]]);
    }
}

/// Popping a child passes its low link to its parent.
#[verifier::spinoff_prover]
pub proof fn lemma_pop_lows(
    g: &Graph,
    d: Seq<usize>,
    parent: Seq<Option<usize>>,
    t: Seq<Seq<int>>,
    e: Seq<Seq<int>>,
    l0: Seq<usize>,
    l1: Seq<usize>,
    y0: Seq<int>,
    y1: Seq<int>,
    s0: Seq<DfsFrame>,
)
    requires
        graph_wf(g),
        edge_ends_fixed(g),
        d.len() == g.adjacency@.len(),
        t.len() == d.len(),
        e.len() == d.len(),
        trees_ok(g, d, parent, t, e),
        lows_ok(g, d, l0, y0, t, e),
        stack_ok(g, d, s0, t, e),
        s0.len() >= 2,
        ({
            let v = s0.last().node as int;
            let p = t[v][s0.len() - 2];
            if l0[v] < l0[p] {
                l1 == l0.update(p, l0[v]) && y1 == y0.update(p, y0[v])
            } else {
                l1 == l0 && y1 == y0
            }
        }),
    ensures
        lows_ok(g, d, l1, y1, t, e),
{
    lemma_top_path(g, d, parent, t, e, s0);
    lemma_top_facts(g, d, parent, t, e, s0);
    let v = s0.last().node as int;
    let n0 = s0.len() as int;
    let p = t[v][n0 - 2];
    if l0[v] < l0[p] {
        reveal(lows_ok);
        let y = y0[v];
        let pe = e[v][n0 - 2];
        lemma_edge_off_path(g, d, t, e, p, p, v, pe);
        let i = choose|i: int|
            0 <= i < g.adjacency@[p]@.len() && (#[trigger] g.adjacency@[p]@[i]).to == v
                && g.adjacency@[p]@[i].edge == pe;
        assert(step_avoiding(g, e[p].to_set(), p, v));
        lemma_reach_refl(g, e[p].to_set(), p);
        lemma_reach_step(g, e[p].to_set(), p, p, v);
        assert(e[p].to_set().subset_of(e[v].to_set())) by {
            assert forall|z: int| e[p].to_set().contains(z) implies e[v].to_set().contains(z) by {
                let j = choose|j: int| 0 <= j < e[p].len() && e[p][j] == z;
                assert(e[v][j] == z);
            }
        }
        lemma_reach_weaken(g, e[v].to_set(), e[p].to_set(), v, y);
        lemma_reach_transitive(g, e[p].to_set(), p, v, y);
        assert(t[y][0] == t[v][0]);
        assert(t[v][0] == t[p][0]);
    }
}

/// Popping a child keeps the stack invariant for the parent below it.
#[verifier::spinoff_prover]
pub proof fn lemma_pop_stack(
    g: &Graph,
    d: Seq<usize>,
    parent: Seq<Option<usize>>,
    t: Seq<Seq<int>>,
    e: Seq<Seq<int>>,
    s0: Seq<DfsFrame>,
)
    requires
        graph_wf(g),
        d.len() == g.adjacency@.len(),
        t.len() == d.len(),
        e.len() == d.len(),
        trees_ok(g, d, parent, t, e),
        stack_ok(g, d, s0, t, e),
        frames_valid(g, s0),
        s0.len() >= 2,
    ensures
        stack_ok(g, d, s0.drop_last(), t, e),
        frames_valid(g, s0.drop_last()),
        stack_work(g, s0.drop_last()) < stack_work(g, s0),
{
    lemma_top_path(g, d, parent, t, e, s0);
    lemma_top_facts(g, d, parent, t, e, s0);
    let v = s0.last().node as int;
    let n0 = s0.len() as int;
    let p = t[v][n0 - 2];
    let s1 = s0.drop_last();
    reveal(stack_ok);
    assert(s1.last().node == t[v][n0 - 2]);
    assert forall|k: int| 0 <= k < s1.len() implies (#[trigger] s1[k]).node == t[p][k] by {
        assert(s1[k] == s0[k]);
    }
    assert forall|k: int| 0 < k < s1.len() implies (#[trigger] s1[k]).parent_edge == Some(e[p][k - 1] as usize) by {
        assert(s1[k] == s0[k]);
    }
    assert forall|k: int, i: int|
        0 <= k < s1.len() && 0 <= i < s1[k].next_arc implies {
            let z = (#[trigger] g.adjacency@[s1[k].node as int]@[i]).to as int;
            d[z] != 0 && t[z][0] == t[s1.last().node as int][0]
        } by {
        assert(s1[k] == s0[k]);
        let _ = g.adjacency@[s0[k].node as int]@[i];
    }
    assert forall|k: int| 0 <= k < s1.len() implies {
        &&& (#[trigger] s1[k]).node < g.adjacency@.len()
        &&& s1[k].next_arc <= g.adjacency@[s1[k].node as int]@.len()
    } by {
        let _ = s0[k];
    }
    let _ = s0[n0 - 1];
    crate::graph::dfs::lemma_stack_work_nonneg(g, s1);
}

/// Popping a node finishes it: its arcs are closed and the tree edge into it
/// is flagged unless its low link reaches its parent.
#[verifier::spinoff_prover]
pub proof fn lemma_pop_finished(
    g: &Graph,
    d: Seq<usize>,
    parent: Seq<Option<usize>>,
    t: Seq<Seq<int>>,
    e: Seq<Seq<int>>,
    l0: Seq<usize>,
    l1: Seq<usize>,
    b0: Seq<bool>,
    b1: Seq<bool>,
    s0: Seq<DfsFrame>,
)
    requires
        graph_wf(g),
        d.len() == g.adjacency@.len(),
        t.len() == d.len(),
        e.len() == d.len(),
        l0.len() == d.len(),
        b0.len() == g.edges,
        trees_ok(g, d, parent, t, e),
        finished_ok(g, d, l0, b0, s0, t, e),
        stack_ok(g, d, s0, t, e),
        frames_valid(g, s0),
        s0.last().next_arc >= g.adjacency@[s0.last().node as int]@.len(),
        s0.len() >= 2 ==> ({
            let v = s0.last().node as int;
            let p = t[v][s0.len() - 2];
            &&& b1 == if l0[v] > d[p] { b0.update(e[v][s0.len() - 2], true) } else { b0 }
            &&& l1.len() == l0.len()
            &&& l1[v] == l0[v]
            &&& forall|z: int| 0 <= z < l0.len() && z != p ==> #[trigger] l1[z] == l0[z]
        }),
        s0.len() == 1 ==> b1 == b0 && l1 == l0,
    ensures
        finished_ok(g, d, l1, b1, s0.drop_last(), t, e),
        b1.len() == g.edges,
{
    lemma_top_facts(g, d, parent, t, e, s0);
    let v = s0.last().node as int;
    let n0 = s0.len() as int;
    let s1 = s0.drop_last();
    if n0 >= 2 {
        lemma_top_path(g, d, parent, t, e, s0);
    }
    assert(!on_stack(s1, v)) by {
        if on_stack(s1, v) {
            let k = choose|k: int| 0 <= k < s1.len() && (#[trigger] s1[k]).node == v;
            assert(s0[k] == s1[k]);
        }
    }
    assert forall|z: int| on_stack(s1, z) implies on_stack(s0, z) by {
        let k = choose|k: int| 0 <= k < s1.len() && (#[trigger] s1[k]).node == z;
        assert(s0[k] == s1[k]);
    }
    let p = if n0 >= 2 { t[v][n0 - 2] } else { v };
    assert(n0 >= 2 ==> on_stack(s1, p)) by {
        if n0 >= 2 {
            reveal(stack_ok);
            assert(s0[n0 - 2].node == t[v][n0 - 2]);
            assert(s1[n0 - 2] == s0[n0 - 2]);
        }
    }
    reveal(finished_ok);
    assert(arcs_closed(g, d, t, v)) by {
        reveal(arcs_closed);
        reveal(stack_ok);
        assert forall|i: int| 0 <= i < g.adjacency@[v]@.len() implies {
            let y = (#[trigger] g.adjacency@[v]@[i]).to as int;
            d[y] != 0 && t[y][0] == t[v][0]
        } by {
            let k = n0 - 1;
            assert(s0[k].node == v);
            let _ = g.adjacency@[s0[k].node as int]@[i];
        }
    }
    assert forall|z: int|
        0 <= z < g.adjacency@.len() && #[trigger] d[z] != 0 && !on_stack(s1, z) implies {
            &&& arcs_closed(g, d, t, z)
            &&& t[z].len() >= 2 ==> (b1[e[z].last()] || l1[z] <= d[t[z][t[z].len() - 2]])
        } by {
        if z == v {
            if n0 >= 2 {
                assert(t[v].len() == n0);
                assert(e[v].last() == e[v][n0 - 2]);
            } else {
                assert(t[v].len() == 1);
            }
        } else {
            assert(!on_stack(s0, z)) by {
                if on_stack(s0, z) {
                    let k = choose|k: int| 0 <= k < s0.len() && (#[trigger] s0[k]).node == z;
                    if k < n0 - 1 {
                        assert(s1[k] == s0[k]);
                    }
                }
            }
            lemma_trees_get(g, d, parent, t, e, z);
            if t[z].len() >= 2 && n0 >= 2 {
                assert(z != p);
                if l0[v] > d[p] {
                    let q = e[v][n0 - 2];
                    if e[z].last() == q {
                    } else {
                        assert(b1[e[z].last()] == b0[e[z].last()]);
                    }
                }
            }
        }
    }
}

/// Scanning the arc back along the top's own tree edge keeps the invariant.
#[verifier::spinoff_prover]
pub proof fn lemma_scan_skip(
    g: &Graph,
    d: Seq<usize>,
    parent: Seq<Option<usize>>,
    t: Seq<Seq<int>>,
    e: Seq<Seq<int>>,
    low: Seq<usize>,
    b: Seq<bool>,
    s0: Seq<DfsFrame>,
)
    requires
        graph_wf(g),
        edge_ends_fixed(g),
        d.len() == g.adjacency@.len(),
        trees_ok(g, d, parent, t, e),
        stack_ok(g, d, s0, t, e),
        finished_ok(g, d, low, b, s0, t, e),
        frames_valid(g, s0),
        s0.last().next_arc < g.adjacency@[s0.last().node as int]@.len(),
        s0.last().next_arc < usize::MAX,
        s0.last().parent_edge == Some(g.adjacency@[s0.last().node as int]@[s0.last().next_arc as int].edge),
    ensures
        stack_ok(g, d, advanced(s0), t, e),
        finished_ok(g, d, low, b, advanced(s0), t, e),
        frames_valid(g, advanced(s0)),
        stack_work(g, advanced(s0)) < stack_work(g, s0),
{
    lemma_top_facts(g, d, parent, t, e, s0);
    let x = s0.last().node as int;
    let i = s0.last().next_arc as int;
    let n0 = s0.len() as int;
    assert(n0 >= 2);
    let k = n0 - 1;
    assert(s0[k].parent_edge == Some(e[x][k - 1] as usize));
    lemma_trees_get(g, d, parent, t, e, x);
    assert(g.adjacency@[x]@[i].edge == e[x].last());
    lemma_parent_arc(g, d, parent, t, e, x, i);
    lemma_stack_ok_advance(g, d, t, e, s0);
    lemma_finished_advance(g, d, low, b, s0, t, e);
    lemma_advanced_shape(g, s0);
}

/// Scanning an arc to a node discovered earlier keeps the invariant, with or
/// without an improved low link.
#[verifier::spinoff_prover]
pub proof fn lemma_scan_seen(
    g: &Graph,
    d: Seq<usize>,
    parent: Seq<Option<usize>>,
    t: Seq<Seq<int>>,
    e: Seq<Seq<int>>,
    l0: Seq<usize>,
    l1: Seq<usize>,
    y0: Seq<int>,
    y1: Seq<int>,
    b: Seq<bool>,
    s0: Seq<DfsFrame>,
)
    requires
        graph_wf(g),
        undirected(g),
        edge_ends_fixed(g),
        d.len() == g.adjacency@.len(),
        l0.len() == d.len(),
        trees_ok(g, d, parent, t, e),
        stack_ok(g, d, s0, t, e),
        finished_ok(g, d, l0, b, s0, t, e),
        lows_ok(g, d, l0, y0, t, e),
        frames_valid(g, s0),
        s0.last().next_arc < g.adjacency@[s0.last().node as int]@.len(),
        s0.last().next_arc < usize::MAX,
        ({
            let x = s0.last().node as int;
            let arc = g.adjacency@[x]@[s0.last().next_arc as int];
            let y = arc.to as int;
            &&& s0.last().parent_edge != Some(arc.edge)
            &&& d[y] != 0
            &&& ((l1 == l0 && y1 == y0) || (d[y] < l0[x] && l1 == l0.update(x, d[y]) && y1 == y0.update(
                x,
                y,
            )))
        }),
    ensures
        stack_ok(g, d, advanced(s0), t, e),
        finished_ok(g, d, l1, b, advanced(s0), t, e),
        lows_ok(g, d, l1, y1, t, e),
        frames_valid(g, advanced(s0)),
        stack_work(g, advanced(s0)) < stack_work(g, s0),
        l1.len() == l0.len(),
{
    lemma_top_facts(g, d, parent, t, e, s0);
    let x = s0.last().node as int;
    let i = s0.last().next_arc as int;
    lemma_target_same_tree(g, d, parent, t, e, l0, b, s0, i);
    lemma_stack_ok_advance(g, d, t, e, s0);
    lemma_advanced_shape(g, s0);
    if l1 != l0 {
        lemma_lows_back(g, d, parent, t, e, l0, l1, y0, y1, s0);
        assert(on_stack(s0, x)) by {
            assert(s0[s0.len() - 1].node == x);
        }
        lemma_finished_low_on_stack(g, d, l0, l1, b, s0, t, e, x);
    }
    lemma_finished_advance(g, d, l1, b, s0, t, e);
}

/// Starting a new tree at an undiscovered root keeps the invariant.
#[verifier::spinoff_prover]
pub proof fn lemma_root_start(
    g: &Graph,
    d0: Seq<usize>,
    d1: Seq<usize>,
    parent: Seq<Option<usize>>,
    t0: Seq<Seq<int>>,
    t1: Seq<Seq<int>>,
    e0: Seq<Seq<int>>,
    e1: Seq<Seq<int>>,
    l0: Seq<usize>,
    l1: Seq<usize>,
    y0: Seq<int>,
    y1: Seq<int>,
    b: Seq<bool>,
    s1: Seq<DfsFrame>,
    r: int,
    clock: int,
)
    requires
        graph_wf(g),
        d0.len() == g.adjacency@.len(),
        t0.len() == d0.len(),
        e0.len() == d0.len(),
        trees_ok(g, d0, parent, t0, e0),
        lows_ok(g, d0, l0, y0, t0, e0),
        finished_ok(g, d0, l0, b, Seq::<DfsFrame>::empty(), t0, e0),
        0 <= r < d0.len(),
        d0[r] == 0,
        1 <= clock <= usize::MAX,
        forall|z: int| 0 <= z < d0.len() ==> #[trigger] d0[z] < clock,
        d1 == d0.update(r, clock as usize),
        l1 == l0.update(r, clock as usize),
        t1 == t0.update(r, seq![r]),
        e1 == e0.update(r, Seq::<int>::empty()),
        y1 == y0.update(r, r),
        s1 == seq![DfsFrame { node: r as usize, parent_edge: None, next_arc: 0 }],
    ensures
        trees_ok(g, d1, parent, t1, e1),
        lows_ok(g, d1, l1, y1, t1, e1),
        finished_ok(g, d1, l1, b, s1, t1, e1),
        stack_ok(g, d1, s1, t1, e1),
        frames_valid(g, s1),
{
    assert(tree_path_ok(g, d1, t1, e1, r)) by {
        reveal(tree_path_ok);
        assert(t1[r].take(1) =~= t1[r]);
        assert(e1[r].take(0) =~= e1[r]);
    }
    assert(trees_ok(g, d1, parent, t1, e1)) by {
        reveal(trees_ok);
        assert forall|x: int| 0 <= x < d1.len() && #[trigger] d1[x] != 0 implies tree_path_ok(g, d1, t1, e1, x) by {
            if x != r {
                assert(d0[x] != 0);
                lemma_tree_path_frame(g, d0, d1, t0, t1, e0, e1, x, r);
            }
        }
    }
    assert(lows_ok(g, d1, l1, y1, t1, e1)) by {
        reveal(lows_ok);
        lemma_reach_refl(g, e1[r].to_set(), r);
        assert forall|x: int| 0 <= x < g.adjacency@.len() && #[trigger] d1[x] != 0 implies {
            let y = y1[x];
            &&& 0 <= y < g.adjacency@.len()
            &&& d1[y] != 0
            &&& d1[y] == l1[x]
            &&& l1[x] <= d1[x]
            &&& t1[y][0] == t1[x][0]
            &&& reach_avoiding(g, e1[x].to_set(), x, y)
        } by {
            if x != r {
                assert(d0[x] != 0);
                assert(d0[y0[x]] != 0);
            }
        }
    }
    assert(g.adjacency.len() == g.adjacency@.len());
    assert(l0.len() == d0.len()) by {
        reveal(lows_ok);
    }
    assert(s1[0].node == r);
    assert(on_stack(s1, r));
    assert(finished_ok(g, d1, l1, b, s1, t1, e1)) by {
        reveal(finished_ok);
        reveal(arcs_closed);
        assert forall|x: int| 0 <= x < g.adjacency@.len() && #[trigger] d1[x] != 0 && !on_stack(s1, x) implies {
            &&& arcs_closed(g, d1, t1, x)
            &&& t1[x].len() >= 2 ==> (b[e1[x].last()] || l1[x] <= d1[t1[x][t1[x].len() - 2]])
        } by {
            assert(x != r);
            assert(d0[x] != 0);
            assert(!on_stack(Seq::<DfsFrame>::empty(), x));
            assert(arcs_closed(g, d0, t0, x));
            assert(t1[x] == t0[x] && e1[x] == e0[x] && l1[x] == l0[x]);
            assert(arcs_closed(g, d1, t1, x));
            assert forall|i: int| 0 <= i < g.adjacency@[x]@.len() implies {
                let y = (#[trigger] g.adjacency@[x]@[i]).to as int;
                d1[y] != 0 && t1[y][0] == t1[x][0]
            } by {
                let y = g.adjacency@[x]@[i].to as int;
                assert(d0[y] != 0);
            }
            if t1[x].len() >= 2 {
                reveal(trees_ok);
                assert(tree_path_ok(g, d0, t0, e0, x));
                reveal(tree_path_ok);
                assert(d0[t0[x][t0[x].len() - 2]] != 0);
            }
        }
    }
    assert(stack_ok(g, d1, s1, t1, e1)) by {
        reveal(stack_ok);
    }
}

/// Along a tree path discovery times only grow, and each tree edge is the
/// edge into the next node.
#[verifier::spinoff_prover]
pub proof fn lemma_path_shape(
    g: &Graph,
    d: Seq<usize>,
    parent: Seq<Option<usize>>,
    t: Seq<Seq<int>>,
    e: Seq<Seq<int>>,
    x: int,
)
    requires
        graph_wf(g),
        trees_ok(g, d, parent, t, e),
        0 <= x < g.adjacency@.len(),
        d[x] != 0,
    ensures
        forall|j: int| 0 <= j < t[x].len() ==> d[#[trigger] t[x][j]] <= d[x],
        forall|j: int|
            0 <= j < e[x].len() ==> {
                let w = t[x][j + 1];
                &&& 0 <= w < g.adjacency@.len()
                &&& d[w] != 0
                &&& t[w].len() >= 2
                &&& #[trigger] e[x][j] == e[w].last()
            },
{
    lemma_trees_get(g, d, parent, t, e, x);
    reveal(tree_path_ok);
    let p = t[x];
    assert forall|j: int| 0 <= j < p.len() implies d[#[trigger] p[j]] <= d[x] by {
        if j < p.len() - 1 {
            assert(d[p[j]] < d[p[p.len() - 1]]);
        }
    }
    assert forall|j: int| 0 <= j < e[x].len() implies {
        let w = t[x][j + 1];
        &&& 0 <= w < g.adjacency@.len()
        &&& d[w] != 0
        &&& t[w].len() >= 2
        &&& #[trigger] e[x][j] == e[w].last()
    } by {
        let w = p[j + 1];
        assert(0 <= w < g.adjacency@.len());
        assert(d[w] != 0);
        assert(t[w] == p.take(j + 2));
        assert(e[w] == e[x].take(j + 1));
        assert(t[w].len() >= 2);
        assert(e[w].last() == e[x][j]);
    }
}

/// Every edge the search leaves unflagged lies on a cycle.
#[verifier::spinoff_prover]
pub proof fn lemma_unflagged_not_bridge(
    g: &Graph,
    d: Seq<usize>,
    parent: Seq<Option<usize>>,
    t: Seq<Seq<int>>,
    e: Seq<Seq<int>>,
    low: Seq<usize>,
    lowy: Seq<int>,
    b: Seq<bool>,
)
    requires
        graph_wf(g),
        undirected(g),
        edge_ends_fixed(g),
        d.len() == g.adjacency@.len(),
        t.len() == d.len(),
        e.len() == d.len(),
        b.len() == g.edges,
        trees_ok(g, d, parent, t, e),
        lows_ok(g, d, low, lowy, t, e),
        finished_ok(g, d, low, b, Seq::<DfsFrame>::empty(), t, e),
        forall|v: int| 0 <= v < g.adjacency@.len() && g.adjacency@[v]@.len() > 0 ==> #[trigger] d[v] != 0,
    ensures
        forall|q: int| 0 <= q < g.edges && !#[trigger] b[q] ==> edge_not_bridge(g, q),
{
    assert forall|q: int| 0 <= q < g.edges && !#[trigger] b[q] implies edge_not_bridge(g, q) by {
        assert forall|a: int, i: int|
            0 <= a < g.adjacency@.len() && 0 <= i < g.adjacency@[a]@.len() && (#[trigger] g.adjacency@[a]@[i]).edge
                == q implies reach_avoiding(g, set![q], a, g.adjacency@[a]@[i].to as int) by {
            lemma_unflagged_arc(g, d, parent, t, e, low, lowy, b, q, a, i);
        }
    }
}

#[verifier::rlimit(50)]
#[verifier::spinoff_prover]
proof fn lemma_unflagged_arc(
    g: &Graph,
    d: Seq<usize>,
    parent: Seq<Option<usize>>,
    t: Seq<Seq<int>>,
    e: Seq<Seq<int>>,
    low: Seq<usize>,
    lowy: Seq<int>,
    b: Seq<bool>,
    q: int,
    a: int,
    i: int,
)
    requires
        graph_wf(g),
        undirected(g),
        edge_ends_fixed(g),
        d.len() == g.adjacency@.len(),
        t.len() == d.len(),
        e.len() == d.len(),
        b.len() == g.edges,
        trees_ok(g, d, parent, t, e),
        lows_ok(g, d, low, lowy, t, e),
        finished_ok(g, d, low, b, Seq::<DfsFrame>::empty(), t, e),
        forall|v: int| 0 <= v < g.adjacency@.len() && g.adjacency@[v]@.len() > 0 ==> #[trigger] d[v] != 0,
        0 <= q < g.edges,
        !b[q],
        0 <= a < g.adjacency@.len(),
        0 <= i < g.adjacency@[a]@.len(),
        g.adjacency@[a]@[i].edge == q,
    ensures
        reach_avoiding(g, set![q], a, g.adjacency@[a]@[i].to as int),
{
    let c = g.adjacency@[a]@[i].to as int;
    let avoid = set![q];
    assert(d[a] != 0);
    assert(!on_stack(Seq::<DfsFrame>::empty(), a));
    assert(arcs_closed(g, d, t, a)) by {
        reveal(finished_ok);
    }
    assert(d[c] != 0 && t[c][0] == t[a][0]) by {
        reveal(arcs_closed);
        let _ = g.adjacency@[a]@[i];
    }
    if exists|v: int| 0 <= v < g.adjacency@.len() && #[trigger] d[v] != 0 && t[v].len() >= 2 && e[v].last() == q {
        let v = choose|v: int| 0 <= v < g.adjacency@.len() && #[trigger] d[v] != 0 && t[v].len() >= 2 && e[v].last() == q;
        lemma_trees_get(g, d, parent, t, e, v);
        let n0 = t[v].len() as int;
        let p = t[v][n0 - 2];
        assert(!on_stack(Seq::<DfsFrame>::empty(), v));
        assert(b[e[v].last()] || low[v] <= d[p]) by {
            reveal(finished_ok);
        }
        reveal(tree_path_ok);
        assert(has_arc(g, t[v][n0 - 2], t[v][n0 - 1], e[v][n0 - 2]));
        assert(d[p] < d[v]) by {
            assert(d[t[v][n0 - 2]] < d[t[v][n0 - 1]]);
        }
        assert(t[p] == t[v].take(n0 - 1));
        let y = lowy[v];
        assert(0 <= y < g.adjacency@.len() && d[y] != 0 && d[y] == low[v] && t[y][0] == t[v][0]
            && reach_avoiding(g, e[v].to_set(), v, y)) by {
            reveal(lows_ok);
        }
        assert(e[v].to_set().contains(q)) by {
            assert(e[v][n0 - 2] == q);
        }
        lemma_reach_weaken(g, e[v].to_set(), avoid, v, y);
        lemma_path_shape(g, d, parent, t, e, y);
        lemma_path_shape(g, d, parent, t, e, p);
        lemma_trees_get(g, d, parent, t, e, y);
        lemma_trees_get(g, d, parent, t, e, p);
        assert forall|j: int| 0 <= j < t[y].len() implies #[trigger] t[y][j] != v by {
            assert(d[t[y][j]] <= d[y]);
        }
        assert forall|j: int| 0 <= j < t[p].len() implies #[trigger] t[p][j] != v by {
            assert(d[t[p][j]] <= d[p]);
        }
        lemma_edge_off_path(g, d, t, e, y, p, v, q);
        lemma_edge_off_path(g, d, t, e, p, p, v, q);
        assert forall|k: int| 0 <= k < e[y].len() implies !avoid.contains(#[trigger] e[y][k]) by {
            assert(e[y].to_set().contains(e[y][k]));
        }
        assert forall|k: int| 0 <= k < e[p].len() implies !avoid.contains(#[trigger] e[p][k]) by {
            assert(e[p].to_set().contains(e[p][k]));
        }
        lemma_tree_up(g, d, t, e, y, avoid);
        lemma_tree_up(g, d, t, e, p, avoid);
        assert(t[p][0] == t[v][0]);
        lemma_reach_transitive(g, avoid, v, y, t[y][0]);
        lemma_reach_transitive(g, avoid, v, t[y][0], p);
        lemma_reach_symmetric(g, avoid, v, p);
        let j = choose|j: int|
            0 <= j < g.adjacency@[p]@.len() && (#[trigger] g.adjacency@[p]@[j]).to == v
                && g.adjacency@[p]@[j].edge == q;
        let _ = g.adjacency@[p]@[j];
        let _ = g.adjacency@[a]@[i];
    } else {
        lemma_path_shape(g, d, parent, t, e, a);
        lemma_path_shape(g, d, parent, t, e, c);
        assert forall|k: int| 0 <= k < e[a].len() implies !avoid.contains(#[trigger] e[a][k]) by {
            let w = t[a][k + 1];
            assert(e[a][k] == e[w].last());
        }
        assert forall|k: int| 0 <= k < e[c].len() implies !avoid.contains(#[trigger] e[c][k]) by {
            let w = t[c][k + 1];
            assert(e[c][k] == e[w].last());
        }
        lemma_trees_get(g, d, parent, t, e, a);
        lemma_trees_get(g, d, parent, t, e, c);
        lemma_tree_up(g, d, t, e, a, avoid);
        lemma_tree_up(g, d, t, e, c, avoid);
        lemma_reach_transitive(g, avoid, a, t[a][0], c);
    }
}

} // verus!
