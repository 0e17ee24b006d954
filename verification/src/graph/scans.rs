//! What a depth-first search knows of the arcs it has scanned: each leads to
//! an ancestor or a descendant, and low links bound the discovery times of
//! the nodes reached. From this, a subtree whose low link stays below its
//! parent can only be left through its parent.

use vstd::prelude::*;

use crate::graph::bridge_steps::{
    advanced, lemma_advanced_shape, lemma_parent_arc, lemma_top_facts, lemma_top_path,
    lemma_trees_get,
};
use crate::graph::bridges::{on_stack, stack_ok, tree_path_ok, trees_ok};
use crate::graph::dfs::{frames_valid, DfsFrame};
use crate::graph::walks::{
    edge_ends_fixed, edge_not_bridge, has_arc, not_cut_vertex, reach_avoiding, reach_outside,
    step_avoiding, undirected, walk_avoiding, walk_outside,
};
use crate::graph::{graph_wf, linked, Graph};

verus! {

/// Arc `i` of node `x` leads to a discovered ancestor or descendant of `x`,
/// and, unless it carries `x`'s own tree edge, to a node discovered no later
/// than `x`'s low link, or to `child`.
pub open spec fn arc_known(
    g: &Graph,
    disc: Seq<usize>,
    low: Seq<usize>,
    tpath: Seq<Seq<int>>,
    tedges: Seq<Seq<int>>,
    x: int,
    i: int,
    child: int,
) -> bool {
    let a = g.adjacency@[x]@[i];
    let y = a.to as int;
    &&& disc[y] != 0
    &&& (tpath[x].contains(y) || tpath[y].contains(x))
    &&& (tedges[x].len() == 0 || a.edge != tedges[x].last()) ==> (low[x] <= disc[y] || y == child)
}

/// The node of the frame just above frame `k`, if any.
pub open spec fn frame_child(stack: Seq<DfsFrame>, k: int) -> int {
    if k + 1 < stack.len() {
        stack[k + 1].node as int
    } else {
        -1
    }
}

/// What is known of arc `i` of the node of frame `k`.
pub open spec fn frame_known(
    g: &Graph,
    disc: Seq<usize>,
    low: Seq<usize>,
    stack: Seq<DfsFrame>,
    tpath: Seq<Seq<int>>,
    tedges: Seq<Seq<int>>,
    k: int,
    i: int,
) -> bool {
    arc_known(g, disc, low, tpath, tedges, stack[k].node as int, i, frame_child(stack, k))
}

/// Every arc of a finished node and every scanned arc of a node on the stack
/// is known, and a finished node's low link is no lower than its parent's.
#[verifier::opaque]
pub open spec fn scans_ok(
    g: &Graph,
    disc: Seq<usize>,
    low: Seq<usize>,
    stack: Seq<DfsFrame>,
    tpath: Seq<Seq<int>>,
    tedges: Seq<Seq<int>>,
) -> bool {
    let n = g.adjacency@.len();
    &&& forall|x: int, i: int|
        0 <= x < n && disc[x] != 0 && !on_stack(stack, x) && 0 <= i < g.adjacency@[x]@.len() ==> #[trigger] arc_known(
            g,
            disc,
            low,
            tpath,
            tedges,
            x,
            i,
            -1,
        )
    &&& forall|k: int, i: int|
        0 <= k < stack.len() && 0 <= i < stack[k].next_arc ==> #[trigger] frame_known(
            g,
            disc,
            low,
            stack,
            tpath,
            tedges,
            k,
            i,
        )
    &&& forall|c: int|
        0 <= c < n && #[trigger] disc[c] != 0 && !on_stack(stack, c) && tpath[c].len() >= 2 ==> low[tpath[c][tpath[c].len()
            - 2]] <= low[c]
}

/// Nodes on the stack are distinct: the frame holding the top node is the top frame.
#[verifier::spinoff_prover]
proof fn lemma_top_once(
    g: &Graph,
    disc: Seq<usize>,
    parent: Seq<Option<usize>>,
    tpath: Seq<Seq<int>>,
    tedges: Seq<Seq<int>>,
    stack: Seq<DfsFrame>,
    k: int,
)
    requires
        trees_ok(g, disc, parent, tpath, tedges),
        stack_ok(g, disc, stack, tpath, tedges),
        0 <= k < stack.len(),
    ensures
        stack[k].node == stack.last().node ==> k == stack.len() - 1,
        stack[k].node == tpath[stack.last().node as int][k],
{
    lemma_top_facts(g, disc, parent, tpath, tedges, stack);
    let x = stack.last().node as int;
    reveal(tree_path_ok);
    let t = stack.len() - 1;
    assert(stack[t].node == tpath[x][t]);
    if k < t {
        assert(disc[tpath[x][k]] < disc[tpath[x][t]]);
    }
}

/// Starting a search at an undiscovered root keeps what is known of the scans.
#[verifier::spinoff_prover]
pub proof fn lemma_scans_root(
    g: &Graph,
    d0: Seq<usize>,
    d1: Seq<usize>,
    parent: Seq<Option<usize>>,
    l0: Seq<usize>,
    l1: Seq<usize>,
    t0: Seq<Seq<int>>,
    t1: Seq<Seq<int>>,
    e0: Seq<Seq<int>>,
    e1: Seq<Seq<int>>,
    s1: Seq<DfsFrame>,
    r: int,
)
    requires
        graph_wf(g),
        trees_ok(g, d0, parent, t0, e0),
        scans_ok(g, d0, l0, Seq::<DfsFrame>::empty(), t0, e0),
        d0.len() == g.adjacency@.len(),
        l0.len() == d0.len(),
        t0.len() == d0.len(),
        e0.len() == d0.len(),
        0 <= r < d0.len(),
        d0[r] == 0,
        d1 == d0.update(r, d1[r]),
        l1 == l0.update(r, l1[r]),
        t1 == t0.update(r, t1[r]),
        e1 == e0.update(r, e1[r]),
        s1.len() == 1,
        s1[0].node == r,
        s1[0].next_arc == 0,
    ensures
        scans_ok(g, d1, l1, s1, t1, e1),
{
    reveal(scans_ok);
    let n = g.adjacency@.len();
    assert forall|x: int, i: int|
        0 <= x < n && d1[x] != 0 && !on_stack(s1, x) && 0 <= i < g.adjacency@[x]@.len() implies #[trigger] arc_known(
        g,
        d1,
        l1,
        t1,
        e1,
        x,
        i,
        -1,
    ) by {
        assert(x != r) by {
            assert(s1[0].node == r);
        }
        assert(!on_stack(Seq::<DfsFrame>::empty(), x));
        assert(arc_known(g, d0, l0, t0, e0, x, i, -1));
        let y = g.adjacency@[x]@[i].to as int;
        assert(y != r);
    }
    assert forall|c: int|
        0 <= c < n && #[trigger] d1[c] != 0 && !on_stack(s1, c) && t1[c].len() >= 2 implies l1[t1[c][t1[c].len()
        - 2]] <= l1[c] by {
        assert(c != r) by {
            assert(s1[0].node == r);
        }
        assert(!on_stack(Seq::<DfsFrame>::empty(), c));
        assert(d0[c] != 0);
        lemma_trees_get(g, d0, parent, t0, e0, c);
        reveal(tree_path_ok);
        let q = t0[c][t0[c].len() - 2];
        assert(d0[q] != 0);
    }
}

/// Scanning the arc back along the top's own tree edge keeps what is known.
#[verifier::rlimit(50)]
#[verifier::spinoff_prover]
pub proof fn lemma_scans_skip(
    g: &Graph,
    d: Seq<usize>,
    parent: Seq<Option<usize>>,
    t: Seq<Seq<int>>,
    e: Seq<Seq<int>>,
    l: Seq<usize>,
    s0: Seq<DfsFrame>,
)
    requires
        graph_wf(g),
        edge_ends_fixed(g),
        trees_ok(g, d, parent, t, e),
        stack_ok(g, d, s0, t, e),
        scans_ok(g, d, l, s0, t, e),
        frames_valid(g, s0),
        s0.last().next_arc < g.adjacency@[s0.last().node as int]@.len(),
        s0.last().next_arc < usize::MAX,
        s0.last().parent_edge == Some(g.adjacency@[s0.last().node as int]@[s0.last().next_arc as int].edge),
    ensures
        scans_ok(g, d, l, advanced(s0), t, e),
{
    lemma_top_facts(g, d, parent, t, e, s0);
    lemma_advanced_shape(g, s0);
    let x = s0.last().node as int;
    let i0 = s0.last().next_arc as int;
    let n0 = s0.len() as int;
    let top = n0 - 1;
    assert(n0 >= 2);
    assert(s0[top].parent_edge == Some(e[x][top - 1] as usize));
    lemma_trees_get(g, d, parent, t, e, x);
    assert(g.adjacency@[x]@[i0].edge == e[x].last());
    lemma_parent_arc(g, d, parent, t, e, x, i0);
    let a = advanced(s0);
    reveal(scans_ok);
    let n = g.adjacency@.len();
    assert forall|k: int, i: int| 0 <= k < a.len() && 0 <= i < a[k].next_arc implies #[trigger] frame_known(
        g,
        d,
        l,
        a,
        t,
        e,
        k,
        i,
    ) by {
        if k == top && i == i0 {
            assert(t[x][t[x].len() - 2] == g.adjacency@[x]@[i0].to);
        } else {
            assert(frame_known(g, d, l, s0, t, e, k, i));
            assert(frame_child(a, k) == frame_child(s0, k));
        }
    }
}

/// Scanning an arc to a node discovered earlier keeps what is known, the low
/// link of the top reaching no higher than that node's discovery time.
#[verifier::rlimit(50)]
#[verifier::spinoff_prover]
pub proof fn lemma_scans_seen(
    g: &Graph,
    d: Seq<usize>,
    parent: Seq<Option<usize>>,
    t: Seq<Seq<int>>,
    e: Seq<Seq<int>>,
    l0: Seq<usize>,
    l1: Seq<usize>,
    s0: Seq<DfsFrame>,
)
    requires
        graph_wf(g),
        undirected(g),
        d.len() == g.adjacency@.len(),
        l0.len() == d.len(),
        trees_ok(g, d, parent, t, e),
        stack_ok(g, d, s0, t, e),
        scans_ok(g, d, l0, s0, t, e),
        frames_valid(g, s0),
        s0.last().next_arc < g.adjacency@[s0.last().node as int]@.len(),
        s0.last().next_arc < usize::MAX,
        ({
            let x = s0.last().node as int;
            let y = g.adjacency@[x]@[s0.last().next_arc as int].to as int;
            &&& d[y] != 0
            &&& ((l1 == l0 && l0[x] <= d[y]) || (d[y] < l0[x] && l1 == l0.update(x, d[y])))
        }),
    ensures
        scans_ok(g, d, l1, advanced(s0), t, e),
{
    lemma_top_facts(g, d, parent, t, e, s0);
    lemma_advanced_shape(g, s0);
    let x = s0.last().node as int;
    let i0 = s0.last().next_arc as int;
    let n0 = s0.len() as int;
    let top = n0 - 1;
    let arc = g.adjacency@[x]@[i0];
    let y = arc.to as int;
    let a = advanced(s0);
    let n = g.adjacency@.len();
    assert(on_stack(s0, x)) by {
        assert(s0[top].node == x);
    }
    reveal(scans_ok);
    assert(t[x].contains(y) || t[y].contains(x)) by {
        if on_stack(s0, y) {
            let k = choose|k: int| 0 <= k < s0.len() && (#[trigger] s0[k]).node == y;
            assert(s0[k].node == t[x][k]);
        } else {
            assert(has_arc(g, y, x, arc.edge as int));
            let i2 = choose|i2: int|
                0 <= i2 < g.adjacency@[y]@.len() && (#[trigger] g.adjacency@[y]@[i2]).to == x
                    && g.adjacency@[y]@[i2].edge == arc.edge;
            assert(arc_known(g, d, l0, t, e, y, i2, -1));
            if t[x].contains(y) {
                let j = choose|j: int| 0 <= j < t[x].len() && t[x][j] == y;
                assert(s0[j].node == t[x][j]);
            }
        }
    }
    assert forall|z: int, i: int|
        0 <= z < n && d[z] != 0 && !on_stack(a, z) && 0 <= i < g.adjacency@[z]@.len() implies #[trigger] arc_known(
        g,
        d,
        l1,
        t,
        e,
        z,
        i,
        -1,
    ) by {
        assert(!on_stack(s0, z));
        assert(z != x);
        assert(arc_known(g, d, l0, t, e, z, i, -1));
    }
    assert forall|k: int, i: int| 0 <= k < a.len() && 0 <= i < a[k].next_arc implies #[trigger] frame_known(
        g,
        d,
        l1,
        a,
        t,
        e,
        k,
        i,
    ) by {
        assert(frame_child(a, k) == frame_child(s0, k));
        if k == top && i == i0 {
        } else {
            assert(frame_known(g, d, l0, s0, t, e, k, i));
            lemma_top_once(g, d, parent, t, e, s0, k);
        }
    }
    assert forall|c: int|
        0 <= c < n && #[trigger] d[c] != 0 && !on_stack(a, c) && t[c].len() >= 2 implies l1[t[c][t[c].len() - 2]]
        <= l1[c] by {
        assert(!on_stack(s0, c));
        assert(c != x);
        lemma_trees_get(g, d, parent, t, e, c);
        reveal(tree_path_ok);
        let q = t[c][t[c].len() - 2];
        assert(0 <= q < n);
    }
}

/// Discovering a child through the top's next arc keeps what is known.
#[verifier::rlimit(50)]
#[verifier::spinoff_prover]
pub proof fn lemma_scans_push(
    g: &Graph,
    d0: Seq<usize>,
    d1: Seq<usize>,
    parent0: Seq<Option<usize>>,
    l0: Seq<usize>,
    l1: Seq<usize>,
    t0: Seq<Seq<int>>,
    t1: Seq<Seq<int>>,
    e0: Seq<Seq<int>>,
    e1: Seq<Seq<int>>,
    s0: Seq<DfsFrame>,
    s1: Seq<DfsFrame>,
)
    requires
        graph_wf(g),
        d0.len() == g.adjacency@.len(),
        l0.len() == d0.len(),
        t0.len() == d0.len(),
        e0.len() == d0.len(),
        trees_ok(g, d0, parent0, t0, e0),
        stack_ok(g, d0, s0, t0, e0),
        scans_ok(g, d0, l0, s0, t0, e0),
        frames_valid(g, s0),
        s0.last().next_arc < g.adjacency@[s0.last().node as int]@.len(),
        s0.last().next_arc < usize::MAX,
        ({
            let x = s0.last().node as int;
            let arc = g.adjacency@[x]@[s0.last().next_arc as int];
            let c = arc.to as int;
            &&& d0[c] == 0
            &&& d1 == d0.update(c, d1[c])
            &&& d1[c] != 0
            &&& l1 == l0.update(c, l1[c])
            &&& t1 == t0.update(c, t0[x].push(c))
            &&& e1 == e0.update(c, e0[x].push(arc.edge as int))
            &&& s1 == advanced(s0).push(DfsFrame { node: arc.to, parent_edge: Some(arc.edge), next_arc: 0 })
        }),
    ensures
        scans_ok(g, d1, l1, s1, t1, e1),
{
    lemma_top_facts(g, d0, parent0, t0, e0, s0);
    lemma_advanced_shape(g, s0);
    let x = s0.last().node as int;
    let i0 = s0.last().next_arc as int;
    let n0 = s0.len() as int;
    let top = n0 - 1;
    let arc = g.adjacency@[x]@[i0];
    let c = arc.to as int;
    let a = advanced(s0);
    let n = g.adjacency@.len();
    assert(s1[n0].node == c);
    assert(on_stack(s1, c));
    assert forall|z: int| on_stack(s0, z) implies on_stack(s1, z) by {
        let k = choose|k: int| 0 <= k < s0.len() && (#[trigger] s0[k]).node == z;
        assert(a[k].node == z);
        assert(s1[k] == a[k]);
    }
    assert forall|z: int| on_stack(s1, z) && z != c implies on_stack(s0, z) by {
        let k = choose|k: int| 0 <= k < s1.len() && (#[trigger] s1[k]).node == z;
        assert(k < n0);
        assert(s1[k] == a[k]);
        assert(s0[k].node == z);
    }
    reveal(scans_ok);
    assert forall|z: int, i: int|
        0 <= z < n && d1[z] != 0 && !on_stack(s1, z) && 0 <= i < g.adjacency@[z]@.len() implies #[trigger] arc_known(
        g,
        d1,
        l1,
        t1,
        e1,
        z,
        i,
        -1,
    ) by {
        assert(z != c);
        assert(!on_stack(s0, z));
        assert(d0[z] != 0);
        assert(arc_known(g, d0, l0, t0, e0, z, i, -1));
        let y = g.adjacency@[z]@[i].to as int;
        assert(y != c);
    }
    assert forall|k: int, i: int| 0 <= k < s1.len() && 0 <= i < s1[k].next_arc implies #[trigger] frame_known(
        g,
        d1,
        l1,
        s1,
        t1,
        e1,
        k,
        i,
    ) by {
        assert(k < n0);
        assert(s1[k] == a[k]);
        if k == top && i == i0 {
            assert(frame_child(s1, k) == c);
            assert(t1[c] == t0[x].push(c));
            assert(t1[c][t0[x].len() as int] == c);
            assert(t1[c][t0[x].len() - 1] == x) by {
                lemma_trees_get(g, d0, parent0, t0, e0, x);
            }
        } else {
            assert(frame_known(g, d0, l0, s0, t0, e0, k, i));
            let z = s0[k].node as int;
            assert(d0[z] != 0) by {
                lemma_top_once(g, d0, parent0, t0, e0, s0, k);
                reveal(tree_path_ok);
            }
            assert(z != c);
            let y = g.adjacency@[z]@[i].to as int;
            assert(y != c);
            if k < top {
                assert(frame_child(s1, k) == frame_child(s0, k));
            }
        }
    }
    assert forall|z: int|
        0 <= z < n && #[trigger] d1[z] != 0 && !on_stack(s1, z) && t1[z].len() >= 2 implies l1[t1[z][t1[z].len()
        - 2]] <= l1[z] by {
        assert(z != c);
        assert(!on_stack(s0, z));
        assert(d0[z] != 0);
        lemma_trees_get(g, d0, parent0, t0, e0, z);
        reveal(tree_path_ok);
        let q = t0[z][t0[z].len() - 2];
        assert(d0[q] != 0);
        assert(q != c);
    }
}

/// Popping a node keeps what is known: its arcs are all known, and its parent
/// takes over its low link when lower.
#[verifier::rlimit(50)]
#[verifier::spinoff_prover]
pub proof fn lemma_scans_pop(
    g: &Graph,
    d: Seq<usize>,
    parent: Seq<Option<usize>>,
    t: Seq<Seq<int>>,
    e: Seq<Seq<int>>,
    l0: Seq<usize>,
    l1: Seq<usize>,
    s0: Seq<DfsFrame>,
)
    requires
        graph_wf(g),
        d.len() == g.adjacency@.len(),
        l0.len() == d.len(),
        t.len() == d.len(),
        e.len() == d.len(),
        trees_ok(g, d, parent, t, e),
        stack_ok(g, d, s0, t, e),
        scans_ok(g, d, l0, s0, t, e),
        frames_valid(g, s0),
        s0.last().next_arc >= g.adjacency@[s0.last().node as int]@.len(),
        l0[s0.last().node as int] <= d[s0.last().node as int],
        s0.len() >= 2 ==> ({
            let v = s0.last().node as int;
            let p = t[v][s0.len() - 2];
            if l0[v] < l0[p] {
                l1 == l0.update(p, l0[v])
            } else {
                l1 == l0
            }
        }),
        s0.len() == 1 ==> l1 == l0,
    ensures
        scans_ok(g, d, l1, s0.drop_last(), t, e),
{
    lemma_top_facts(g, d, parent, t, e, s0);
    let v = s0.last().node as int;
    let n0 = s0.len() as int;
    let top = n0 - 1;
    let s1 = s0.drop_last();
    let n = g.adjacency@.len();
    let p = if n0 >= 2 { t[v][n0 - 2] } else { v };
    if n0 >= 2 {
        lemma_top_path(g, d, parent, t, e, s0);
    }
    assert(s0[top].node == v);
    assert forall|z: int| on_stack(s1, z) implies on_stack(s0, z) && z != v by {
        let k = choose|k: int| 0 <= k < s1.len() && (#[trigger] s1[k]).node == z;
        assert(s0[k] == s1[k]);
        lemma_top_once(g, d, parent, t, e, s0, k);
    }
    assert forall|z: int| on_stack(s0, z) && z != v implies on_stack(s1, z) by {
        let k = choose|k: int| 0 <= k < s0.len() && (#[trigger] s0[k]).node == z;
        assert(k < top);
        assert(s1[k] == s0[k]);
    }
    assert(n0 >= 2 ==> on_stack(s1, p)) by {
        if n0 >= 2 {
            lemma_top_once(g, d, parent, t, e, s0, top - 1);
            assert(s1[top - 1] == s0[top - 1]);
        }
    }
    reveal(scans_ok);
    assert forall|z: int, i: int|
        0 <= z < n && d[z] != 0 && !on_stack(s1, z) && 0 <= i < g.adjacency@[z]@.len() implies #[trigger] arc_known(
        g,
        d,
        l1,
        t,
        e,
        z,
        i,
        -1,
    ) by {
        if z == v {
            assert(frame_known(g, d, l0, s0, t, e, top, i));
            assert(frame_child(s0, top) == -1);
        } else {
            assert(!on_stack(s0, z));
            assert(arc_known(g, d, l0, t, e, z, i, -1));
        }
    }
    assert forall|k: int, i: int| 0 <= k < s1.len() && 0 <= i < s1[k].next_arc implies #[trigger] frame_known(
        g,
        d,
        l1,
        s1,
        t,
        e,
        k,
        i,
    ) by {
        assert(s1[k] == s0[k]);
        assert(frame_known(g, d, l0, s0, t, e, k, i));
        lemma_top_once(g, d, parent, t, e, s0, k);
        if k < top - 1 {
            assert(frame_child(s1, k) == frame_child(s0, k));
            lemma_top_once(g, d, parent, t, e, s0, top - 1);
            reveal(tree_path_ok);
            assert(d[t[v][k]] < d[t[v][top - 1]]);
        } else {
            assert(s0[k].node == p);
            assert(frame_child(s0, k) == v);
        }
    }
    assert forall|c: int|
        0 <= c < n && #[trigger] d[c] != 0 && !on_stack(s1, c) && t[c].len() >= 2 implies l1[t[c][t[c].len() - 2]]
        <= l1[c] by {
        if c == v {
            assert(t[v].len() == n0);
        } else {
            assert(!on_stack(s0, c));
            lemma_trees_get(g, d, parent, t, e, c);
            reveal(tree_path_ok);
            let q = t[c][t[c].len() - 2];
            assert(0 <= q < n);
            if n0 >= 2 {
                assert(c != p);
            }
        }
    }
}

/// Down the tree path of `x` from `c`, low links never fall below `c`'s,
/// when no node on the stack lies below `c`.
#[verifier::spinoff_prover]
proof fn lemma_low_chain(
    g: &Graph,
    d: Seq<usize>,
    parent: Seq<Option<usize>>,
    t: Seq<Seq<int>>,
    e: Seq<Seq<int>>,
    l: Seq<usize>,
    s: Seq<DfsFrame>,
    c: int,
    x: int,
    k: int,
)
    requires
        graph_wf(g),
        trees_ok(g, d, parent, t, e),
        scans_ok(g, d, l, s, t, e),
        forall|z: int| on_stack(s, z) ==> !#[trigger] t[z].contains(c),
        0 <= x < g.adjacency@.len(),
        d[x] != 0,
        0 <= c < g.adjacency@.len(),
        d[c] != 0,
        t[c].len() - 1 <= k < t[x].len(),
        t[x][t[c].len() - 1] == c,
    ensures
        l[c] <= l[t[x][k]],
    decreases k,
{
    lemma_trees_get(g, d, parent, t, e, x);
    lemma_trees_get(g, d, parent, t, e, c);
    reveal(tree_path_ok);
    let m = t[c].len() - 1;
    if k > m {
        lemma_low_chain(g, d, parent, t, e, l, s, c, x, k - 1);
        let z = t[x][k];
        assert(t[z] == t[x].take(k + 1));
        assert(t[z][m] == c);
        assert(t[z].contains(c));
        assert(!on_stack(s, z));
        assert(t[z][t[z].len() - 2] == t[x][k - 1]);
        reveal(scans_ok);
        assert(d[z] != 0);
    }
}

/// An arc out of the subtree of `c`, when that subtree is finished, either
/// stays in it or leads to a proper ancestor of `c` that is `c`'s parent
/// along `c`'s own tree edge, or is discovered no later than `c`'s low link.
#[verifier::rlimit(50)]
#[verifier::spinoff_prover]
pub proof fn lemma_subtree_arc(
    g: &Graph,
    d: Seq<usize>,
    parent: Seq<Option<usize>>,
    t: Seq<Seq<int>>,
    e: Seq<Seq<int>>,
    l: Seq<usize>,
    s: Seq<DfsFrame>,
    c: int,
    x: int,
    i: int,
) -> (j: int)
    requires
        graph_wf(g),
        edge_ends_fixed(g),
        trees_ok(g, d, parent, t, e),
        scans_ok(g, d, l, s, t, e),
        forall|z: int| on_stack(s, z) ==> !#[trigger] t[z].contains(c),
        0 <= c < g.adjacency@.len(),
        d[c] != 0,
        0 <= x < g.adjacency@.len(),
        d[x] != 0,
        t[x].contains(c),
        0 <= i < g.adjacency@[x]@.len(),
    ensures
        d[g.adjacency@[x]@[i].to as int] != 0,
        !t[g.adjacency@[x]@[i].to as int].contains(c) ==> {
            &&& 0 <= j < t[c].len() - 1
            &&& t[c][j] == g.adjacency@[x]@[i].to
            &&& ((j == t[c].len() - 2 && x == c && g.adjacency@[x]@[i].edge == e[c].last()) || l[c] <= d[g.adjacency@[x]@[i].to as int])
        },
{
    let y = g.adjacency@[x]@[i].to as int;
    lemma_trees_get(g, d, parent, t, e, x);
    lemma_trees_get(g, d, parent, t, e, c);
    assert(!on_stack(s, x));
    assert(arc_known(g, d, l, t, e, x, i, -1)) by {
        reveal(scans_ok);
    }
    reveal(tree_path_ok);
    let k0 = choose|k0: int| 0 <= k0 < t[x].len() && t[x][k0] == c;
    assert(t[c] == t[x].take(k0 + 1));
    let m = t[c].len() - 1;
    assert(m == k0);
    let mut j: int = 0;
    if !t[y].contains(c) {
        lemma_trees_get(g, d, parent, t, e, y);
        if t[y].contains(x) {
            let j2 = choose|j2: int| 0 <= j2 < t[y].len() && t[y][j2] == x;
            assert(t[x] == t[y].take(j2 + 1));
            assert(t[y][k0] == c);
        }
        assert(t[x].contains(y));
        let jj = choose|jj: int| 0 <= jj < t[x].len() && t[x][jj] == y;
        if jj >= k0 {
            assert(t[y] == t[x].take(jj + 1));
            assert(t[y][k0] == c);
        }
        assert(jj < m);
        j = jj;
        assert(t[c][jj] == y);
        if e[x].len() > 0 && g.adjacency@[x]@[i].edge == e[x].last() {
            lemma_parent_arc(g, d, parent, t, e, x, i);
            let last = t[x].len() - 1;
            if jj != last - 1 {
                if jj < last - 1 {
                    assert(d[t[x][jj]] < d[t[x][last - 1]]);
                } else {
                    assert(d[t[x][last - 1]] < d[t[x][jj]]);
                }
            }
            assert(k0 == last);
        } else {
            lemma_low_chain(g, d, parent, t, e, l, s, c, x, t[x].len() - 1);
        }
    }
    j
}

/// A tree edge is flagged only if it is a bridge: when the low link of its
/// lower end stays above its upper end's discovery time, removing it cuts the
/// lower end off from the upper one.
#[verifier::spinoff_prover]
pub proof fn lemma_flag_bridge(
    g: &Graph,
    d: Seq<usize>,
    parent: Seq<Option<usize>>,
    t: Seq<Seq<int>>,
    e: Seq<Seq<int>>,
    l: Seq<usize>,
    s: Seq<DfsFrame>,
    v: int,
)
    requires
        graph_wf(g),
        undirected(g),
        edge_ends_fixed(g),
        trees_ok(g, d, parent, t, e),
        scans_ok(g, d, l, s, t, e),
        forall|z: int| on_stack(s, z) ==> !#[trigger] t[z].contains(v),
        0 <= v < g.adjacency@.len(),
        d[v] != 0,
        t[v].len() >= 2,
        l[v] > d[t[v][t[v].len() - 2]],
    ensures
        !edge_not_bridge(g, e[v].last()),
{
    lemma_trees_get(g, d, parent, t, e, v);
    reveal(tree_path_ok);
    let m = t[v].len() - 1;
    let p = t[v][m - 1];
    let q = e[v][m - 1];
    assert(e[v].last() == q);
    assert(has_arc(g, p, v, q));
    let i1 = choose|i1: int| 0 <= i1 < g.adjacency@[p]@.len() && (#[trigger] g.adjacency@[p]@[i1]).to == v
        && g.adjacency@[p]@[i1].edge == q;
    let _ = g.adjacency@[p]@[i1];
    assert(has_arc(g, v, p, q));
    let i0 = choose|i0: int| 0 <= i0 < g.adjacency@[v]@.len() && (#[trigger] g.adjacency@[v]@[i0]).to == p
        && g.adjacency@[v]@[i0].edge == q;
    let _ = g.adjacency@[v]@[i0];
    if edge_not_bridge(g, q) {
        assert(reach_avoiding(g, set![q], v, p));
        let w = choose|w: Seq<int>| #[trigger] walk_avoiding(g, set![q], w) && w[0] == v && w.last() == p;
        lemma_walk_below_edge(g, d, parent, t, e, l, s, v, w, w.len() - 1);
        assert(t[p] == t[v].take(m));
        let k = choose|k: int| 0 <= k < t[p].len() && t[p][k] == v;
        assert(d[t[v][k]] < d[t[v][m]]);
    }
}

#[verifier::spinoff_prover]
proof fn lemma_walk_below_edge(
    g: &Graph,
    d: Seq<usize>,
    parent: Seq<Option<usize>>,
    t: Seq<Seq<int>>,
    e: Seq<Seq<int>>,
    l: Seq<usize>,
    s: Seq<DfsFrame>,
    v: int,
    w: Seq<int>,
    k: int,
)
    requires
        graph_wf(g),
        edge_ends_fixed(g),
        trees_ok(g, d, parent, t, e),
        scans_ok(g, d, l, s, t, e),
        forall|z: int| on_stack(s, z) ==> !#[trigger] t[z].contains(v),
        0 <= v < g.adjacency@.len(),
        d[v] != 0,
        t[v].len() >= 2,
        l[v] > d[t[v][t[v].len() - 2]],
        e[v].len() == t[v].len() - 1,
        walk_avoiding(g, set![e[v].last()], w),
        w[0] == v,
        0 <= k < w.len(),
    ensures
        d[w[k]] != 0,
        t[w[k]].contains(v),
    decreases k,
{
    if k == 0 {
        lemma_trees_get(g, d, parent, t, e, v);
        assert(t[v][t[v].len() - 1] == v);
    } else {
        lemma_walk_below_edge(g, d, parent, t, e, l, s, v, w, k - 1);
        let x = w[k - 1];
        let q = e[v].last();
        assert(step_avoiding(g, set![q], w[k - 1], w[k]));
        let i = choose|i: int|
            0 <= i < g.adjacency@[x]@.len() && (#[trigger] g.adjacency@[x]@[i]).to == w[k]
                && !set![q].contains(g.adjacency@[x]@[i].edge as int);
        let _ = g.adjacency@[x]@[i];
        let j = lemma_subtree_arc(g, d, parent, t, e, l, s, v, x, i);
        if !t[w[k]].contains(v) {
            lemma_trees_get(g, d, parent, t, e, v);
            reveal(tree_path_ok);
            let m = t[v].len() - 1;
            if j < m - 1 {
                assert(d[t[v][j]] < d[t[v][m - 1]]);
            }
        }
    }
}

/// A node is flagged only if it is a cut vertex: when the low link of a tree
/// child of a non-root node stays at or above that node's discovery time,
/// removing the node cuts the child off from the node's own parent.
#[verifier::spinoff_prover]
pub proof fn lemma_flag_cut(
    g: &Graph,
    d: Seq<usize>,
    parent: Seq<Option<usize>>,
    t: Seq<Seq<int>>,
    e: Seq<Seq<int>>,
    l: Seq<usize>,
    s: Seq<DfsFrame>,
    c: int,
)
    requires
        graph_wf(g),
        undirected(g),
        edge_ends_fixed(g),
        trees_ok(g, d, parent, t, e),
        scans_ok(g, d, l, s, t, e),
        forall|z: int| on_stack(s, z) ==> !#[trigger] t[z].contains(c),
        0 <= c < g.adjacency@.len(),
        d[c] != 0,
        t[c].len() >= 3,
        l[c] >= d[t[c][t[c].len() - 2]],
    ensures
        !not_cut_vertex(g, t[c][t[c].len() - 2]),
{
    lemma_trees_get(g, d, parent, t, e, c);
    reveal(tree_path_ok);
    let m = t[c].len() - 1;
    let v = t[c][m - 1];
    let pv = t[c][m - 2];
    assert(has_arc(g, v, c, e[c][m - 1]));
    let ic = choose|ic: int| 0 <= ic < g.adjacency@[v]@.len() && (#[trigger] g.adjacency@[v]@[ic]).to == c
        && g.adjacency@[v]@[ic].edge == e[c][m - 1];
    assert(has_arc(g, pv, v, e[c][m - 2]));
    let i1 = choose|i1: int| 0 <= i1 < g.adjacency@[pv]@.len() && (#[trigger] g.adjacency@[pv]@[i1]).to == v
        && g.adjacency@[pv]@[i1].edge == e[c][m - 2];
    let _ = g.adjacency@[pv]@[i1];
    assert(has_arc(g, v, pv, e[c][m - 2]));
    let ip = choose|ip: int| 0 <= ip < g.adjacency@[v]@.len() && (#[trigger] g.adjacency@[v]@[ip]).to == pv
        && g.adjacency@[v]@[ip].edge == e[c][m - 2];
    assert(d[t[c][m - 2]] < d[t[c][m - 1]] && d[t[c][m - 1]] < d[t[c][m]]);
    assert(c != v && pv != v);
    if not_cut_vertex(g, v) {
        let _ = g.adjacency@[v]@[ic];
        let _ = g.adjacency@[v]@[ip];
        assert(reach_outside(g, set![v], c, pv));
        let w = choose|w: Seq<int>| #[trigger] walk_outside(g, set![v], w) && w[0] == c && w.last() == pv;
        lemma_walk_below_node(g, d, parent, t, e, l, s, c, v, w, w.len() - 1);
        assert(t[pv] == t[c].take(m - 1));
        let k = choose|k: int| 0 <= k < t[pv].len() && t[pv][k] == c;
        assert(d[t[c][k]] < d[t[c][m]]);
    }
}

/// A walk from `c` that avoids `v`, where `v` is `c`'s tree parent and `c`'s
/// low link does not reach above `v` (or `v` is a root), stays below `c`.
#[verifier::spinoff_prover]
proof fn lemma_walk_below_node(
    g: &Graph,
    d: Seq<usize>,
    parent: Seq<Option<usize>>,
    t: Seq<Seq<int>>,
    e: Seq<Seq<int>>,
    l: Seq<usize>,
    s: Seq<DfsFrame>,
    c: int,
    v: int,
    w: Seq<int>,
    k: int,
)
    requires
        graph_wf(g),
        edge_ends_fixed(g),
        trees_ok(g, d, parent, t, e),
        scans_ok(g, d, l, s, t, e),
        forall|z: int| on_stack(s, z) ==> !#[trigger] t[z].contains(c),
        0 <= c < g.adjacency@.len(),
        d[c] != 0,
        t[c].len() >= 2,
        v == t[c][t[c].len() - 2],
        t[c].len() == 2 || l[c] >= d[v],
        walk_outside(g, set![v], w),
        w[0] == c,
        w.last() != v,
        0 <= k < w.len(),
    ensures
        d[w[k]] != 0,
        t[w[k]].contains(c),
    decreases k,
{
    if k == 0 {
        lemma_trees_get(g, d, parent, t, e, c);
        assert(t[c][t[c].len() - 1] == c);
    } else {
        lemma_walk_below_node(g, d, parent, t, e, l, s, c, v, w, k - 1);
        let x = w[k - 1];
        assert(linked(g, w[k - 1], w[k]) && !set![v].contains(w[k - 1]));
        let i = choose|i: int| 0 <= i < g.adjacency@[x]@.len() && #[trigger] g.adjacency@[x]@[i].to == w[k];
        let _ = g.adjacency@[x]@[i];
        let j = lemma_subtree_arc(g, d, parent, t, e, l, s, c, x, i);
        if !t[w[k]].contains(c) {
            lemma_trees_get(g, d, parent, t, e, c);
            reveal(tree_path_ok);
            let m = t[c].len() - 1;
            if j < m - 1 {
                assert(d[t[c][j]] < d[t[c][m - 1]]);
            }
            assert(w[k] == v);
            if k < w.len() - 1 {
                assert(linked(g, w[k], w[k + 1]) && !set![v].contains(w[k]));
            }
        }
    }
}

/// A root with two distinct tree children is a cut vertex: removing it cuts
/// one child off from the other.
#[verifier::spinoff_prover]
pub proof fn lemma_flag_root(
    g: &Graph,
    d: Seq<usize>,
    parent: Seq<Option<usize>>,
    t: Seq<Seq<int>>,
    e: Seq<Seq<int>>,
    l: Seq<usize>,
    s: Seq<DfsFrame>,
    r: int,
    c1: int,
    c2: int,
)
    requires
        graph_wf(g),
        undirected(g),
        edge_ends_fixed(g),
        trees_ok(g, d, parent, t, e),
        scans_ok(g, d, l, s, t, e),
        forall|z: int| on_stack(s, z) ==> !#[trigger] t[z].contains(c1),
        0 <= r < g.adjacency@.len(),
        0 <= c1 < g.adjacency@.len(),
        0 <= c2 < g.adjacency@.len(),
        c1 != c2,
        parent[c1] == Some(r as usize),
        parent[c2] == Some(r as usize),
        d[r] != 0,
        t[r].len() == 1,
    ensures
        !not_cut_vertex(g, r),
{
    assert(d[c1] != 0 && d[c2] != 0 && t[c1].len() >= 2 && t[c2].len() >= 2) by {
        reveal(trees_ok);
    }
    lemma_trees_get(g, d, parent, t, e, c1);
    lemma_trees_get(g, d, parent, t, e, c2);
    lemma_trees_get(g, d, parent, t, e, r);
    assert(t[c1][t[c1].len() - 2] == r && t[c2][t[c2].len() - 2] == r) by {
        reveal(trees_ok);
        reveal(tree_path_ok);
        assert(g.adjacency.len() == g.adjacency@.len());
        assert(0 <= t[c1][t[c1].len() - 2] < d.len());
        assert(0 <= t[c2][t[c2].len() - 2] < d.len());
    }
    reveal(tree_path_ok);
    let m1 = t[c1].len() - 1;
    let m2 = t[c2].len() - 1;
    assert(t[r] == t[c1].take(m1));
    assert(t[r] == t[c2].take(m2));
    assert(m1 == 1 && m2 == 1);
    assert(has_arc(g, r, c1, e[c1][0]));
    let i1 = choose|i1: int| 0 <= i1 < g.adjacency@[r]@.len() && (#[trigger] g.adjacency@[r]@[i1]).to == c1
        && g.adjacency@[r]@[i1].edge == e[c1][0];
    assert(has_arc(g, r, c2, e[c2][0]));
    let i2 = choose|i2: int| 0 <= i2 < g.adjacency@[r]@.len() && (#[trigger] g.adjacency@[r]@[i2]).to == c2
        && g.adjacency@[r]@[i2].edge == e[c2][0];
    assert(d[t[c1][0]] < d[t[c1][1]] && d[t[c2][0]] < d[t[c2][1]]);
    if not_cut_vertex(g, r) {
        let _ = g.adjacency@[r]@[i1];
        let _ = g.adjacency@[r]@[i2];
        assert(reach_outside(g, set![r], c1, c2));
        let w = choose|w: Seq<int>| #[trigger] walk_outside(g, set![r], w) && w[0] == c1 && w.last() == c2;
        lemma_walk_below_node(g, d, parent, t, e, l, s, c1, r, w, w.len() - 1);
        let k = choose|k: int| 0 <= k < t[c2].len() && t[c2][k] == c1;
    }
}

/// Once the top is popped, no node left on the stack lies below it.
#[verifier::spinoff_prover]
pub proof fn lemma_popped_below_none(
    g: &Graph,
    d: Seq<usize>,
    parent: Seq<Option<usize>>,
    t: Seq<Seq<int>>,
    e: Seq<Seq<int>>,
    s0: Seq<DfsFrame>,
)
    requires
        trees_ok(g, d, parent, t, e),
        stack_ok(g, d, s0, t, e),
    ensures
        forall|z: int| on_stack(s0.drop_last(), z) ==> !#[trigger] t[z].contains(s0.last().node as int),
{
    lemma_top_facts(g, d, parent, t, e, s0);
    let v = s0.last().node as int;
    let s1 = s0.drop_last();
    let top = s0.len() - 1;
    reveal(tree_path_ok);
    assert forall|z: int| on_stack(s1, z) implies !#[trigger] t[z].contains(v) by {
        let k = choose|k: int| 0 <= k < s1.len() && (#[trigger] s1[k]).node == z;
        assert(s0[k] == s1[k]);
        assert(z == t[v][k]);
        assert(t[z] == t[v].take(k + 1));
        if t[z].contains(v) {
            let j = choose|j: int| 0 <= j < t[z].len() && t[z][j] == v;
            assert(t[v][j] == t[v][top]);
            assert(d[t[v][j]] < d[t[v][top]]);
        }
    }
}

} // verus!
