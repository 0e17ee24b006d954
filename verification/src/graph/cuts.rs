//! Cut vertices of an undirected multigraph by an iterative depth-first
//! search with discovery times and low links, and the proof that it flags
//! exactly the nodes whose removal separates two of their neighbours.

use vstd::prelude::*;

use crate::error::Result;
use crate::graph::bridge_steps::{
    advanced, lemma_pop_stack, lemma_push_stack, lemma_push_trees, lemma_top_facts, lemma_top_path,
    lemma_trees_get,
};
use crate::graph::bridges::{arcs_closed, on_stack, stack_ok, tree_path_ok, trees_ok};
use crate::graph::component::count_value;
use crate::graph::cut_steps::{
    lemma_cut_pop_finished, lemma_cut_pop_lows, lemma_cut_push_children, lemma_cut_push_finished,
    lemma_cut_push_lows, lemma_cut_push_roots, lemma_cut_root_start, lemma_cut_scan_seen,
    lemma_cut_scan_skip,
};
use crate::graph::dfs::{
    frames_valid, lemma_count_value_bound, lemma_count_value_discover, lemma_count_value_positive,
    lemma_count_zero_all, lemma_stack_work_nonneg, stack_work, DfsFrame,
};
use crate::graph::scans::{
    lemma_flag_cut, lemma_flag_root, lemma_popped_below_none, lemma_scans_pop, lemma_scans_push,
    lemma_scans_root, lemma_scans_seen, lemma_scans_skip, scans_ok,
};
use crate::graph::walks::{
    edge_ends_fixed, has_arc, lemma_outside_append, lemma_outside_refl, lemma_outside_symmetric,
    lemma_outside_transitive, lemma_outside_weaken, not_cut_vertex, reach_outside, undirected,
};
use crate::graph::{counter_overflow, graph_wf, linked, Graph};
use crate::interrupt::{checkpoint_chunk, InterruptCheck};

verus! {

/// The proper ancestors of discovered node `x`: its tree path without itself.
pub open spec fn ancestors(tpath: Seq<Seq<int>>, x: int) -> Set<int> {
    tpath[x].drop_last().to_set()
}

/// Every discovered node's low link is the discovery time of a node of its
/// tree that it reaches by a walk staying off its proper ancestors until the end.
#[verifier::opaque]
pub open spec fn cut_lows_ok(
    g: &Graph,
    disc: Seq<usize>,
    low: Seq<usize>,
    lowy: Seq<int>,
    tpath: Seq<Seq<int>>,
) -> bool {
    let n = g.adjacency@.len();
    &&& low.len() == n
    &&& lowy.len() == n
    &&& forall|x: int|
        0 <= x < n && #[trigger] disc[x] != 0 ==> {
            let y = lowy[x];
            &&& 0 <= y < n
            &&& disc[y] != 0
            &&& disc[y] == low[x]
            &&& low[x] <= disc[x]
            &&& tpath[y][0] == tpath[x][0]
            &&& reach_outside(g, ancestors(tpath, x), x, y)
        }
}

/// Finished nodes have every arc closed, and a finished child of a non-root
/// node reaches above that node unless the node is flagged.
#[verifier::opaque]
pub open spec fn cut_finished_ok(
    g: &Graph,
    disc: Seq<usize>,
    low: Seq<usize>,
    cut: Seq<bool>,
    stack: Seq<DfsFrame>,
    tpath: Seq<Seq<int>>,
) -> bool {
    forall|x: int|
        0 <= x < g.adjacency@.len() && #[trigger] disc[x] != 0 && !on_stack(stack, x) ==> {
            &&& arcs_closed(g, disc, tpath, x)
            &&& (tpath[x].len() >= 2 && tpath[tpath[x][tpath[x].len() - 2]].len() >= 2) ==> (cut[tpath[x][tpath[x].len()
                - 2]] || low[x] < disc[tpath[x][tpath[x].len() - 2]])
        }
}

/// A node with a tree child has a positive child count, and a node counted
/// with at most one child has exactly one.
#[verifier::opaque]
pub open spec fn children_ok(g: &Graph, parent: Seq<Option<usize>>, count: Seq<usize>) -> bool {
    let n = g.adjacency@.len();
    &&& count.len() == n
    &&& forall|c1: int, c2: int|
        0 <= c1 < n && 0 <= c2 < n && (#[trigger] parent[c1]) is Some && #[trigger] parent[c2] == parent[c1] ==> {
            &&& count[parent[c1]->0 as int] >= 1
            &&& count[parent[c1]->0 as int] <= 1 ==> c1 == c2
        }
    &&& forall|v: int|
        0 <= v < n && #[trigger] count[v] >= 1 ==> exists|c: int| 0 <= c < n && parent[c] == Some(v as usize)
    &&& forall|v: int|
        0 <= v < n && #[trigger] count[v] >= 2 ==> exists|c1: int, c2: int|
            0 <= c1 < n && 0 <= c2 < n && c1 != c2 && parent[c1] == Some(v as usize) && parent[c2] == Some(
                v as usize,
            )
}

/// Every discovered tree root other than `except` is flagged or has at most one child.
pub open spec fn roots_ok(
    g: &Graph,
    disc: Seq<usize>,
    tpath: Seq<Seq<int>>,
    cut: Seq<bool>,
    count: Seq<usize>,
    except: int,
) -> bool {
    forall|x: int|
        0 <= x < g.adjacency@.len() && #[trigger] disc[x] != 0 && tpath[x].len() == 1 && x != except ==> cut[x]
            || count[x] <= 1
}

/// A discovered node is not among its own proper ancestors, and its proper
/// ancestors were discovered before it.
#[verifier::spinoff_prover]
pub proof fn lemma_ancestors(
    g: &Graph,
    disc: Seq<usize>,
    tpath: Seq<Seq<int>>,
    tedges: Seq<Seq<int>>,
    x: int,
)
    requires
        tree_path_ok(g, disc, tpath, tedges, x),
    ensures
        !ancestors(tpath, x).contains(x),
        forall|z: int| #[trigger] ancestors(tpath, x).contains(z) ==> 0 <= z < disc.len() && disc[z] < disc[x],
{
    reveal(tree_path_ok);
    let p = tpath[x];
    assert forall|z: int| #[trigger] ancestors(tpath, x).contains(z) implies 0 <= z < disc.len() && disc[z] < disc[x] by {
        let j = choose|j: int| 0 <= j < p.drop_last().len() && p.drop_last()[j] == z;
        assert(p[j] == z);
        assert(disc[p[j]] < disc[p[p.len() - 1]]);
    }
}

/// Walking up a tree path from its end to its `j`-th node, in an undirected
/// graph, stays outside any set that misses the nodes above the `j`-th.
#[verifier::spinoff_prover]
pub proof fn lemma_tree_up_outside(
    g: &Graph,
    disc: Seq<usize>,
    tpath: Seq<Seq<int>>,
    tedges: Seq<Seq<int>>,
    x: int,
    s: Set<int>,
    j: int,
)
    requires
        graph_wf(g),
        undirected(g),
        disc.len() == g.adjacency@.len(),
        tree_path_ok(g, disc, tpath, tedges, x),
        0 <= j < tpath[x].len(),
        forall|k: int| j < k < tpath[x].len() ==> !s.contains(#[trigger] tpath[x][k]),
    ensures
        reach_outside(g, s, x, tpath[x][j]),
    decreases tpath[x].len() - j,
{
    reveal(tree_path_ok);
    let p = tpath[x];
    if j == p.len() - 1 {
        lemma_outside_refl(g, s, x);
    } else {
        lemma_tree_up_outside(g, disc, tpath, tedges, x, s, j + 1);
        assert(has_arc(g, p[j], p[j + 1], tedges[x][j]));
        let i = choose|i: int|
            0 <= i < g.adjacency@[p[j]]@.len() && (#[trigger] g.adjacency@[p[j]]@[i]).to == p[j + 1]
                && g.adjacency@[p[j]]@[i].edge == tedges[x][j];
        let _ = g.adjacency@[p[j]]@[i];
        assert(has_arc(g, p[j + 1], p[j], tedges[x][j]));
        let i2 = choose|i2: int|
            0 <= i2 < g.adjacency@[p[j + 1]]@.len() && (#[trigger] g.adjacency@[p[j + 1]]@[i2]).to == p[j]
                && g.adjacency@[p[j + 1]]@[i2].edge == tedges[x][j];
        let _ = g.adjacency@[p[j + 1]]@[i2];
        assert(linked(g, p[j + 1], p[j]));
        lemma_outside_append(g, s, x, p[j + 1], p[j]);
    }
}

/// The node that every neighbour of `v` reaches without passing `v`: the root
/// of `v`'s tree, or, for a root, its tree child.
pub open spec fn cut_hub(tpath: Seq<Seq<int>>, parent: Seq<Option<usize>>, n: int, v: int) -> int {
    if tpath[v].len() >= 2 {
        tpath[v][0]
    } else {
        choose|c: int| 0 <= c < n && #[trigger] parent[c] == Some(v as usize)
    }
}

/// A neighbour of an unflagged node reaches its hub without passing it.
#[verifier::rlimit(50)]
#[verifier::spinoff_prover]
proof fn lemma_cut_neighbor(
    g: &Graph,
    d: Seq<usize>,
    parent: Seq<Option<usize>>,
    t: Seq<Seq<int>>,
    e: Seq<Seq<int>>,
    low: Seq<usize>,
    lowy: Seq<int>,
    cut: Seq<bool>,
    count: Seq<usize>,
    v: int,
    i: int,
)
    requires
        graph_wf(g),
        undirected(g),
        trees_ok(g, d, parent, t, e),
        cut_lows_ok(g, d, low, lowy, t),
        cut_finished_ok(g, d, low, cut, Seq::<DfsFrame>::empty(), t),
        children_ok(g, parent, count),
        roots_ok(g, d, t, cut, count, -1),
        0 <= v < g.adjacency@.len(),
        d[v] != 0,
        !cut[v],
        0 <= i < g.adjacency@[v]@.len(),
        g.adjacency@[v]@[i].to != v,
    ensures
        0 <= cut_hub(t, parent, g.adjacency@.len() as int, v) < g.adjacency@.len(),
        cut_hub(t, parent, g.adjacency@.len() as int, v) != v,
        reach_outside(g, set![v], g.adjacency@[v]@[i].to as int, cut_hub(t, parent, g.adjacency@.len() as int, v)),
{
    let n = g.adjacency@.len() as int;
    let u = g.adjacency@[v]@[i].to as int;
    let s = set![v];
    let hub = cut_hub(t, parent, n, v);
    lemma_trees_get(g, d, parent, t, e, v);
    assert(!on_stack(Seq::<DfsFrame>::empty(), v));
    assert(arcs_closed(g, d, t, v)) by {
        reveal(cut_finished_ok);
    }
    assert(d[u] != 0 && t[u][0] == t[v][0]) by {
        reveal(arcs_closed);
        let _ = g.adjacency@[v]@[i];
    }
    lemma_trees_get(g, d, parent, t, e, u);
    let pu = t[u];
    reveal(tree_path_ok);
    if exists|j: int| 0 <= j < pu.len() && pu[j] == v {
        let j = choose|j: int| 0 <= j < pu.len() && pu[j] == v;
        assert(t[pu[j]] == pu.take(j + 1));
        assert(j < pu.len() - 1);
        let c = pu[j + 1];
        assert(t[c] == pu.take(j + 2));
        assert(d[c] != 0);
        assert(c != v) by {
            assert(d[pu[j]] < d[pu[j + 1]]);
        }
        assert(parent[c] == Some(v as usize)) by {
            reveal(trees_ok);
        }
        assert forall|k: int| j + 1 < k < pu.len() implies !s.contains(#[trigger] pu[k]) by {
            assert(d[pu[j]] < d[pu[k]]);
        }
        lemma_tree_up_outside(g, d, t, e, u, s, j + 1);
        if j == 0 {
            assert(t[v].len() == 1);
            assert(cut[v] || count[v] <= 1);
            assert(0 <= hub < n && parent[hub] == Some(v as usize));
            assert(c == hub) by {
                reveal(children_ok);
                assert(parent[c] is Some && parent[hub] == parent[c]);
            }
        } else {
            assert(t[v].len() >= 2);
            assert(hub == pu[0]);
            assert(!on_stack(Seq::<DfsFrame>::empty(), c));
            assert(t[c][t[c].len() - 2] == v);
            assert(low[c] < d[v]) by {
                reveal(cut_finished_ok);
            }
            let y = lowy[c];
            assert(0 <= y < n && d[y] != 0 && d[y] == low[c] && t[y][0] == t[c][0] && reach_outside(
                g,
                ancestors(t, c),
                c,
                y,
            )) by {
                reveal(cut_lows_ok);
            }
            assert(s.subset_of(ancestors(t, c))) by {
                assert(t[c].drop_last()[j] == v);
            }
            lemma_outside_weaken(g, ancestors(t, c), s, c, y);
            lemma_trees_get(g, d, parent, t, e, y);
            crate::graph::bridge_steps::lemma_path_shape(g, d, parent, t, e, y);
            assert forall|k: int| 0 < k < t[y].len() implies !s.contains(#[trigger] t[y][k]) by {
                assert(d[t[y][k]] <= d[y]);
            }
            lemma_tree_up_outside(g, d, t, e, y, s, 0);
            lemma_outside_transitive(g, s, u, c, y);
            lemma_outside_transitive(g, s, u, y, t[y][0]);
            assert(d[pu[0]] < d[pu[j]]);
        }
    } else {
        assert forall|k: int| 0 < k < pu.len() implies !s.contains(#[trigger] pu[k]) by {
        }
        lemma_tree_up_outside(g, d, t, e, u, s, 0);
        if t[v].len() < 2 {
            assert(t[v][0] == v);
            assert(pu[0] == v);
        }
        assert(pu[0] != v);
    }
}

/// Every node the search leaves unflagged is no cut vertex: without it, its
/// neighbours stay connected.
#[verifier::spinoff_prover]
pub proof fn lemma_unflagged_not_cut(
    g: &Graph,
    d: Seq<usize>,
    parent: Seq<Option<usize>>,
    t: Seq<Seq<int>>,
    e: Seq<Seq<int>>,
    low: Seq<usize>,
    lowy: Seq<int>,
    cut: Seq<bool>,
    count: Seq<usize>,
)
    requires
        graph_wf(g),
        undirected(g),
        cut.len() == g.adjacency@.len(),
        trees_ok(g, d, parent, t, e),
        cut_lows_ok(g, d, low, lowy, t),
        cut_finished_ok(g, d, low, cut, Seq::<DfsFrame>::empty(), t),
        children_ok(g, parent, count),
        roots_ok(g, d, t, cut, count, -1),
        forall|v: int| 0 <= v < g.adjacency@.len() && g.adjacency@[v]@.len() > 0 ==> #[trigger] d[v] != 0,
    ensures
        forall|v: int| 0 <= v < g.adjacency@.len() && !#[trigger] cut[v] ==> not_cut_vertex(g, v),
{
    let n = g.adjacency@.len() as int;
    assert forall|v: int| 0 <= v < n && !#[trigger] cut[v] implies not_cut_vertex(g, v) by {
        assert forall|i: int, j: int|
            0 <= i < g.adjacency@[v]@.len() && 0 <= j < g.adjacency@[v]@.len() && g.adjacency@[v]@[i].to != v
                && g.adjacency@[v]@[j].to != v implies reach_outside(
            g,
            set![v],
            (#[trigger] g.adjacency@[v]@[i]).to as int,
            (#[trigger] g.adjacency@[v]@[j]).to as int,
        ) by {
            assert(d[v] != 0);
            lemma_cut_neighbor(g, d, parent, t, e, low, lowy, cut, count, v, i);
            lemma_cut_neighbor(g, d, parent, t, e, low, lowy, cut, count, v, j);
            let h = cut_hub(t, parent, n, v);
            lemma_outside_symmetric(g, set![v], g.adjacency@[v]@[j].to as int, h);
            lemma_outside_transitive(g, set![v], g.adjacency@[v]@[i].to as int, h, g.adjacency@[v]@[j].to as int);
        }
    }
}

/// For each node, whether it is a cut vertex: a non-root node with a tree
/// child that reaches no node discovered before it, or a tree root with more
/// than one tree child. A node is flagged exactly when two of its other
/// neighbours no longer connect once it is removed.
#[verifier::rlimit(100)]
#[verifier::spinoff_prover]
pub fn articulation_vertices<I: InterruptCheck>(graph: &Graph, interrupt: &mut I) -> (r: Result<Vec<bool>>)
    requires
        graph_wf(graph),
        undirected(graph),
        edge_ends_fixed(graph),
    ensures
        r matches Ok(a) ==> a.len() == graph.adjacency.len(),
        r matches Ok(a) ==> forall|v: int| 0 <= v < a.len() && #[trigger] a@[v] ==> graph.adjacency@[v]@.len() > 0,
        r matches Ok(a) ==> forall|v: int| 0 <= v < a.len() ==> (#[trigger] a@[v] <==> !not_cut_vertex(graph, v)),
        old(interrupt).inert() ==> r is Ok && final(interrupt).inert(),
{
    let ghost inert0 = interrupt.inert();
    let nodes = graph.adjacency.len();
    let mut discovery: Vec<usize> = Vec::new();
    let mut low: Vec<usize> = Vec::new();
    let mut parent: Vec<Option<usize>> = Vec::new();
    let mut child_count: Vec<usize> = Vec::new();
    let mut articulation: Vec<bool> = Vec::new();
    while discovery.len() < nodes
        invariant
            discovery.len() <= nodes,
            low.len() == discovery.len(),
            parent.len() == discovery.len(),
            child_count.len() == discovery.len(),
            articulation.len() == discovery.len(),
            forall|v: int| 0 <= v < discovery.len() ==> #[trigger] discovery@[v] == 0,
            forall|v: int| 0 <= v < discovery.len() ==> #[trigger] child_count@[v] == 0,
            forall|v: int| 0 <= v < discovery.len() ==> #[trigger] parent@[v] is None,
            forall|v: int| 0 <= v < discovery.len() ==> !#[trigger] articulation@[v],
        decreases nodes - discovery.len(),
    {
        discovery.push(0);
        low.push(0);
        parent.push(None);
        child_count.push(0);
        articulation.push(false);
    }
    let ghost mut tpath: Seq<Seq<int>> = Seq::new(nodes as nat, |i: int| Seq::<int>::empty());
    let ghost mut tedges: Seq<Seq<int>> = Seq::new(nodes as nat, |i: int| Seq::<int>::empty());
    let ghost mut lowy: Seq<int> = Seq::new(nodes as nat, |i: int| 0int);
    let mut clock: usize = 0;
    proof {
        lemma_count_zero_all(discovery@, nodes as int);
        reveal(trees_ok);
        reveal(cut_lows_ok);
        reveal(cut_finished_ok);
        reveal(children_ok);
        reveal(scans_ok);
    }
    let mut root: usize = 0;
    while root < nodes
        invariant
            graph_wf(graph),
            undirected(graph),
            edge_ends_fixed(graph),
            nodes == graph.adjacency.len(),
            root <= nodes,
            discovery.len() == nodes,
            low.len() == nodes,
            parent.len() == nodes,
            child_count.len() == nodes,
            articulation.len() == nodes,
            tpath.len() == nodes,
            tedges.len() == nodes,
            count_value(discovery@, 0, nodes as int) == nodes - clock,
            forall|z: int| 0 <= z < nodes ==> #[trigger] discovery@[z] <= clock,
            forall|v: int| 0 <= v < nodes ==> #[trigger] child_count@[v] <= clock,
            forall|v: int| 0 <= v < nodes && (#[trigger] parent@[v]) is Some ==> parent@[v]->0 < nodes
                && graph.adjacency@[parent@[v]->0 as int]@.len() > 0,
            forall|v: int| 0 <= v < nodes && #[trigger] articulation@[v] ==> graph.adjacency@[v]@.len() > 0,
            trees_ok(graph, discovery@, parent@, tpath, tedges),
            cut_lows_ok(graph, discovery@, low@, lowy, tpath),
            cut_finished_ok(graph, discovery@, low@, articulation@, Seq::<DfsFrame>::empty(), tpath),
            children_ok(graph, parent@, child_count@),
            roots_ok(graph, discovery@, tpath, articulation@, child_count@, -1),
            scans_ok(graph, discovery@, low@, Seq::<DfsFrame>::empty(), tpath, tedges),
            forall|v: int| 0 <= v < nodes && #[trigger] articulation@[v] ==> !not_cut_vertex(graph, v),
            forall|v: int|
                0 <= v < root && graph.adjacency@[v]@.len() > 0 ==> #[trigger] discovery@[v] != 0,
            inert0 == old(interrupt).inert(),
            inert0 ==> interrupt.inert(),
        decreases nodes - root,
    {
        match checkpoint_chunk(interrupt, root, "graph_articulation_roots") {
            Ok(()) => {},
            Err(e) => {
                return Err(e);
            },
        }
        if graph.adjacency[root].len() > 0 && discovery[root] == 0 {
            proof {
                lemma_count_value_positive(discovery@, 0, root as int, nodes as int);
            }
            clock = match clock.checked_add(1) {
                Some(c) => c,
                None => {
                    return Err(counter_overflow("DFS clock"));
                },
            };
            let ghost d0 = discovery@;
            let ghost l0 = low@;
            let ghost t0 = tpath;
            let ghost e0 = tedges;
            let ghost y0 = lowy;
            proof {
                lemma_count_value_discover(discovery@, root as int, clock, nodes as int);
            }
            discovery.set(root, clock);
            low.set(root, clock);
            let mut stack: Vec<DfsFrame> = Vec::new();
            stack.push(DfsFrame { node: root, parent_edge: None, next_arc: 0 });
            proof {
                tpath = t0.update(root as int, seq![root as int]);
                tedges = e0.update(root as int, Seq::<int>::empty());
                lowy = y0.update(root as int, root as int);
                lemma_cut_root_start(
                    graph, d0, discovery@, parent@, t0, tpath, e0, tedges, l0, low@, y0, lowy,
                    articulation@, child_count@, stack@, root as int, clock as int,
                );
                assert(l0.len() == d0.len()) by {
                    reveal(cut_lows_ok);
                }
                lemma_scans_root(graph, d0, discovery@, parent@, l0, low@, t0, tpath, e0, tedges, stack@, root as int);
            }
            while stack.len() > 0
                invariant
                    graph_wf(graph),
                    undirected(graph),
                    edge_ends_fixed(graph),
                    nodes == graph.adjacency.len(),
                    root < nodes,
                    graph.adjacency@[root as int]@.len() > 0,
                    discovery@[root as int] != 0,
                    tpath[root as int].len() == 1,
                    discovery.len() == nodes,
                    low.len() == nodes,
                    parent.len() == nodes,
                    child_count.len() == nodes,
                    articulation.len() == nodes,
                    tpath.len() == nodes,
                    tedges.len() == nodes,
                    1 <= clock,
                    count_value(discovery@, 0, nodes as int) == nodes - clock,
                    forall|z: int| 0 <= z < nodes ==> #[trigger] discovery@[z] <= clock,
                    forall|v: int| 0 <= v < nodes ==> #[trigger] child_count@[v] <= clock,
                    forall|v: int| 0 <= v < nodes && (#[trigger] parent@[v]) is Some ==> parent@[v]->0 < nodes
                        && graph.adjacency@[parent@[v]->0 as int]@.len() > 0,
                    forall|v: int| 0 <= v < nodes && #[trigger] articulation@[v] ==> graph.adjacency@[v]@.len() > 0,
                    trees_ok(graph, discovery@, parent@, tpath, tedges),
                    cut_lows_ok(graph, discovery@, low@, lowy, tpath),
                    cut_finished_ok(graph, discovery@, low@, articulation@, stack@, tpath),
                    children_ok(graph, parent@, child_count@),
                    roots_ok(graph, discovery@, tpath, articulation@, child_count@, root as int),
                    scans_ok(graph, discovery@, low@, stack@, tpath, tedges),
                    forall|v: int| 0 <= v < nodes && #[trigger] articulation@[v] ==> !not_cut_vertex(graph, v),
                    stack.len() > 0 ==> stack_ok(graph, discovery@, stack@, tpath, tedges),
                    stack.len() > 0 ==> stack@[0].node == root,
                    frames_valid(graph, stack@),
                    forall|v: int|
                        0 <= v < root && graph.adjacency@[v]@.len() > 0 ==> #[trigger] discovery@[v] != 0,
                    inert0 == old(interrupt).inert(),
                    inert0 ==> interrupt.inert(),
                decreases count_value(discovery@, 0, nodes as int), stack_work(graph, stack@),
            {
                match interrupt.checkpoint("graph_articulation_dfs") {
                    Ok(()) => {},
                    Err(e) => {
                        return Err(e);
                    },
                }
                let top = stack.len() - 1;
                let frame = stack[top];
                let node = frame.node;
                let ghost s0 = stack@;
                proof {
                    lemma_top_facts(graph, discovery@, parent@, tpath, tedges, s0);
                    lemma_count_value_bound(discovery@, 0, nodes as int);
                    lemma_stack_work_nonneg(graph, s0);
                }
                if frame.next_arc < graph.adjacency[node].len() {
                    let arc = graph.adjacency[node][frame.next_arc];
                    proof {
                        let _ = graph.adjacency@[node as int]@[frame.next_arc as int];
                    }
                    let stepped = DfsFrame { node, parent_edge: frame.parent_edge, next_arc: frame.next_arc + 1 };
                    stack.set(top, stepped);
                    proof {
                        assert(stack@ == advanced(s0));
                        assert(stack@[0].node == root);
                    }
                    let skip = match frame.parent_edge {
                        Some(edge) => edge == arc.edge,
                        None => false,
                    };
                    if skip {
                        proof {
                            lemma_cut_scan_skip(graph, discovery@, parent@, tpath, tedges, low@, articulation@, s0);
                            lemma_scans_skip(graph, discovery@, parent@, tpath, tedges, low@, s0);
                        }
                    } else if discovery[arc.to] == 0 {
                        let ghost d0 = discovery@;
                        let ghost p0 = parent@;
                        let ghost k0 = child_count@;
                        let ghost l0 = low@;
                        let ghost t0 = tpath;
                        let ghost e0 = tedges;
                        let ghost y0 = lowy;
                        let child = arc.to;
                        proof {
                            lemma_count_value_positive(discovery@, 0, child as int, nodes as int);
                            assert(parent@[child as int] is None) by {
                                reveal(trees_ok);
                            }
                        }
                        parent.set(child, Some(node));
                        let children = child_count[node] + 1;
                        child_count.set(node, children);
                        clock = match clock.checked_add(1) {
                            Some(c) => c,
                            None => {
                                return Err(counter_overflow("DFS clock"));
                            },
                        };
                        proof {
                            lemma_count_value_discover(discovery@, child as int, clock, nodes as int);
                        }
                        discovery.set(child, clock);
                        low.set(child, clock);
                        stack.push(DfsFrame { node: child, parent_edge: Some(arc.edge), next_arc: 0 });
                        proof {
                            let x = node as int;
                            let c = child as int;
                            let k = arc.edge as int;
                            tpath = t0.update(c, t0[x].push(c));
                            tedges = e0.update(c, e0[x].push(k));
                            lowy = y0.update(c, c);
                            assert(has_arc(graph, x, c, k));
                            lemma_trees_get(graph, d0, p0, t0, e0, x);
                            lemma_push_trees(graph, d0, discovery@, p0, parent@, t0, tpath, e0, tedges, x, c, k, clock as int);
                            lemma_cut_push_lows(graph, d0, discovery@, t0, tpath, l0, low@, y0, lowy, x, c, clock as int);
                            lemma_push_stack(graph, d0, discovery@, p0, t0, tpath, e0, tedges, s0, stack@);
                            lemma_cut_push_finished(graph, d0, discovery@, p0, l0, low@, articulation@, s0, stack@, t0, tpath, e0, c);
                            lemma_cut_push_children(graph, p0, parent@, k0, child_count@, x, c);
                            assert(l0.len() == d0.len()) by {
                                reveal(cut_lows_ok);
                            }
                            lemma_scans_push(graph, d0, discovery@, p0, l0, low@, t0, tpath, e0, tedges, s0, stack@);
                            assert(s0[0].node == t0[x][0]);
                            lemma_cut_push_roots(graph, d0, discovery@, t0, tpath, e0, articulation@, k0, child_count@, x, c, root as int);
                            assert(stack@[0].node == root);
                        }
                    } else {
                        let reached = discovery[arc.to];
                        let ghost l0 = low@;
                        let ghost y0 = lowy;
                        if reached < low[node] {
                            low.set(node, reached);
                            proof {
                                lowy = y0.update(node as int, arc.to as int);
                            }
                        }
                        proof {
                            lemma_cut_scan_seen(graph, discovery@, parent@, tpath, tedges, l0, low@, y0, lowy, articulation@, s0);
                            assert(l0.len() == discovery@.len()) by {
                                reveal(cut_lows_ok);
                            }
                            lemma_scans_seen(graph, discovery@, parent@, tpath, tedges, l0, low@, s0);
                        }
                    }
                } else {
                    stack.pop();
                    proof {
                        assert(stack@ == s0.drop_last());
                    }
                    let ghost l0 = low@;
                    let ghost y0 = lowy;
                    let ghost c0 = articulation@;
                    proof {
                        if s0.len() >= 2 {
                            lemma_top_path(graph, discovery@, parent@, tpath, tedges, s0);
                            let p = tpath[node as int][s0.len() - 2];
                            assert(parent@[p] is Some == (tpath[p].len() >= 2)) by {
                                reveal(trees_ok);
                            }
                        }
                    }
                    match parent[node] {
                        Some(parent_node) => {
                            if low[node] < low[parent_node] {
                                let reached = low[node];
                                low.set(parent_node, reached);
                                proof {
                                    lowy = y0.update(parent_node as int, y0[node as int]);
                                }
                            }
                            if parent[parent_node].is_some() && low[node] >= discovery[parent_node] {
                                articulation.set(parent_node, true);
                            }
                        },
                        None => {},
                    }
                    proof {
                        if s0.len() >= 2 {
                            lemma_cut_pop_lows(graph, discovery@, parent@, tpath, tedges, l0, low@, y0, lowy, s0);
                            lemma_pop_stack(graph, discovery@, parent@, tpath, tedges, s0);
                            assert(stack@[0].node == root);
                        } else {
                            assert(stack@.len() == 0);
                        }
                        lemma_cut_pop_finished(
                            graph, discovery@, parent@, tpath, tedges, l0, low@, c0, articulation@,
                            child_count@, s0, root as int,
                        );
                        assert(l0.len() == discovery@.len() && l0[node as int] <= discovery@[node as int]) by {
                            reveal(cut_lows_ok);
                        }
                        lemma_scans_pop(graph, discovery@, parent@, tpath, tedges, l0, low@, s0);
                        lemma_popped_below_none(graph, discovery@, parent@, tpath, tedges, s0);
                        if s0.len() >= 2 {
                            let p = tpath[node as int][s0.len() - 2];
                            if tpath[p].len() >= 2 && l0[node as int] >= discovery@[p] {
                                lemma_trees_get(graph, discovery@, parent@, tpath, tedges, node as int);
                                lemma_trees_get(graph, discovery@, parent@, tpath, tedges, p);
                                reveal(tree_path_ok);
                                assert(tpath[p] == tpath[node as int].take(s0.len() - 1));
                                lemma_flag_cut(graph, discovery@, parent@, tpath, tedges, low@, stack@, node as int);
                            }
                        }
                    }
                }
                proof {
                    lemma_stack_work_nonneg(graph, stack@);
                    lemma_count_value_bound(discovery@, 0, nodes as int);
                }
            }
            let ghost c0 = articulation@;
            articulation.set(root, child_count[root] > 1);
            proof {
                assert(stack@ =~= Seq::<DfsFrame>::empty());
                if child_count@[root as int] > 1 {
                    reveal(children_ok);
                    assert(child_count@[root as int] >= 2);
                    let (c1, c2) = choose|c1: int, c2: int|
                        0 <= c1 < nodes && 0 <= c2 < nodes && c1 != c2 && parent@[c1] == Some(root as usize)
                            && parent@[c2] == Some(root as usize);
                    lemma_flag_root(
                        graph, discovery@, parent@, tpath, tedges, low@, Seq::<DfsFrame>::empty(), root as int, c1,
                        c2,
                    );
                }
                assert(cut_finished_ok(graph, discovery@, low@, c0, Seq::<DfsFrame>::empty(), tpath));
                assert(cut_finished_ok(graph, discovery@, low@, articulation@, Seq::<DfsFrame>::empty(), tpath)) by {
                    reveal(cut_finished_ok);
                    let t = tpath;
                    assert forall|x: int|
                        0 <= x < nodes && #[trigger] discovery@[x] != 0 && !on_stack(Seq::<DfsFrame>::empty(), x) implies {
                            &&& arcs_closed(graph, discovery@, t, x)
                            &&& (t[x].len() >= 2 && t[t[x][t[x].len() - 2]].len() >= 2) ==> (articulation@[t[x][t[x].len()
                                - 2]] || low@[x] < discovery@[t[x][t[x].len() - 2]])
                        } by {
                        if t[x].len() >= 2 && t[t[x][t[x].len() - 2]].len() >= 2 {
                            let q = t[x][t[x].len() - 2];
                            assert(q != root);
                            lemma_trees_get(graph, discovery@, parent@, t, tedges, x);
                            reveal(tree_path_ok);
                            assert(0 <= q < nodes);
                            assert(articulation@[q] == c0[q]);
                        }
                    }
                }
            }
        }
        root = root + 1;
    }
    proof {
        lemma_unflagged_not_cut(graph, discovery@, parent@, tpath, tedges, low@, lowy, articulation@, child_count@);
    }
    Ok(articulation)
}

} // verus!
