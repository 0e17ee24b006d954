//! Cut edges of an undirected multigraph by an iterative depth-first search
//! with discovery times and low links, and the proof that it flags exactly
//! the edges whose removal separates their two ends.

use vstd::prelude::*;

use crate::error::{BackendError, Result};
use crate::graph::component::count_value;
use crate::graph::dfs::{
    frames_valid, lemma_count_value_bound, lemma_count_value_discover,
    lemma_count_value_positive, lemma_count_zero_all, lemma_stack_work_nonneg, stack_work,
    DfsFrame,
};
use crate::graph::scans::{
    lemma_flag_bridge, lemma_popped_below_none, lemma_scans_pop, lemma_scans_push, lemma_scans_root,
    lemma_scans_seen, lemma_scans_skip, scans_ok,
};
use crate::graph::walks::{
    edge_ends_fixed, edge_not_bridge, has_arc, lemma_reach_refl, lemma_reach_step,
    lemma_reach_symmetric, lemma_reach_transitive, reach_avoiding,
    step_avoiding, undirected,
};
use crate::graph::bridge_steps::{
    advanced, lemma_pop_finished, lemma_pop_lows, lemma_pop_stack, lemma_push_finished,
    lemma_push_lows, lemma_push_stack, lemma_push_trees, lemma_root_start, lemma_scan_seen,
    lemma_scan_skip, lemma_top_facts, lemma_top_path, lemma_trees_get, lemma_unflagged_not_bridge,
};
use crate::graph::{counter_overflow, graph_wf, Graph};
use crate::interrupt::{checkpoint_chunk, InterruptCheck};

verus! {

/// The depth-first tree path of a discovered node `x`: from its root down to
/// `x` along arcs whose edge ids are `tedges[x]`, with increasing discovery
/// times, and whose prefixes are the tree paths of the nodes on it.
#[verifier::opaque]
pub open spec fn tree_path_ok(
    g: &Graph,
    disc: Seq<usize>,
    tpath: Seq<Seq<int>>,
    tedges: Seq<Seq<int>>,
    x: int,
) -> bool {
    let p = tpath[x];
    let t = tedges[x];
    &&& p.len() >= 1
    &&& p.last() == x
    &&& t.len() == p.len() - 1
    &&& forall|j: int| 0 <= j < p.len() ==> 0 <= #[trigger] p[j] < disc.len() && disc[p[j]] != 0
    &&& forall|j: int| 0 <= j < p.len() - 1 ==> has_arc(g, #[trigger] p[j], p[j + 1], t[j])
    &&& forall|j: int, k: int| 0 <= j < k < p.len() ==> disc[#[trigger] p[j]] < disc[#[trigger] p[k]]
    &&& forall|j: int|
        0 <= j < p.len() ==> tpath[#[trigger] p[j]] == p.take(j + 1) && tedges[p[j]] == t.take(j)
}

/// Every discovered node has a tree path and knows its tree parent.
#[verifier::opaque]
pub open spec fn trees_ok(
    g: &Graph,
    disc: Seq<usize>,
    parent: Seq<Option<usize>>,
    tpath: Seq<Seq<int>>,
    tedges: Seq<Seq<int>>,
) -> bool {
    let n = g.adjacency@.len();
    &&& disc.len() == n
    &&& parent.len() == n
    &&& tpath.len() == n
    &&& tedges.len() == n
    &&& forall|x: int| 0 <= x < n && #[trigger] disc[x] != 0 ==> tree_path_ok(g, disc, tpath, tedges, x)
    &&& forall|x: int|
        0 <= x < n && disc[x] != 0 ==> #[trigger] parent[x] == if tpath[x].len() >= 2 {
            Some(tpath[x][tpath[x].len() - 2] as usize)
        } else {
            None::<usize>
        }
    &&& forall|x: int| 0 <= x < n && disc[x] == 0 ==> (#[trigger] parent[x]) is None
}

/// Every discovered node's low link is the discovery time of a node of the
/// same tree that it reaches without its ancestors' tree edges.
#[verifier::opaque]
pub open spec fn lows_ok(
    g: &Graph,
    disc: Seq<usize>,
    low: Seq<usize>,
    lowy: Seq<int>,
    tpath: Seq<Seq<int>>,
    tedges: Seq<Seq<int>>,
) -> bool {
    let n = g.adjacency@.len();
    &&& low.len() == n
    &&& lowy.len() == n
    &&& forall|x: int|
        0 <= x < n && #[trigger] disc[x] != 0 ==> {
            let y = lowy[x];
            &&& 0 <= y < n
            &&& disc[y] != 0
            &&& disc[y] == low[x]
            &&& low[x] <= disc[x]
            &&& tpath[y][0] == tpath[x][0]
            &&& reach_avoiding(g, tedges[x].to_set(), x, y)
        }
}

/// Every arc of `x` leads to a discovered node of the same tree.
#[verifier::opaque]
pub open spec fn arcs_closed(g: &Graph, disc: Seq<usize>, tpath: Seq<Seq<int>>, x: int) -> bool {
    forall|i: int|
        0 <= i < g.adjacency@[x]@.len() ==> {
            let y = (#[trigger] g.adjacency@[x]@[i]).to as int;
            disc[y] != 0 && tpath[y][0] == tpath[x][0]
        }
}

/// `x` has a frame on the stack.
pub open spec fn on_stack(stack: Seq<DfsFrame>, x: int) -> bool {
    exists|k: int| 0 <= k < stack.len() && (#[trigger] stack[k]).node == x
}

/// Finished nodes have every arc closed, and the tree edge into a finished
/// non-root node is flagged unless its low link reaches its parent.
#[verifier::opaque]
pub open spec fn finished_ok(
    g: &Graph,
    disc: Seq<usize>,
    low: Seq<usize>,
    bridge: Seq<bool>,
    stack: Seq<DfsFrame>,
    tpath: Seq<Seq<int>>,
    tedges: Seq<Seq<int>>,
) -> bool {
    forall|x: int|
        0 <= x < g.adjacency@.len() && #[trigger] disc[x] != 0 && !on_stack(stack, x) ==> {
            &&& arcs_closed(g, disc, tpath, x)
            &&& tpath[x].len() >= 2 ==> (bridge[tedges[x].last()] || low[x] <= disc[tpath[x][tpath[x].len()
                - 2]])
        }
}

/// The stack holds the tree path of its top node, each frame with the tree
/// edge into it, and the arcs already scanned lead into the same tree.
#[verifier::opaque]
pub open spec fn stack_ok(
    g: &Graph,
    disc: Seq<usize>,
    stack: Seq<DfsFrame>,
    tpath: Seq<Seq<int>>,
    tedges: Seq<Seq<int>>,
) -> bool {
    let top = stack.last().node as int;
    &&& stack.len() >= 1
    &&& 0 <= top < g.adjacency@.len()
    &&& disc[top] != 0
    &&& tpath[top].len() == stack.len()
    &&& forall|k: int| 0 <= k < stack.len() ==> (#[trigger] stack[k]).node == tpath[top][k]
    &&& stack[0].parent_edge is None
    &&& forall|k: int| 0 < k < stack.len() ==> (#[trigger] stack[k]).parent_edge == Some(tedges[top][k - 1] as usize)
    &&& forall|k: int, i: int|
        0 <= k < stack.len() && 0 <= i < stack[k].next_arc ==> {
            let y = (#[trigger] g.adjacency@[stack[k].node as int]@[i]).to as int;
            disc[y] != 0 && tpath[y][0] == tpath[top][0]
        }
}

/// Walking down a tree path from its `j`-th node reaches its end, avoiding
/// any edge that the rest of the path does not use.
#[verifier::spinoff_prover]
pub proof fn lemma_tree_down(
    g: &Graph,
    disc: Seq<usize>,
    tpath: Seq<Seq<int>>,
    tedges: Seq<Seq<int>>,
    x: int,
    avoid: Set<int>,
    j: int,
)
    requires
        graph_wf(g),
        disc.len() == g.adjacency@.len(),
        tree_path_ok(g, disc, tpath, tedges, x),
        0 <= j < tpath[x].len(),
        forall|k: int| j <= k < tedges[x].len() ==> !avoid.contains(#[trigger] tedges[x][k]),
    ensures
        reach_avoiding(g, avoid, tpath[x][j], x),
    decreases tpath[x].len() - j,
{
    reveal(tree_path_ok);
    let p = tpath[x];
    let t = tedges[x];
    if j == p.len() - 1 {
        lemma_reach_refl(g, avoid, x);
    } else {
        lemma_tree_down(g, disc, tpath, tedges, x, avoid, j + 1);
        assert(has_arc(g, p[j], p[j + 1], t[j]));
        let i = choose|i: int|
            0 <= i < g.adjacency@[p[j]]@.len() && (#[trigger] g.adjacency@[p[j]]@[i]).to == p[j + 1]
                && g.adjacency@[p[j]]@[i].edge == t[j];
        assert(step_avoiding(g, avoid, p[j], p[j + 1]));
        lemma_reach_refl(g, avoid, p[j]);
        lemma_reach_step(g, avoid, p[j], p[j], p[j + 1]);
        lemma_reach_transitive(g, avoid, p[j], p[j + 1], x);
    }
}

/// An edge that joins `a` to a node `b` off the tree path of `x` is not on that path.
#[verifier::spinoff_prover]
pub proof fn lemma_edge_off_path(
    g: &Graph,
    disc: Seq<usize>,
    tpath: Seq<Seq<int>>,
    tedges: Seq<Seq<int>>,
    x: int,
    a: int,
    b: int,
    e: int,
)
    requires
        graph_wf(g),
        edge_ends_fixed(g),
        disc.len() == g.adjacency@.len(),
        tree_path_ok(g, disc, tpath, tedges, x),
        0 <= a < g.adjacency@.len(),
        has_arc(g, a, b, e),
        forall|j: int| 0 <= j < tpath[x].len() ==> #[trigger] tpath[x][j] != b,
    ensures
        !tedges[x].to_set().contains(e),
{
    reveal(tree_path_ok);
    if tedges[x].to_set().contains(e) {
        let p = tpath[x];
        let t = tedges[x];
        let j = choose|j: int| 0 <= j < t.len() && t[j] == e;
        assert(has_arc(g, p[j], p[j + 1], t[j]));
        let i1 = choose|i: int|
            0 <= i < g.adjacency@[p[j]]@.len() && (#[trigger] g.adjacency@[p[j]]@[i]).to == p[j + 1]
                && g.adjacency@[p[j]]@[i].edge == t[j];
        let i2 = choose|i: int|
            0 <= i < g.adjacency@[a]@.len() && (#[trigger] g.adjacency@[a]@[i]).to == b
                && g.adjacency@[a]@[i].edge == e;
        let _ = g.adjacency@[p[j]]@[i1];
        let _ = g.adjacency@[a]@[i2];
        assert(p[j] != b && p[j + 1] != b);
    }
}

/// An arc of `x` whose edge is not the tree edge into `x` uses no tree edge of its path.
#[verifier::spinoff_prover]
pub proof fn lemma_edge_not_parent(
    g: &Graph,
    disc: Seq<usize>,
    tpath: Seq<Seq<int>>,
    tedges: Seq<Seq<int>>,
    x: int,
    y: int,
    e: int,
)
    requires
        graph_wf(g),
        edge_ends_fixed(g),
        disc.len() == g.adjacency@.len(),
        tree_path_ok(g, disc, tpath, tedges, x),
        has_arc(g, x, y, e),
        tedges[x].len() == 0 || e != tedges[x].last(),
    ensures
        !tedges[x].to_set().contains(e),
{
    reveal(tree_path_ok);
    if tedges[x].to_set().contains(e) {
        let p = tpath[x];
        let t = tedges[x];
        let j = choose|j: int| 0 <= j < t.len() && t[j] == e;
        assert(has_arc(g, p[j], p[j + 1], t[j]));
        let i1 = choose|i: int|
            0 <= i < g.adjacency@[p[j]]@.len() && (#[trigger] g.adjacency@[p[j]]@[i]).to == p[j + 1]
                && g.adjacency@[p[j]]@[i].edge == t[j];
        let i2 = choose|i: int|
            0 <= i < g.adjacency@[x]@.len() && (#[trigger] g.adjacency@[x]@[i]).to == y
                && g.adjacency@[x]@[i].edge == e;
        let _ = g.adjacency@[p[j]]@[i1];
        let _ = g.adjacency@[x]@[i2];
        let last = p.len() - 1;
        assert(p[last] == x);
        if j + 1 < last {
            assert(disc[p[j + 1]] < disc[p[last]]);
        }
        assert(disc[p[j]] < disc[p[last]]);
        assert(p[j + 1] == x);
        assert(j == t.len() - 1);
    }
}

/// A tree path is unchanged by discovering a node off it.
#[verifier::spinoff_prover]
pub proof fn lemma_tree_path_frame(
    g: &Graph,
    disc: Seq<usize>,
    disc2: Seq<usize>,
    tpath: Seq<Seq<int>>,
    tpath2: Seq<Seq<int>>,
    tedges: Seq<Seq<int>>,
    tedges2: Seq<Seq<int>>,
    z: int,
    c: int,
)
    requires
        tree_path_ok(g, disc, tpath, tedges, z),
        disc2.len() == disc.len(),
        0 <= c < disc.len(),
        disc[c] == 0,
        forall|w: int| 0 <= w < disc.len() && w != c ==> #[trigger] disc2[w] == disc[w],
        forall|w: int| 0 <= w < disc.len() && w != c ==> #[trigger] tpath2[w] == tpath[w],
        forall|w: int| 0 <= w < disc.len() && w != c ==> #[trigger] tedges2[w] == tedges[w],
    ensures
        tree_path_ok(g, disc2, tpath2, tedges2, z),
{
    reveal(tree_path_ok);
    let p = tpath[z];
    assert(p.last() == z);
    assert(z != c) by {
        assert(disc[p[p.len() - 1]] != 0);
    }
    assert(tpath2[z] == p);
    assert(tedges2[z] == tedges[z]);
    assert forall|j: int| 0 <= j < p.len() implies #[trigger] p[j] != c by {
        assert(disc[p[j]] != 0);
    }
    assert forall|j: int| 0 <= j < p.len() implies 0 <= #[trigger] p[j] < disc2.len() && disc2[p[j]] != 0 by {
        assert(p[j] != c);
    }
    assert forall|j: int, k: int| 0 <= j < k < p.len() implies disc2[#[trigger] p[j]] < disc2[#[trigger] p[k]] by {
        assert(p[j] != c && p[k] != c);
    }
    assert forall|j: int| 0 <= j < p.len() implies tpath2[#[trigger] p[j]] == p.take(j + 1) && tedges2[p[j]]
        == tedges[z].take(j) by {
        assert(p[j] != c);
    }
}

/// Walking up a tree path reaches its root, in an undirected graph.
#[verifier::spinoff_prover]
pub proof fn lemma_tree_up(
    g: &Graph,
    disc: Seq<usize>,
    tpath: Seq<Seq<int>>,
    tedges: Seq<Seq<int>>,
    x: int,
    avoid: Set<int>,
)
    requires
        graph_wf(g),
        undirected(g),
        disc.len() == g.adjacency@.len(),
        tree_path_ok(g, disc, tpath, tedges, x),
        forall|k: int| 0 <= k < tedges[x].len() ==> !avoid.contains(#[trigger] tedges[x][k]),
    ensures
        reach_avoiding(g, avoid, x, tpath[x][0]),
        reach_avoiding(g, avoid, tpath[x][0], x),
{
    assert(tpath[x].len() >= 1) by {
        reveal(tree_path_ok);
    }
    lemma_tree_down(g, disc, tpath, tedges, x, avoid, 0);
    lemma_reach_symmetric(g, avoid, tpath[x][0], x);
}

/// For each edge id of an undirected multigraph, whether it is a cut edge:
/// the tree edge into a search child whose low link stays above its parent.
/// An edge is flagged exactly when some arc carrying it has ends that no
/// longer connect once the edge is removed.
#[verifier::rlimit(100)]
#[verifier::spinoff_prover]
pub fn bridge_edges<I: InterruptCheck>(graph: &Graph, interrupt: &mut I) -> (r: Result<Vec<bool>>)
    requires
        graph_wf(graph),
        undirected(graph),
        edge_ends_fixed(graph),
    ensures
        r matches Ok(b) ==> b.len() == graph.edges,
        r matches Ok(b) ==> forall|q: int| 0 <= q < graph.edges ==> (#[trigger] b@[q] <==> !edge_not_bridge(graph, q)),
        old(interrupt).inert() ==> r is Ok && final(interrupt).inert(),
{
    let ghost inert0 = interrupt.inert();
    let nodes = graph.adjacency.len();
    let mut discovery: Vec<usize> = Vec::new();
    let mut low: Vec<usize> = Vec::new();
    let mut parent: Vec<Option<usize>> = Vec::new();
    let mut bridge: Vec<bool> = Vec::new();
    while bridge.len() < graph.edges
        invariant
            bridge.len() <= graph.edges,
            forall|q: int| 0 <= q < bridge.len() ==> !#[trigger] bridge@[q],
        decreases graph.edges - bridge.len(),
    {
        bridge.push(false);
    }
    while discovery.len() < nodes
        invariant
            discovery.len() <= nodes,
            low.len() == discovery.len(),
            parent.len() == discovery.len(),
            forall|v: int| 0 <= v < discovery.len() ==> #[trigger] discovery@[v] == 0,
            forall|v: int| 0 <= v < discovery.len() ==> #[trigger] parent@[v] is None,
        decreases nodes - discovery.len(),
    {
        discovery.push(0);
        low.push(0);
        parent.push(None);
    }
    let ghost mut tpath: Seq<Seq<int>> = Seq::new(nodes as nat, |i: int| Seq::<int>::empty());
    let ghost mut tedges: Seq<Seq<int>> = Seq::new(nodes as nat, |i: int| Seq::<int>::empty());
    let ghost mut lowy: Seq<int> = Seq::new(nodes as nat, |i: int| 0int);
    let mut clock: usize = 0;
    proof {
        lemma_count_zero_all(discovery@, nodes as int);
        reveal(trees_ok);
        reveal(lows_ok);
        reveal(finished_ok);
        reveal(scans_ok);
    }
    let mut root: usize = 0;
    while root < nodes
        invariant
            graph_wf(graph),
            undirected(graph),
            edge_ends_fixed(graph),
            nodes == graph.adjacency.len(),
            root <= nodes,
            discovery.len() == nodes,
            low.len() == nodes,
            parent.len() == nodes,
            tpath.len() == nodes,
            tedges.len() == nodes,
            bridge.len() == graph.edges,
            count_value(discovery@, 0, nodes as int) == nodes - clock,
            forall|z: int| 0 <= z < nodes ==> #[trigger] discovery@[z] <= clock,
            trees_ok(graph, discovery@, parent@, tpath, tedges),
            lows_ok(graph, discovery@, low@, lowy, tpath, tedges),
            finished_ok(graph, discovery@, low@, bridge@, Seq::<DfsFrame>::empty(), tpath, tedges),
            scans_ok(graph, discovery@, low@, Seq::<DfsFrame>::empty(), tpath, tedges),
            forall|q: int| 0 <= q < graph.edges && #[trigger] bridge@[q] ==> !edge_not_bridge(graph, q),
            forall|v: int|
                0 <= v < root && graph.adjacency@[v]@.len() > 0 ==> #[trigger] discovery@[v] != 0,
            inert0 == old(interrupt).inert(),
            inert0 ==> interrupt.inert(),
        decreases nodes - root,
    {
        match checkpoint_chunk(interrupt, root, "graph_bridge_roots") {
            Ok(()) => {},
            Err(e) => {
                return Err(e);
            },
        }
        if graph.adjacency[root].len() > 0 && discovery[root] == 0 {
            proof {
                lemma_count_value_positive(discovery@, 0, root as int, nodes as int);
            }
            clock = match clock.checked_add(1) {
                Some(c) => c,
                None => {
                    return Err(counter_overflow("DFS clock"));
                },
            };
            let ghost d0 = discovery@;
            let ghost l0 = low@;
            let ghost t0 = tpath;
            let ghost e0 = tedges;
            let ghost y0 = lowy;
            proof {
                lemma_count_value_discover(discovery@, root as int, clock, nodes as int);
            }
            discovery.set(root, clock);
            low.set(root, clock);
            let mut stack: Vec<DfsFrame> = Vec::new();
            stack.push(DfsFrame { node: root, parent_edge: None, next_arc: 0 });
            proof {
                tpath = t0.update(root as int, seq![root as int]);
                tedges = e0.update(root as int, Seq::<int>::empty());
                lowy = y0.update(root as int, root as int);
                lemma_root_start(
                    graph, d0, discovery@, parent@, t0, tpath, e0, tedges, l0, low@, y0, lowy,
                    bridge@, stack@, root as int, clock as int,
                );
                assert(l0.len() == d0.len()) by {
                    reveal(lows_ok);
                }
                lemma_scans_root(graph, d0, discovery@, parent@, l0, low@, t0, tpath, e0, tedges, stack@, root as int);
            }
            while stack.len() > 0
                invariant
                    graph_wf(graph),
                    undirected(graph),
                    edge_ends_fixed(graph),
                    nodes == graph.adjacency.len(),
                    root < nodes,
                    discovery@[root as int] != 0,
                    discovery.len() == nodes,
                    low.len() == nodes,
                    parent.len() == nodes,
                    tpath.len() == nodes,
                    tedges.len() == nodes,
                    bridge.len() == graph.edges,
                    1 <= clock,
                    count_value(discovery@, 0, nodes as int) == nodes - clock,
                    forall|z: int| 0 <= z < nodes ==> #[trigger] discovery@[z] <= clock,
                    trees_ok(graph, discovery@, parent@, tpath, tedges),
                    lows_ok(graph, discovery@, low@, lowy, tpath, tedges),
                    finished_ok(graph, discovery@, low@, bridge@, stack@, tpath, tedges),
                    scans_ok(graph, discovery@, low@, stack@, tpath, tedges),
                    forall|q: int| 0 <= q < graph.edges && #[trigger] bridge@[q] ==> !edge_not_bridge(graph, q),
                    stack.len() > 0 ==> stack_ok(graph, discovery@, stack@, tpath, tedges),
                    frames_valid(graph, stack@),
                    forall|v: int|
                        0 <= v < root && graph.adjacency@[v]@.len() > 0 ==> #[trigger] discovery@[v] != 0,
                    inert0 == old(interrupt).inert(),
                    inert0 ==> interrupt.inert(),
                decreases count_value(discovery@, 0, nodes as int), stack_work(graph, stack@),
            {
                match interrupt.checkpoint("graph_bridge_dfs") {
                    Ok(()) => {},
                    Err(e) => {
                        return Err(e);
                    },
                }
                let top = stack.len() - 1;
                let frame = stack[top];
                let node = frame.node;
                let ghost s0 = stack@;
                proof {
                    lemma_top_facts(graph, discovery@, parent@, tpath, tedges, s0);
                    lemma_count_value_bound(discovery@, 0, nodes as int);
                    lemma_stack_work_nonneg(graph, s0);
                }
                if frame.next_arc < graph.adjacency[node].len() {
                    let arc = graph.adjacency[node][frame.next_arc];
                    proof {
                        let _ = graph.adjacency@[node as int]@[frame.next_arc as int];
                    }
                    let stepped = DfsFrame { node, parent_edge: frame.parent_edge, next_arc: frame.next_arc + 1 };
                    stack.set(top, stepped);
                    proof {
                        assert(stack@ == advanced(s0));
                    }
                    let skip = match frame.parent_edge {
                        Some(edge) => edge == arc.edge,
                        None => false,
                    };
                    if skip {
                        proof {
                            lemma_scan_skip(graph, discovery@, parent@, tpath, tedges, low@, bridge@, s0);
                            lemma_scans_skip(graph, discovery@, parent@, tpath, tedges, low@, s0);
                        }
                    } else if discovery[arc.to] == 0 {
                        let ghost d0 = discovery@;
                        let ghost p0 = parent@;
                        let ghost l0 = low@;
                        let ghost t0 = tpath;
                        let ghost e0 = tedges;
                        let ghost y0 = lowy;
                        let child = arc.to;
                        proof {
                            lemma_count_value_positive(discovery@, 0, child as int, nodes as int);
                        }
                        clock = match clock.checked_add(1) {
                            Some(c) => c,
                            None => {
                                return Err(counter_overflow("DFS clock"));
                            },
                        };
                        proof {
                            lemma_count_value_discover(discovery@, child as int, clock, nodes as int);
                        }
                        parent.set(child, Some(node));
                        discovery.set(child, clock);
                        low.set(child, clock);
                        stack.push(DfsFrame { node: child, parent_edge: Some(arc.edge), next_arc: 0 });
                        proof {
                            let x = node as int;
                            let c = child as int;
                            let k = arc.edge as int;
                            tpath = t0.update(c, t0[x].push(c));
                            tedges = e0.update(c, e0[x].push(k));
                            lowy = y0.update(c, c);
                            assert(has_arc(graph, x, c, k));
                            lemma_trees_get(graph, d0, p0, t0, e0, x);
                            lemma_push_trees(graph, d0, discovery@, p0, parent@, t0, tpath, e0, tedges, x, c, k, clock as int);
                            lemma_push_lows(graph, d0, discovery@, t0, tpath, e0, tedges, l0, low@, y0, lowy, x, c, k, clock as int);
                            lemma_push_stack(graph, d0, discovery@, p0, t0, tpath, e0, tedges, s0, stack@);
                            lemma_push_finished(graph, d0, discovery@, p0, l0, low@, bridge@, s0, stack@, t0, tpath, e0, tedges, c);
                            assert(l0.len() == d0.len()) by {
                                reveal(lows_ok);
                            }
                            lemma_scans_push(graph, d0, discovery@, p0, l0, low@, t0, tpath, e0, tedges, s0, stack@);
                        }
                    } else {
                        let reached = discovery[arc.to];
                        let ghost l0 = low@;
                        let ghost y0 = lowy;
                        if reached < low[node] {
                            low.set(node, reached);
                            proof {
                                lowy = y0.update(node as int, arc.to as int);
                            }
                        }
                        proof {
                            lemma_scan_seen(graph, discovery@, parent@, tpath, tedges, l0, low@, y0, lowy, bridge@, s0);
                            assert(l0.len() == discovery@.len()) by {
                                reveal(lows_ok);
                            }
                            lemma_scans_seen(graph, discovery@, parent@, tpath, tedges, l0, low@, s0);
                        }
                    }
                } else {
                    stack.pop();
                    proof {
                        assert(stack@ == s0.drop_last());
                    }
                    let ghost l0 = low@;
                    let ghost y0 = lowy;
                    let ghost b0 = bridge@;
                    proof {
                        if s0.len() >= 2 {
                            lemma_top_path(graph, discovery@, parent@, tpath, tedges, s0);
                        }
                    }
                    match parent[node] {
                        Some(parent_node) => {
                            if low[node] > discovery[parent_node] {
                                match frame.parent_edge {
                                    Some(edge) => {
                                        bridge.set(edge, true);
                                    },
                                    None => {
                                        return Err(BackendError::internal("graph", "non-root frame without a parent edge"));
                                    },
                                }
                            }
                            if low[node] < low[parent_node] {
                                let reached = low[node];
                                low.set(parent_node, reached);
                                proof {
                                    lowy = y0.update(parent_node as int, y0[node as int]);
                                }
                            }
                        },
                        None => {},
                    }
                    proof {
                        if s0.len() >= 2 {
                            lemma_pop_lows(graph, discovery@, parent@, tpath, tedges, l0, low@, y0, lowy, s0);
                            lemma_pop_stack(graph, discovery@, parent@, tpath, tedges, s0);
                        } else {
                            assert(stack@.len() == 0);
                        }
                        lemma_pop_finished(graph, discovery@, parent@, tpath, tedges, l0, low@, b0, bridge@, s0);
                        assert(l0.len() == discovery@.len() && l0[node as int] <= discovery@[node as int]) by {
                            reveal(lows_ok);
                        }
                        lemma_scans_pop(graph, discovery@, parent@, tpath, tedges, l0, low@, s0);
                        lemma_popped_below_none(graph, discovery@, parent@, tpath, tedges, s0);
                        if s0.len() >= 2 && l0[node as int] > discovery@[tpath[node as int][s0.len() - 2]] {
                            lemma_trees_get(graph, discovery@, parent@, tpath, tedges, node as int);
                            lemma_flag_bridge(graph, discovery@, parent@, tpath, tedges, low@, stack@, node as int);
                        }
                    }
                }
                proof {
                    lemma_stack_work_nonneg(graph, stack@);
                    lemma_count_value_bound(discovery@, 0, nodes as int);
                }
            }
            proof {
                assert(stack@ =~= Seq::<DfsFrame>::empty());
            }
        }
        root = root + 1;
    }
    proof {
        lemma_unflagged_not_bridge(graph, discovery@, parent@, tpath, tedges, low@, lowy, bridge@);
    }
    Ok(bridge)
}

} // verus!
