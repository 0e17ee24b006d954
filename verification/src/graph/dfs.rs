//! Iterative depth-first searches over the worker-firm multigraph: cut
//! vertices (articulations) and cut edges (bridges), by discovery times and
//! low links.

use vstd::prelude::*;

use crate::error::{BackendError, ErrorCode, Result};
use crate::graph::component::{count_value, has_link, mask_valid};
use crate::graph::{
    active_coordinates, active_deletions, coordinate_graph, coordinate_link, graph_wf,
    is_walk, joins, linked, lists_fit_one_run,
    machine_error, push_arc, row_coordinate, sort_adjacency, validate_mask, Arc, Graph,
};
use crate::graph::bridges::bridge_edges;
use crate::graph::units::{
    edge_witnessed, lemma_flagged_units, lemma_rows_listed, lemma_unflagged_units,
};
use crate::graph::cuts::articulation_vertices;
use crate::graph::walks::{
    edge_ends_fixed, has_arc, not_cut_vertex, reach_outside, undirected, walk_outside,
};
use crate::interrupt::{checkpoint_chunk, InterruptCheck, INTERRUPTIBLE_SORT_RUN};
use crate::problem::CanonicalInput;

verus! {

/// One level of the explicit depth-first stack.
#[derive(Clone, Copy, Debug)]
pub struct DfsFrame {
    pub node: usize,
    pub parent_edge: Option<usize>,
    pub next_arc: usize,
}

/// Work left on the stack: for each frame, its unexplored arcs plus one.
pub open spec fn stack_work(g: &Graph, stack: Seq<DfsFrame>) -> int
    decreases stack.len(),
{
    if stack.len() == 0 {
        0
    } else {
        stack_work(g, stack.drop_last()) + (g.adjacency@[stack.last().node as int]@.len()
            - stack.last().next_arc) + 1
    }
}

/// Every frame names a node of the graph and an arc position within its list.
pub open spec fn frames_valid(g: &Graph, stack: Seq<DfsFrame>) -> bool {
    forall|k: int|
        0 <= k < stack.len() ==> {
            &&& (#[trigger] stack[k]).node < g.adjacency@.len()
            &&& stack[k].next_arc <= g.adjacency@[stack[k].node as int]@.len()
        }
}

pub(crate) proof fn lemma_stack_work_nonneg(g: &Graph, stack: Seq<DfsFrame>)
    requires
        frames_valid(g, stack),
    ensures
        stack_work(g, stack) >= stack.len(),
    decreases stack.len(),
{
    if stack.len() > 0 {
        let _ = stack[stack.len() - 1];
        assert(frames_valid(g, stack.drop_last())) by {
            assert forall|k: int| 0 <= k < stack.drop_last().len() implies {
                &&& (#[trigger] stack.drop_last()[k]).node < g.adjacency@.len()
                &&& stack.drop_last()[k].next_arc <= g.adjacency@[stack.drop_last()[k].node as int]@.len()
            } by {
                let _ = stack[k];
            }
        }
        lemma_stack_work_nonneg(g, stack.drop_last());
    }
}

pub(crate) proof fn lemma_count_value_bound(s: Seq<usize>, x: usize, k: int)
    requires
        0 <= k <= s.len(),
    ensures
        0 <= count_value(s, x, k) <= k,
    decreases k,
{
    if k > 0 {
        lemma_count_value_bound(s, x, k - 1);
    }
}

pub(crate) proof fn lemma_count_value_positive(s: Seq<usize>, x: usize, i: int, k: int)
    requires
        0 <= i < k <= s.len(),
        s[i] == x,
    ensures
        count_value(s, x, k) >= 1,
    decreases k,
{
    if k - 1 > i {
        lemma_count_value_positive(s, x, i, k - 1);
    }
    lemma_count_value_bound(s, x, k - 1);
}

pub(crate) proof fn lemma_count_value_discover(s: Seq<usize>, i: int, y: usize, k: int)
    requires
        0 <= i < k <= s.len(),
        s[i] == 0,
        y != 0,
    ensures
        count_value(s.update(i, y), 0, k) == count_value(s, 0, k) - 1,
    decreases k,
{
    if k - 1 > i {
        lemma_count_value_discover(s, i, y, k - 1);
    } else {
        lemma_count_value_same(s, i, y, k - 1);
    }
}

proof fn lemma_count_value_same(s: Seq<usize>, i: int, y: usize, k: int)
    requires
        0 <= k <= i < s.len(),
    ensures
        count_value(s.update(i, y), 0, k) == count_value(s, 0, k),
    decreases k,
{
    if k > 0 {
        lemma_count_value_same(s, i, y, k - 1);
    }
}



/// `p` is a walk of the active coordinate graph that never visits node `w`.
pub open spec fn walk_without(input: &CanonicalInput, active: Seq<bool>, w: int, p: Seq<int>) -> bool {
    &&& is_walk(input, active, p)
    &&& forall|i: int| 0 <= i < p.len() ==> #[trigger] p[i] != w
}

/// Nodes `a` and `b` stay connected in the active coordinate graph once node `w` is removed.
pub open spec fn connected_without(input: &CanonicalInput, active: Seq<bool>, w: int, a: int, b: int) -> bool {
    exists|p: Seq<int>| #[trigger] walk_without(input, active, w, p) && p[0] == a && p.last() == b
}

/// Worker `w` is no cut vertex: without it, the firms of its active rows stay connected.
pub open spec fn worker_not_cut(input: &CanonicalInput, active: Seq<bool>, w: int) -> bool {
    forall|p: int, q: int|
        0 <= p < active.len() && 0 <= q < active.len() && active[p] && active[q] && input.spec_worker()[p] == w
            && input.spec_worker()[q] == w ==> connected_without(
            input,
            active,
            w,
            input.spec_workers() + (#[trigger] input.spec_firm()[p]),
            input.spec_workers() + (#[trigger] input.spec_firm()[q]),
        )
}

/// A walk of the coordinate graph that stays off `w` is a walk of the active
/// coordinates that never visits `w`.
proof fn lemma_walk_without(input: &CanonicalInput, active: Seq<bool>, g: &Graph, w: int, p: Seq<int>)
    requires
        forall|u: int, v: int|
            0 <= u < g.adjacency@.len() ==> (#[trigger] linked(g, u, v) <==> coordinate_link(input, active, u, v)),
        walk_outside(g, set![w], p),
        p.last() != w,
    ensures
        walk_without(input, active, w, p),
{
    assert forall|i: int| 0 <= i < p.len() - 1 implies coordinate_link(input, active, #[trigger] p[i], p[i + 1]) by {
        assert(linked(g, p[i], p[i + 1]));
    }
    assert forall|i: int| 0 <= i < p.len() implies #[trigger] p[i] != w by {
        if i < p.len() - 1 {
            assert(linked(g, p[i], p[i + 1]) && !set![w].contains(p[i]));
        }
    }
}

/// A walk of the active coordinates that never visits `w` is a walk of the
/// coordinate graph that stays off `w`.
proof fn lemma_without_to_walk(input: &CanonicalInput, active: Seq<bool>, g: &Graph, w: int, p: Seq<int>)
    requires
        input.wf(),
        active.len() == input.spec_worker().len(),
        g.adjacency@.len() == input.spec_workers() + input.spec_firms(),
        forall|u: int, v: int|
            0 <= u < g.adjacency@.len() ==> (#[trigger] linked(g, u, v) <==> coordinate_link(input, active, u, v)),
        walk_without(input, active, w, p),
        0 <= p[0] < g.adjacency@.len(),
    ensures
        walk_outside(g, set![w], p),
{
    let wk = input.spec_workers() as int;
    assert forall|i: int| 0 <= i < p.len() - 1 implies 0 <= #[trigger] p[i] < g.adjacency@.len() && 0 <= p[i + 1]
        < g.adjacency@.len() by {
        assert(coordinate_link(input, active, p[i], p[i + 1]));
        let c = choose|c: (u32, u32)| active_coordinates(input, active).contains(c) && #[trigger] joins(c, wk, p[i], p[i + 1]);
        let r = choose|r: int| 0 <= r < active.len() && active[r] && #[trigger] row_coordinate(input, r) == c;
        let _ = input.spec_worker()[r];
        let _ = input.spec_firm()[r];
    }
    assert forall|i: int| 0 <= i < p.len() implies 0 <= #[trigger] p[i] < g.adjacency@.len() by {
        if i > 0 {
            let h = i - 1;
            assert(0 <= p[h] < g.adjacency@.len() && 0 <= p[h + 1] < g.adjacency@.len());
            assert(h + 1 == i);
        }
    }
    assert forall|i: int| 0 <= i < p.len() - 1 implies linked(g, #[trigger] p[i], p[i + 1]) && !set![w].contains(p[i]) by {
        assert(coordinate_link(input, active, p[i], p[i + 1]));
        assert(0 <= p[i] < g.adjacency@.len());
        assert(p[i] != w);
    }
}

/// A worker is flagged exactly when its node is a cut vertex of the
/// coordinate graph, that is, when the firms of its active rows fall apart
/// without it.
proof fn lemma_worker_cuts(
    input: &CanonicalInput,
    active: Seq<bool>,
    g: &Graph,
    articulation: Seq<bool>,
    result: Seq<bool>,
)
    requires
        input.wf(),
        active.len() == input.spec_worker().len(),
        g.adjacency@.len() == input.spec_workers() + input.spec_firms(),
        articulation.len() == g.adjacency@.len(),
        forall|v: int| 0 <= v < articulation.len() ==> (#[trigger] articulation[v] <==> !not_cut_vertex(g, v)),
        forall|u: int, v: int|
            0 <= u < g.adjacency@.len() ==> (#[trigger] linked(g, u, v) <==> coordinate_link(input, active, u, v)),
        result.len() == input.spec_workers(),
        forall|v: int| 0 <= v < result.len() ==> #[trigger] result[v] == articulation[v],
    ensures
        forall|v: int| 0 <= v < result.len() ==> (#[trigger] result[v] <==> !worker_not_cut(input, active, v)),
{
    let wk = input.spec_workers() as int;
    assert forall|v: int| 0 <= v < result.len() && !#[trigger] result[v] implies worker_not_cut(input, active, v) by {
        assert(!articulation[v]);
        assert(not_cut_vertex(g, v));
        assert forall|p: int, q: int|
            0 <= p < active.len() && 0 <= q < active.len() && active[p] && active[q] && input.spec_worker()[p]
                == v && input.spec_worker()[q] == v implies connected_without(
            input,
            active,
            v,
            wk + (#[trigger] input.spec_firm()[p]),
            wk + (#[trigger] input.spec_firm()[q]),
        ) by {
            let fp = wk + input.spec_firm()[p];
            let fq = wk + input.spec_firm()[q];
            assert(active_coordinates(input, active).contains(row_coordinate(input, p)));
            assert(active_coordinates(input, active).contains(row_coordinate(input, q)));
            assert(joins(row_coordinate(input, p), wk, v, fp));
            assert(joins(row_coordinate(input, q), wk, v, fq));
            assert(coordinate_link(input, active, v, fp));
            assert(coordinate_link(input, active, v, fq));
            assert(linked(g, v, fp));
            assert(linked(g, v, fq));
            let i = choose|i: int| 0 <= i < g.adjacency@[v]@.len() && #[trigger] g.adjacency@[v]@[i].to == fp;
            let j = choose|j: int| 0 <= j < g.adjacency@[v]@.len() && #[trigger] g.adjacency@[v]@[j].to == fq;
            let _ = g.adjacency@[v]@[i];
            let _ = g.adjacency@[v]@[j];
            assert(reach_outside(g, set![v], fp, fq));
            let w = choose|w: Seq<int>| #[trigger] walk_outside(g, set![v], w) && w[0] == fp && w.last() == fq;
            lemma_walk_without(input, active, g, v, w);
        }
    }
    assert forall|v: int| 0 <= v < result.len() && #[trigger] result[v] implies !worker_not_cut(input, active, v) by {
        assert(articulation[v]);
        assert(!not_cut_vertex(g, v));
        let (i, j) = choose|i: int, j: int|
            0 <= i < g.adjacency@[v]@.len() && 0 <= j < g.adjacency@[v]@.len() && g.adjacency@[v]@[i].to
                != v && g.adjacency@[v]@[j].to != v && !reach_outside(
                g,
                set![v],
                (#[trigger] g.adjacency@[v]@[i]).to as int,
                (#[trigger] g.adjacency@[v]@[j]).to as int,
            );
        let ti = g.adjacency@[v]@[i].to as int;
        let tj = g.adjacency@[v]@[j].to as int;
        assert(linked(g, v, ti));
        assert(linked(g, v, tj));
        assert(coordinate_link(input, active, v, ti));
        assert(coordinate_link(input, active, v, tj));
        let ci = choose|c: (u32, u32)| active_coordinates(input, active).contains(c) && #[trigger] joins(c, wk, v, ti);
        let cj = choose|c: (u32, u32)| active_coordinates(input, active).contains(c) && #[trigger] joins(c, wk, v, tj);
        let p = choose|r: int| 0 <= r < active.len() && active[r] && #[trigger] row_coordinate(input, r) == ci;
        let q = choose|r: int| 0 <= r < active.len() && active[r] && #[trigger] row_coordinate(input, r) == cj;
        let _ = input.spec_worker()[p];
        let _ = input.spec_firm()[p];
        let _ = input.spec_worker()[q];
        let _ = input.spec_firm()[q];
        assert(ti == wk + input.spec_firm()[p]);
        assert(tj == wk + input.spec_firm()[q]);
        if worker_not_cut(input, active, v) {
            assert(connected_without(input, active, v, wk + input.spec_firm()[p], wk + input.spec_firm()[q]));
            let w = choose|w: Seq<int>| #[trigger] walk_without(input, active, v, w) && w[0] == ti && w.last() == tj;
            lemma_without_to_walk(input, active, g, v, w);
        }
    }
}

/// For each worker, whether its node is a cut vertex of the active coordinate graph.
pub fn worker_articulations<I: InterruptCheck>(
    input: &CanonicalInput,
    active: &Vec<bool>,
    interrupt: &mut I,
) -> (r: Result<Vec<bool>>)
    ensures
        r is Ok ==> mask_valid(input, active@),
        r matches Ok(w) ==> w.len() == input.spec_workers(),
        r matches Ok(w) ==> forall|v: int| 0 <= v < w.len() && #[trigger] w@[v] ==> has_link(input, active@, v),
        r matches Ok(w) ==> forall|v: int| 0 <= v < w.len() ==> (#[trigger] w@[v] <==> !worker_not_cut(input, active@, v)),
        old(interrupt).inert() ==> final(interrupt).inert(),
        old(interrupt).inert() && !mask_valid(input, active@) ==> r is Err,
        old(interrupt).inert() && mask_valid(input, active@) ==> (r matches Err(e) ==> machine_error(e)),
        old(interrupt).inert() && active.len() == input.spec_worker().len() ==> (r matches Err(e)
            ==> machine_error(e) || e.code == ErrorCode::GraphEmpty),
        old(interrupt).inert() && mask_valid(input, active@) && active.len() <= INTERRUPTIBLE_SORT_RUN
            ==> r is Ok,
{
    proof {
        use_type_invariant(input);
    }
    let ghost inert0 = interrupt.inert();
    let graph = coordinate_graph(input, active, interrupt)?;
    let articulation = articulation_vertices(&graph, interrupt)?;
    let workers = input.workers();
    let mut result: Vec<bool> = Vec::new();
    let mut worker: usize = 0;
    while worker < workers
        invariant
            workers == input.spec_workers(),
            articulation.len() == graph.adjacency.len(),
            graph.adjacency.len() == input.spec_workers() + input.spec_firms(),
            forall|v: int| 0 <= v < articulation.len() && #[trigger] articulation@[v] ==> graph.adjacency@[v]@.len() > 0,
            forall|v: int| 0 <= v < articulation.len() ==> (#[trigger] articulation@[v] <==> !not_cut_vertex(&graph, v)),
            forall|u: int, v: int|
                0 <= u < graph.adjacency.len() ==> (#[trigger] linked(&graph, u, v) <==> coordinate_link(
                    input,
                    active@,
                    u,
                    v,
                )),
            worker <= workers,
            result.len() == worker,
            forall|v: int| 0 <= v < worker ==> #[trigger] result@[v] == articulation@[v],
            inert0 == old(interrupt).inert(),
            inert0 ==> interrupt.inert(),
        decreases workers - worker,
    {
        match checkpoint_chunk(interrupt, worker, "graph_worker_articulation_copy") {
            Ok(()) => {},
            Err(e) => {
                return Err(e);
            },
        }
        result.push(articulation[worker]);
        worker = worker + 1;
    }
    proof {
        assert forall|v: int| 0 <= v < result.len() && #[trigger] result@[v] implies has_link(input, active@, v) by {
            let x = graph.adjacency@[v]@[0].to as int;
            assert(linked(&graph, v, x));
            assert(coordinate_link(input, active@, v, x));
        }
        lemma_worker_cuts(input, active@, &graph, articulation@, result@);
    }
    Ok(result)
}

/// Arc `a` out of node `v` is one of the two orientations of its listed edge:
/// edge `k` joins worker node `edges[k].1` and firm node `workers + edges[k].2`.
pub open spec fn arc_fits(edges: Seq<(u32, u32, u32)>, workers: int, v: int, a: Arc) -> bool {
    &&& a.edge < edges.len()
    &&& ((v == edges[a.edge as int].1 && a.to == workers + edges[a.edge as int].2) || (v == workers
        + edges[a.edge as int].2 && a.to == edges[a.edge as int].1))
}

/// Both orientations of listed edge `k` are arcs of the adjacency lists.
pub open spec fn edge_listed(adjacency: Seq<Vec<Arc>>, edges: Seq<(u32, u32, u32)>, workers: int, k: int) -> bool {
    let w = edges[k].1 as int;
    let f = workers + edges[k].2;
    &&& adjacency[w]@.contains(Arc { to: f as usize, edge: k as usize })
    &&& adjacency[f]@.contains(Arc { to: w as usize, edge: k as usize })
}

proof fn lemma_push_contains(s: Seq<Arc>, y: Arc, x: Arc)
    ensures
        s.contains(x) ==> s.push(y).contains(x),
        s.push(y).contains(y),
{
    if s.contains(x) {
        let j = choose|j: int| 0 <= j < s.len() && s[j] == x;
        assert(s.push(y)[j] == x);
    }
    assert(s.push(y)[s.len() as int] == y);
}

/// Lists whose arcs all fit their edges, with both orientations of every
/// edge listed, form an undirected multigraph whose edge ids fix their ends.
proof fn lemma_fitted_shape(g: &Graph, edges: Seq<(u32, u32, u32)>, workers: int)
    requires
        g.edges == edges.len(),
        forall|k: int| 0 <= k < edges.len() ==> (#[trigger] edges[k]).1 < workers && workers + edges[k].2
            < g.adjacency@.len(),
        forall|v: int, i: int|
            0 <= v < g.adjacency@.len() && 0 <= i < g.adjacency@[v]@.len() ==> arc_fits(
                edges,
                workers,
                v,
                #[trigger] g.adjacency@[v]@[i],
            ),
        forall|k: int| 0 <= k < edges.len() ==> #[trigger] edge_listed(g.adjacency@, edges, workers, k),
    ensures
        graph_wf(g),
        undirected(g),
        edge_ends_fixed(g),
{
    assert forall|v: int, i: int| 0 <= v < g.adjacency@.len() && 0 <= i < g.adjacency@[v]@.len() implies {
        &&& #[trigger] g.adjacency@[v]@[i].to < g.adjacency@.len()
        &&& g.adjacency@[v]@[i].edge < g.edges
    } by {
        let x = g.adjacency@[v]@[i];
        let _ = edges[x.edge as int];
    }
    assert forall|a: int, i: int| 0 <= a < g.adjacency@.len() && 0 <= i < g.adjacency@[a]@.len() implies has_arc(
        g,
        (#[trigger] g.adjacency@[a]@[i]).to as int,
        a,
        g.adjacency@[a]@[i].edge as int,
    ) by {
        let x = g.adjacency@[a]@[i];
        let k = x.edge as int;
        let _ = edges[k];
        assert(edge_listed(g.adjacency@, edges, workers, k));
        let w = edges[k].1 as int;
        let f = workers + edges[k].2;
        if a == w {
            let y = Arc { to: w as usize, edge: k as usize };
            let j = choose|j: int| 0 <= j < g.adjacency@[f]@.len() && g.adjacency@[f]@[j] == y;
            let _ = g.adjacency@[f]@[j];
        } else {
            let y = Arc { to: f as usize, edge: k as usize };
            let j = choose|j: int| 0 <= j < g.adjacency@[w]@.len() && g.adjacency@[w]@[j] == y;
            let _ = g.adjacency@[w]@[j];
        }
    }
    assert forall|a: int, i: int, b: int, j: int|
        0 <= a < g.adjacency@.len() && 0 <= i < g.adjacency@[a]@.len() && 0 <= b < g.adjacency@.len() && 0
            <= j < g.adjacency@[b]@.len() && (#[trigger] g.adjacency@[a]@[i]).edge == (#[trigger] g.adjacency@[b]@[j]).edge
        implies ((a == b && g.adjacency@[a]@[i].to == g.adjacency@[b]@[j].to) || (a == g.adjacency@[b]@[j].to
        && b == g.adjacency@[a]@[i].to)) by {
        let _ = edges[g.adjacency@[a]@[i].edge as int];
    }
}

/// The multigraph on `nodes` nodes whose edge `k` joins worker node
/// `edges[k].1` and firm node `workers + edges[k].2`, each adjacency list
/// sorted by target and edge id.
fn unit_multigraph<I: InterruptCheck>(
    edges: &Vec<(u32, u32, u32)>,
    workers: usize,
    nodes: usize,
    interrupt: &mut I,
) -> (r: Result<Graph>)
    requires
        forall|k: int| 0 <= k < edges.len() ==> (#[trigger] edges@[k]).1 < workers && workers + edges@[k].2 < nodes,
    ensures
        r matches Ok(g) ==> {
            &&& g.adjacency@.len() == nodes
            &&& g.edges == edges.len()
            &&& graph_wf(&g)
            &&& undirected(&g)
            &&& edge_ends_fixed(&g)
            &&& forall|v: int, i: int|
                0 <= v < nodes && 0 <= i < g.adjacency@[v]@.len() ==> arc_fits(
                    edges@,
                    workers as int,
                    v,
                    #[trigger] g.adjacency@[v]@[i],
                )
            &&& forall|k: int| 0 <= k < edges.len() ==> #[trigger] edge_listed(g.adjacency@, edges@, workers as int, k)
        },
        old(interrupt).inert() ==> final(interrupt).inert(),
        old(interrupt).inert() ==> (r matches Err(e) ==> machine_error(e)),
        old(interrupt).inert() && edges.len() <= INTERRUPTIBLE_SORT_RUN ==> r is Ok,
{
    let ghost inert0 = interrupt.inert();
    let ghost es = edges@;
    let ghost wk = workers as int;
    let mut adjacency: Vec<Vec<Arc>> = Vec::new();
    while adjacency.len() < nodes
        invariant
            adjacency.len() <= nodes,
            forall|v: int| 0 <= v < adjacency.len() ==> (#[trigger] adjacency@[v]@).len() == 0,
        decreases nodes - adjacency.len(),
    {
        adjacency.push(Vec::new());
    }
    let m = edges.len();
    let mut edge: usize = 0;
    while edge < m
        invariant
            es == edges@,
            wk == workers,
            m == edges.len(),
            nodes == adjacency.len(),
            edge <= m,
            forall|k: int| 0 <= k < m ==> (#[trigger] edges@[k]).1 < workers && workers + edges@[k].2 < nodes,
            forall|v: int, i: int|
                0 <= v < nodes && 0 <= i < adjacency@[v]@.len() ==> (#[trigger] adjacency@[v]@[i]).edge < edge
                    && arc_fits(es, wk, v, adjacency@[v]@[i]),
            forall|k: int| 0 <= k < edge ==> #[trigger] edge_listed(adjacency@, es, wk, k),
            forall|v: int| 0 <= v < nodes ==> (#[trigger] adjacency@[v]@).len() <= edge,
            inert0 == old(interrupt).inert(),
            inert0 ==> interrupt.inert(),
        decreases m - edge,
    {
        match checkpoint_chunk(interrupt, edge, "graph_bridge_adjacency") {
            Ok(()) => {},
            Err(e) => {
                return Err(e);
            },
        }
        let triple = edges[edge];
        let worker_node = triple.1 as usize;
        let firm_node = workers + triple.2 as usize;
        let ghost a0 = adjacency@;
        let arc1 = Arc { to: firm_node, edge };
        let arc2 = Arc { to: worker_node, edge };
        push_arc(&mut adjacency, worker_node, arc1);
        let ghost a1 = adjacency@;
        push_arc(&mut adjacency, firm_node, arc2);
        proof {
            let a2 = adjacency@;
            assert(worker_node != firm_node);
            assert forall|v: int, i: int|
                0 <= v < nodes && 0 <= i < a2[v]@.len() implies (#[trigger] a2[v]@[i]).edge < edge + 1
                    && arc_fits(es, wk, v, a2[v]@[i]) by {
                if v == firm_node && i == a2[v]@.len() - 1 {
                } else if v == firm_node {
                    assert(a2[v]@[i] == a1[v]@[i]);
                    assert(a1[v] == a0[v]);
                } else if v == worker_node && i == a1[v]@.len() - 1 {
                    assert(a2[v] == a1[v]);
                } else if v == worker_node {
                    assert(a2[v] == a1[v]);
                    assert(a1[v]@[i] == a0[v]@[i]);
                } else {
                    assert(a2[v] == a1[v]);
                    assert(a1[v] == a0[v]);
                }
            }
            assert forall|k: int| 0 <= k < edge + 1 implies #[trigger] edge_listed(a2, es, wk, k) by {
                let w = es[k].1 as int;
                let f = wk + es[k].2;
                let x1 = Arc { to: f as usize, edge: k as usize };
                let x2 = Arc { to: w as usize, edge: k as usize };
                lemma_push_contains(a0[worker_node as int]@, arc1, x1);
                lemma_push_contains(a0[worker_node as int]@, arc1, x2);
                lemma_push_contains(a1[firm_node as int]@, arc2, x1);
                lemma_push_contains(a1[firm_node as int]@, arc2, x2);
                if k < edge {
                    assert(edge_listed(a0, es, wk, k));
                }
            }
        }
        edge = edge + 1;
    }
    let ghost unsorted = adjacency@;
    proof {
        reveal(lists_fit_one_run);
    }
    sort_adjacency(&mut adjacency, interrupt, "graph_bridge_nodes", "graph_bridge_sort")?;
    let graph = Graph { adjacency, edges: m };
    proof {
        assert forall|v: int, i: int|
            0 <= v < nodes && 0 <= i < graph.adjacency@[v]@.len() implies arc_fits(
                es,
                wk,
                v,
                #[trigger] graph.adjacency@[v]@[i],
            ) by {
            let x = graph.adjacency@[v]@[i];
            assert(graph.adjacency@[v]@.contains(x));
            assert(unsorted[v]@.contains(x));
            let j = choose|j: int| 0 <= j < unsorted[v]@.len() && unsorted[v]@[j] == x;
            let _ = unsorted[v]@[j];
        }
        assert forall|k: int| 0 <= k < m implies #[trigger] edge_listed(graph.adjacency@, es, wk, k) by {
            assert(edge_listed(unsorted, es, wk, k));
            let _ = es[k];
        }
        lemma_fitted_shape(&graph, es, wk);
    }
    Ok(graph)
}

/// Some active row outside deletion unit `d` joins nodes `u` and `v`.
pub open spec fn unit_step(input: &CanonicalInput, active: Seq<bool>, d: int, u: int, v: int) -> bool {
    exists|q: int|
        0 <= q < active.len() && active[q] && input.spec_deletion()[q] != d && joins(
            #[trigger] row_coordinate(input, q),
            input.spec_workers() as int,
            u,
            v,
        )
}

/// `p` is a walk of worker and firm nodes whose every step is joined by an
/// active row outside deletion unit `d`.
pub open spec fn unit_walk(input: &CanonicalInput, active: Seq<bool>, d: int, p: Seq<int>) -> bool {
    &&& p.len() >= 1
    &&& forall|i: int| 0 <= i < p.len() - 1 ==> unit_step(input, active, d, #[trigger] p[i], p[i + 1])
}

/// Nodes `a` and `b` stay connected once every row of deletion unit `d` is removed.
pub open spec fn joined_without_unit(input: &CanonicalInput, active: Seq<bool>, d: int, a: int, b: int) -> bool {
    exists|p: Seq<int>| #[trigger] unit_walk(input, active, d, p) && p[0] == a && p.last() == b
}

/// Deletion unit `d` is no bridge: without its rows, the worker and the firm
/// of each of its active rows are still connected by the other active rows.
pub open spec fn unit_not_bridge(input: &CanonicalInput, active: Seq<bool>, d: u32) -> bool {
    forall|q: int|
        0 <= q < active.len() && active[q] && input.spec_deletion()[q] == d ==> joined_without_unit(
            input,
            active,
            d as int,
            input.spec_worker()[q] as int,
            input.spec_workers() + (#[trigger] input.spec_firm()[q]),
        )
}

/// Two active rows share a deletion unit but not a worker-firm coordinate.
pub open spec fn deletion_crosses(input: &CanonicalInput, active: Seq<bool>) -> bool {
    exists|p: int, q: int|
        #![trigger row_coordinate(input, p), row_coordinate(input, q)]
        0 <= p < active.len() && 0 <= q < active.len() && active[p] && active[q]
            && input.spec_deletion()[p] == input.spec_deletion()[q] && row_coordinate(input, p)
            != row_coordinate(input, q)
}

/// The deletion units whose edge is a bridge of the multigraph with one edge
/// per active deletion unit, in increasing order. A deletion unit that spans
/// two coordinates is refused as an internal invariant failure.
pub fn deletion_bridges<I: InterruptCheck>(
    input: &CanonicalInput,
    active: &Vec<bool>,
    interrupt: &mut I,
) -> (r: Result<Vec<u32>>)
    ensures
        r is Ok ==> mask_valid(input, active@) && !deletion_crosses(input, active@),
        r matches Ok(out) ==> forall|i: int| 0 <= i < out.len() ==> active_deletions(input, active@).contains(#[trigger] out@[i]),
        r matches Ok(out) ==> forall|i: int, j: int| 0 <= i < j < out.len() ==> #[trigger] out@[i] < #[trigger] out@[j],
        r matches Ok(out) ==> forall|d: u32|
            active_deletions(input, active@).contains(d) ==> (out@.contains(d) <==> !#[trigger] unit_not_bridge(
                input,
                active@,
                d,
            )),
        old(interrupt).inert() ==> final(interrupt).inert(),
        old(interrupt).inert() && !mask_valid(input, active@) ==> r is Err,
        old(interrupt).inert() && mask_valid(input, active@) && deletion_crosses(input, active@)
            ==> (r matches Err(e) && e.code == ErrorCode::InternalInvariant),
        old(interrupt).inert() && mask_valid(input, active@) && !deletion_crosses(input, active@)
            ==> (r matches Err(e) ==> machine_error(e)),
        old(interrupt).inert() && active.len() == input.spec_worker().len() ==> (r matches Err(e)
            ==> machine_error(e) || e.code == ErrorCode::GraphEmpty || e.code == ErrorCode::InternalInvariant),
        old(interrupt).inert() && mask_valid(input, active@) && !deletion_crosses(input, active@)
            && active.len() <= INTERRUPTIBLE_SORT_RUN ==> r is Ok,
{
    proof {
        use_type_invariant(input);
    }
    let ghost inert0 = interrupt.inert();
    let ghost act = active@;
    validate_mask(input, active, interrupt)?;
    let units = input.deletion_units();
    let mut coordinate: Vec<Option<(u32, u32)>> = Vec::new();
    while coordinate.len() < units
        invariant
            coordinate.len() <= units,
            forall|d: int| 0 <= d < coordinate.len() ==> #[trigger] coordinate@[d] is None,
        decreases units - coordinate.len(),
    {
        coordinate.push(None);
    }
    let rows = active.len();
    let mut row: usize = 0;
    while row < rows
        invariant
            input.wf(),
            act == active@,
            rows == act.len(),
            rows == input.spec_worker().len(),
            units == input.spec_deletion_units(),
            coordinate.len() == units,
            row <= rows,
            forall|q: int| 0 <= q < row && act[q] ==> #[trigger] coordinate@[input.spec_deletion()[q] as int]
                == Some(row_coordinate(input, q)),
            forall|d: int| 0 <= d < units && (#[trigger] coordinate@[d]) is Some ==> exists|q: int|
                0 <= q < row && act[q] && input.spec_deletion()[q] == d && coordinate@[d] == Some(
                    #[trigger] row_coordinate(input, q),
                ),
            forall|p: int, q: int|
                #![trigger row_coordinate(input, p), row_coordinate(input, q)]
                0 <= p < row && 0 <= q < row && act[p] && act[q] && input.spec_deletion()[p]
                    == input.spec_deletion()[q] ==> row_coordinate(input, p) == row_coordinate(input, q),
            inert0 == old(interrupt).inert(),
            inert0 ==> interrupt.inert(),
        decreases rows - row,
    {
        match checkpoint_chunk(interrupt, row, "graph_bridge_coordinates") {
            Ok(()) => {},
            Err(e) => {
                return Err(e);
            },
        }
        if active[row] {
            let deletion = input.deletion_at(row) as usize;
            let pair = (input.worker_at(row), input.firm_at(row));
            match coordinate[deletion] {
                None => {
                    proof {
                        assert forall|q: int| 0 <= q < row && act[q] implies input.spec_deletion()[q] != deletion by {
                            let _ = coordinate@[input.spec_deletion()[q] as int];
                        }
                    }
                    coordinate.set(deletion, Some(pair));
                },
                Some(previous) => {
                    if !(previous.0 == pair.0 && previous.1 == pair.1) {
                        proof {
                            let q = choose|q: int| 0 <= q < row && act[q] && input.spec_deletion()[q] == deletion
                                && coordinate@[deletion as int] == Some(#[trigger] row_coordinate(input, q));
                            assert(row_coordinate(input, row as int) == pair);
                            assert(deletion_crosses(input, act));
                        }
                        return Err(BackendError::internal("graph", "deletion unit crosses worker-firm coordinates"));
                    }
                    proof {
                        let q = choose|q: int| 0 <= q < row && act[q] && input.spec_deletion()[q] == deletion
                            && coordinate@[deletion as int] == Some(#[trigger] row_coordinate(input, q));
                        assert(row_coordinate(input, row as int) == pair);
                        assert forall|p: int| 0 <= p < row && act[p] && input.spec_deletion()[p] == deletion
                            implies row_coordinate(input, p) == pair by {
                            let _ = coordinate@[input.spec_deletion()[p] as int];
                        }
                    }
                },
            }
            proof {
                assert(coordinate@[deletion as int] == Some(row_coordinate(input, row as int)));
            }
        }
        proof {
            assert forall|d: int| 0 <= d < units && (#[trigger] coordinate@[d]) is Some implies exists|q: int|
                0 <= q < row + 1 && act[q] && input.spec_deletion()[q] == d && coordinate@[d] == Some(
                    #[trigger] row_coordinate(input, q),
                ) by {
                if act[row as int] && d == input.spec_deletion()[row as int] {
                    assert(coordinate@[d] == Some(row_coordinate(input, row as int)));
                }
            }
        }
        row = row + 1;
    }
    proof {
        assert(!deletion_crosses(input, act));
    }
    let workers = input.workers();
    let nodes = workers + input.firms();
    let mut edges: Vec<(u32, u32, u32)> = Vec::new();
    let mut deletion: usize = 0;
    while deletion < units
        invariant
            input.wf(),
            act == active@,
            rows == act.len(),
            rows == input.spec_worker().len(),
            units == input.spec_deletion_units(),
            workers == input.spec_workers(),
            nodes == workers + input.spec_firms(),
            coordinate.len() == units,
            deletion <= units,
            forall|d: int| 0 <= d < units && (#[trigger] coordinate@[d]) is Some ==> exists|q: int|
                0 <= q < rows && act[q] && input.spec_deletion()[q] == d && coordinate@[d] == Some(
                    #[trigger] row_coordinate(input, q),
                ),
            forall|k: int| 0 <= k < edges.len() ==> (#[trigger] edges@[k]).0 < deletion && exists|q: int|
                0 <= q < rows && act[q] && input.spec_deletion()[q] == edges@[k].0 && (edges@[k].1, edges@[k].2)
                    == #[trigger] row_coordinate(input, q),
            forall|i: int, j: int| 0 <= i < j < edges.len() ==> (#[trigger] edges@[i]).0 < (#[trigger] edges@[j]).0,
            forall|q: int| 0 <= q < rows && act[q] ==> #[trigger] coordinate@[input.spec_deletion()[q] as int]
                == Some(row_coordinate(input, q)),
            forall|k: int| 0 <= k < edges.len() ==> coordinate@[(#[trigger] edges@[k]).0 as int] == Some(
                (edges@[k].1, edges@[k].2),
            ),
            forall|d: int| 0 <= d < deletion && (#[trigger] coordinate@[d]) is Some ==> exists|k: int|
                0 <= k < edges.len() && (#[trigger] edges@[k]).0 == d,
            inert0 == old(interrupt).inert(),
            inert0 ==> interrupt.inert(),
        decreases units - deletion,
    {
        match checkpoint_chunk(interrupt, deletion, "graph_bridge_edges") {
            Ok(()) => {},
            Err(e) => {
                return Err(e);
            },
        }
        let ghost e1 = edges@;
        match coordinate[deletion] {
            Some(pair) => {
                proof {
                    let q = choose|q: int| 0 <= q < rows && act[q] && input.spec_deletion()[q] == deletion
                        && coordinate@[deletion as int] == Some(#[trigger] row_coordinate(input, q));
                    assert(input.spec_deletion()[q] as int == deletion);
                }
                let ghost e0 = edges@;
                edges.push((deletion as u32, pair.0, pair.1));
                proof {
                    assert forall|k: int| 0 <= k < edges.len() implies (#[trigger] edges@[k]).0 < deletion + 1 && exists|q: int|
                        0 <= q < rows && act[q] && input.spec_deletion()[q] == edges@[k].0 && (edges@[k].1, edges@[k].2)
                            == #[trigger] row_coordinate(input, q) by {
                        if k < e0.len() {
                            assert(edges@[k] == e0[k]);
                        } else {
                            assert(edges@[k] == (deletion as u32, pair.0, pair.1));
                            let q = choose|q: int| 0 <= q < rows && act[q] && input.spec_deletion()[q] == deletion
                                && coordinate@[deletion as int] == Some(#[trigger] row_coordinate(input, q));
                            assert(edges@[k].0 == input.spec_deletion()[q]);
                        }
                    }
                }
            },
            None => {},
        }
        proof {
            assert forall|d: int| 0 <= d < deletion + 1 && (#[trigger] coordinate@[d]) is Some implies exists|k: int|
                0 <= k < edges.len() && (#[trigger] edges@[k]).0 == d by {
                if d == deletion {
                    let k = edges.len() - 1;
                    assert(edges@[k].0 == d);
                } else {
                    let k = choose|k: int| 0 <= k < e1.len() && (#[trigger] e1[k]).0 == d;
                    assert(edges@[k] == e1[k]);
                }
            }
            assert forall|k: int| 0 <= k < edges.len() implies coordinate@[(#[trigger] edges@[k]).0 as int] == Some(
                (edges@[k].1, edges@[k].2),
            ) by {
                if k < e1.len() {
                    assert(edges@[k] == e1[k]);
                }
            }
        }
        deletion = deletion + 1;
    }
    if edges.len() == 0 {
        proof {
            assert forall|d: u32| active_deletions(input, act).contains(d) implies false by {
                let q = choose|r: int| 0 <= r < act.len() && act[r] && #[trigger] input.spec_deletion()[r] == d;
                assert(coordinate@[input.spec_deletion()[q] as int] is Some);
            }
        }
        return Ok(Vec::new());
    }
    proof {
        assert forall|k: int| 0 <= k < edges.len() implies (#[trigger] edges@[k]).1 < workers && workers + edges@[k].2 < nodes by {
            let q = choose|q: int| 0 <= q < rows && act[q] && input.spec_deletion()[q] == edges@[k].0 && (edges@[k].1, edges@[k].2)
                == #[trigger] row_coordinate(input, q);
            let _ = input.spec_worker()[q];
            let _ = input.spec_firm()[q];
        }
    }
    proof {
        let pos = Seq::new(edges.len() as nat, |k: int| choose|q: int|
            0 <= q < rows && act[q] && input.spec_deletion()[q] == edges@[k].0 && (edges@[k].1, edges@[k].2)
                == #[trigger] row_coordinate(input, q));
        assert forall|i: int, j: int| 0 <= i < j < edges.len() implies #[trigger] pos[i] != #[trigger] pos[j] by {
            assert(edges@[i].0 < edges@[j].0);
        }
        crate::sort::lemma_injective_bound(pos, edges.len() as int, rows as int);
    }
    let graph = unit_multigraph(&edges, workers, nodes, interrupt)?;
    let m = edges.len();
    let bridge_flags = bridge_edges(&graph, interrupt)?;
    let mut output: Vec<u32> = Vec::new();
    let ghost mut origin: Seq<int> = Seq::empty();
    let mut edge: usize = 0;
    while edge < m
        invariant
            m == edges.len(),
            bridge_flags.len() == m,
            edge <= m,
            forall|k: int| 0 <= k < m ==> active_deletions(input, act).contains((#[trigger] edges@[k]).0),
            forall|i: int, j: int| 0 <= i < j < edges.len() ==> (#[trigger] edges@[i]).0 < (#[trigger] edges@[j]).0,
            origin.len() == output.len(),
            forall|i: int| 0 <= i < output.len() ==> 0 <= #[trigger] origin[i] < edge && output@[i] == edges@[origin[i]].0
                && bridge_flags@[origin[i]],
            forall|i: int, j: int| 0 <= i < j < output.len() ==> #[trigger] origin[i] < #[trigger] origin[j],
            forall|k: int| 0 <= k < edge && bridge_flags@[k] ==> output@.contains((#[trigger] edges@[k]).0),
            inert0 == old(interrupt).inert(),
            inert0 ==> interrupt.inert(),
        decreases m - edge,
    {
        match checkpoint_chunk(interrupt, edge, "graph_bridge_collect") {
            Ok(()) => {},
            Err(e) => {
                return Err(e);
            },
        }
        let ghost o0 = output@;
        if bridge_flags[edge] {
            output.push(edges[edge].0);
            proof {
                origin = origin.push(edge as int);
                assert(output@[output.len() - 1] == edges@[edge as int].0);
            }
        }
        proof {
            assert forall|k: int| 0 <= k < edge + 1 && bridge_flags@[k] implies output@.contains((#[trigger] edges@[k]).0) by {
                if k < edge {
                    let j = choose|j: int| 0 <= j < o0.len() && o0[j] == edges@[k].0;
                    assert(output@[j] == o0[j]);
                } else {
                    assert(output@[output.len() - 1] == edges@[k].0);
                }
            }
        }
        edge = edge + 1;
    }
    proof {
        assert forall|i: int| 0 <= i < output.len() implies active_deletions(input, act).contains(#[trigger] output@[i]) by {
            let _ = edges@[origin[i]];
        }
        assert forall|i: int, j: int| 0 <= i < j < output.len() implies #[trigger] output@[i] < #[trigger] output@[j] by {
            let _ = origin[i];
            let _ = origin[j];
            let _ = edges@[origin[i]];
            let _ = edges@[origin[j]];
        }
        assert forall|j: int| 0 <= j < edges.len() implies #[trigger] edge_witnessed(input, act, edges@, j) by {
            assert(edges@[j].0 < units);
        }
        lemma_rows_listed(input, act, edges@, coordinate@);
        lemma_flagged_units(input, act, &graph, edges@, bridge_flags@, output@, origin);
        lemma_unflagged_units(input, act, &graph, edges@, bridge_flags@, output@);
    }
    Ok(output)
}

pub(crate) proof fn lemma_count_zero_all(s: Seq<usize>, k: int)
    requires
        0 <= k <= s.len(),
        forall|v: int| 0 <= v < s.len() ==> #[trigger] s[v] == 0,
    ensures
        count_value(s, 0, k) == k,
    decreases k,
{
    if k > 0 {
        lemma_count_zero_all(s, k - 1);
    }
}

} // verus!
