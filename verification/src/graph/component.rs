//! Connected components of the active worker-firm graph and the selection of
//! the largest one, ranked by firm count and then physical mass.

use std::collections::VecDeque;

use vstd::prelude::*;

use crate::error::{BackendError, ErrorCode, Result};
use crate::graph::{
    coordinate_graph, coordinate_link, connected, count_true, count_true_spec, graph_wf,
    lemma_connected_step, lemma_connected_transitive, lemma_link_symmetric, linked,
    maximum_component_rank, validate_mask, Graph, is_walk, active_coordinates, row_coordinate,
    machine_error, rank_le,
};
use crate::interrupt::{checkpoint_chunk, InterruptCheck, INTERRUPTIBLE_SORT_RUN};
use crate::problem::{mass_prefix, lemma_mass_prefix_monotone, CanonicalInput};

verus! {

/// Label of a node that no search has reached yet.
pub const UNVISITED: usize = usize::MAX;

/// Number of nodes of the bipartite graph: workers, then firms.
pub open spec fn graph_nodes(input: &CanonicalInput) -> int {
    input.spec_workers() + input.spec_firms()
}

/// Node `v` is an endpoint of some active coordinate.
pub open spec fn has_link(input: &CanonicalInput, active: Seq<bool>, v: int) -> bool {
    exists|u: int| #[trigger] coordinate_link(input, active, v, u)
}

/// `v` is the smallest node of its connected component (and the component
/// has at least one edge).
pub open spec fn is_leader(input: &CanonicalInput, active: Seq<bool>, v: int) -> bool {
    &&& 0 <= v < graph_nodes(input)
    &&& has_link(input, active, v)
    &&& forall|u: int| 0 <= u < v ==> !#[trigger] connected(input, active, u, v)
}

/// Number of component leaders among the nodes below `k`.
pub open spec fn leader_count(input: &CanonicalInput, active: Seq<bool>, k: int) -> int
    decreases k,
{
    if k <= 0 {
        0
    } else {
        leader_count(input, active, k - 1) + if is_leader(input, active, k - 1) {
            1int
        } else {
            0int
        }
    }
}

/// Number of connected components with at least one edge.
pub open spec fn component_count(input: &CanonicalInput, active: Seq<bool>) -> int {
    leader_count(input, active, graph_nodes(input))
}

/// Number of firms below `k` in the component of `lead`.
pub open spec fn component_firms_prefix(
    input: &CanonicalInput,
    active: Seq<bool>,
    lead: int,
    k: int,
) -> int
    decreases k,
{
    if k <= 0 {
        0
    } else {
        component_firms_prefix(input, active, lead, k - 1) + if connected(
            input,
            active,
            lead,
            input.spec_workers() + k - 1,
        ) {
            1int
        } else {
            0int
        }
    }
}

/// Physical mass of the active rows below `k` whose worker is in the component of `lead`.
pub open spec fn component_mass_prefix(
    input: &CanonicalInput,
    active: Seq<bool>,
    lead: int,
    k: int,
) -> int
    decreases k,
{
    if k <= 0 {
        0
    } else {
        component_mass_prefix(input, active, lead, k - 1) + if active[k - 1] && connected(
            input,
            active,
            lead,
            input.spec_worker()[k - 1] as int,
        ) {
            input.spec_frequency()[k - 1] as int
        } else {
            0int
        }
    }
}

/// The rank of the component of `lead`: its firm count, then its physical mass.
pub open spec fn component_rank(input: &CanonicalInput, active: Seq<bool>, lead: int) -> (int, int) {
    (
        component_firms_prefix(input, active, lead, input.spec_firms() as int),
        component_mass_prefix(input, active, lead, active.len() as int),
    )
}

/// Strict lexicographic order on ranks.
pub open spec fn rank_below(a: (int, int), b: (int, int)) -> bool {
    a.0 < b.0 || (a.0 == b.0 && a.1 < b.1)
}

/// `label` names the components: nodes with an edge carry the index of their
/// component, whose leader is `lead[c]`; isolated nodes stay unvisited.
pub open spec fn labels_components(
    input: &CanonicalInput,
    active: Seq<bool>,
    label: Seq<usize>,
    comps: int,
    lead: Seq<int>,
) -> bool {
    &&& label.len() == graph_nodes(input)
    &&& lead.len() == comps
    &&& comps == component_count(input, active)
    &&& forall|v: int|
        0 <= v < label.len() ==> (#[trigger] label[v] != UNVISITED <==> has_link(input, active, v))
    &&& forall|v: int| 0 <= v < label.len() ==> #[trigger] label[v] == UNVISITED || label[v] < comps
    &&& forall|c: int| 0 <= c < comps ==> #[trigger] is_leader(input, active, lead[c])
    &&& forall|c: int, v: int|
        0 <= c < comps && 0 <= v < label.len() ==> (#[trigger] label[v] == c <==> #[trigger] connected(
            input,
            active,
            lead[c],
            v,
        ))
}

/// The component with the strictly largest rank, and what it keeps.
pub open spec fn keeps_largest_component(
    input: &CanonicalInput,
    active: Seq<bool>,
    keep: Seq<bool>,
    w: int,
) -> bool {
    &&& is_leader(input, active, w)
    &&& keep.len() == active.len()
    &&& forall|r: int|
        0 <= r < keep.len() ==> #[trigger] keep[r] == (active[r] && connected(
            input,
            active,
            w,
            input.spec_worker()[r] as int,
        ))
    &&& forall|v: int|
        #[trigger] is_leader(input, active, v) && v != w ==> rank_below(
            component_rank(input, active, v),
            component_rank(input, active, w),
        )
}

/// A component that strictly outranks every other leaves no tie at the top.
pub proof fn lemma_keeps_untied(input: &CanonicalInput, active: Seq<bool>, keep: Seq<bool>, w: int)
    requires
        keeps_largest_component(input, active, keep, w),
    ensures
        !largest_component_tied(input, active),
{
    if largest_component_tied(input, active) {
        let (v, u) = choose|v: int, u: int|
            #![trigger is_leader(input, active, v), is_leader(input, active, u)]
            is_leader(input, active, v) && is_leader(input, active, u) && v != u && component_rank(
                input,
                active,
                v,
            ) == component_rank(input, active, u) && forall|x: int| #[trigger]
                is_leader(input, active, x) ==> !rank_below(
                    component_rank(input, active, u),
                    component_rank(input, active, x),
                );
        assert(is_leader(input, active, w));
        assert(!rank_below(component_rank(input, active, u), component_rank(input, active, w)));
        if v != w {
            assert(rank_below(component_rank(input, active, v), component_rank(input, active, w)));
        } else {
            assert(rank_below(component_rank(input, active, u), component_rank(input, active, w)));
        }
    }
}

/// Two different components share the largest rank.
pub open spec fn largest_component_tied(input: &CanonicalInput, active: Seq<bool>) -> bool {
    exists|v: int, w: int|
        #![trigger is_leader(input, active, v), is_leader(input, active, w)]
        is_leader(input, active, v) && is_leader(input, active, w) && v != w && component_rank(
            input,
            active,
            v,
        ) == component_rank(input, active, w) && forall|u: int| #[trigger]
            is_leader(input, active, u) ==> !rank_below(
                component_rank(input, active, w),
                component_rank(input, active, u),
            )
}

/// Number of entries of `s` equal to `x` among the first `k`.
pub open spec fn count_value(s: Seq<usize>, x: usize, k: int) -> int
    decreases k,
{
    if k <= 0 {
        0
    } else {
        count_value(s, x, k - 1) + if s[k - 1] == x {
            1int
        } else {
            0int
        }
    }
}

proof fn lemma_count_value_nonneg(s: Seq<usize>, x: usize, k: int)
    ensures
        count_value(s, x, k) >= 0,
    decreases k,
{
    if k > 0 {
        lemma_count_value_nonneg(s, x, k - 1);
    }
}

proof fn lemma_count_value_update(s: Seq<usize>, x: usize, i: int, y: usize, k: int)
    requires
        0 <= i < s.len(),
        s[i] == x,
        y != x,
        k <= s.len(),
    ensures
        count_value(s.update(i, y), x, k) == count_value(s, x, k) - if i < k {
            1int
        } else {
            0int
        },
    decreases k,
{
    if k > 0 {
        lemma_count_value_update(s, x, i, y, k - 1);
    }
}

proof fn lemma_leader_count_bound(input: &CanonicalInput, active: Seq<bool>, k: int)
    requires
        k >= 0,
    ensures
        0 <= leader_count(input, active, k) <= k,
    decreases k,
{
    if k > 0 {
        lemma_leader_count_bound(input, active, k - 1);
    }
}

/// A node connected to a different node has an edge.
proof fn lemma_connected_has_link(input: &CanonicalInput, active: Seq<bool>, u: int, v: int)
    requires
        connected(input, active, u, v),
        u != v,
    ensures
        has_link(input, active, u),
{
    let p = choose|p: Seq<int>| #[trigger] is_walk(input, active, p) && p[0] == u && p.last() == v;
    assert(p.len() >= 2);
    assert(coordinate_link(input, active, p[0], p[1]));
}

/// A set of nodes that holds `r` and is closed under edges holds every node connected to `r`.
proof fn lemma_closed_reaches(
    input: &CanonicalInput,
    active: Seq<bool>,
    s: spec_fn(int) -> bool,
    r: int,
    v: int,
)
    requires
        s(r),
        forall|a: int, b: int| s(a) && #[trigger] coordinate_link(input, active, a, b) ==> s(b),
        connected(input, active, r, v),
    ensures
        s(v),
{
    let p = choose|p: Seq<int>| #[trigger] is_walk(input, active, p) && p[0] == r && p.last() == v;
    lemma_walk_stays(input, active, s, p, p.len() - 1);
}

proof fn lemma_walk_stays(
    input: &CanonicalInput,
    active: Seq<bool>,
    s: spec_fn(int) -> bool,
    p: Seq<int>,
    i: int,
)
    requires
        is_walk(input, active, p),
        s(p[0]),
        forall|a: int, b: int| s(a) && #[trigger] coordinate_link(input, active, a, b) ==> s(b),
        0 <= i < p.len(),
    ensures
        s(p[i]),
    decreases i,
{
    if i > 0 {
        lemma_walk_stays(input, active, s, p, i - 1);
        assert(coordinate_link(input, active, p[i - 1], p[i]));
    }
}

/// An active coordinate links its worker and firm nodes.
pub proof fn lemma_row_link(input: &CanonicalInput, active: Seq<bool>, r: int)
    requires
        0 <= r < active.len(),
        active[r],
    ensures
        coordinate_link(
            input,
            active,
            input.spec_worker()[r] as int,
            input.spec_workers() + input.spec_firm()[r],
        ),
        has_link(input, active, input.spec_worker()[r] as int),
{
    let c = row_coordinate(input, r);
    assert(active_coordinates(input, active).contains(c));
    assert(crate::graph::joins(
        c,
        input.spec_workers() as int,
        input.spec_worker()[r] as int,
        input.spec_workers() + input.spec_firm()[r],
    ));
}

/// Nodes with an edge lie in the graph.
proof fn lemma_link_in_range(input: &CanonicalInput, active: Seq<bool>, u: int, v: int)
    requires
        input.wf(),
        active.len() == input.spec_worker().len(),
        coordinate_link(input, active, u, v),
    ensures
        0 <= u < graph_nodes(input),
        0 <= v < graph_nodes(input),
{
    let c = choose|c: (u32, u32)|
        active_coordinates(input, active).contains(c) && #[trigger] crate::graph::joins(
            c,
            input.spec_workers() as int,
            u,
            v,
        );
    let r = choose|r: int| 0 <= r < active.len() && active[r] && #[trigger] row_coordinate(input, r) == c;
    let _ = input.spec_worker()[r];
    let _ = input.spec_firm()[r];
}

/// Breadth-first labelling of the connected components, in order of their
/// smallest node.
fn label_components<I: InterruptCheck>(
    input: &CanonicalInput,
    active: &Vec<bool>,
    graph: &Graph,
    interrupt: &mut I,
) -> (r: Result<(Vec<usize>, usize, Ghost<Seq<int>>)>)
    requires
        active.len() == input.spec_worker().len(),
        graph.adjacency.len() == graph_nodes(input),
        graph_wf(graph),
        forall|u: int, v: int|
            0 <= u < graph.adjacency.len() ==> (#[trigger] linked(graph, u, v) <==> coordinate_link(
                input,
                active@,
                u,
                v,
            )),
    ensures
        r matches Ok((label, comps, lead)) ==> labels_components(
            input,
            active@,
            label@,
            comps as int,
            lead@,
        ),
        old(interrupt).inert() ==> r is Ok && final(interrupt).inert(),
{
    proof {
        use_type_invariant(input);
    }
    let ghost inert0 = interrupt.inert();
    let ghost act = active@;
    let n = graph.adjacency.len();
    let mut label: Vec<usize> = Vec::new();
    while label.len() < n
        invariant
            label.len() <= n,
            forall|v: int| 0 <= v < label.len() ==> #[trigger] label@[v] == UNVISITED,
        decreases n - label.len(),
    {
        label.push(UNVISITED);
    }
    let mut components: usize = 0;
    let ghost mut lead: Seq<int> = Seq::empty();
    let mut queue: VecDeque<usize> = VecDeque::new();
    let mut root: usize = 0;
    while root < n
        invariant
            n == graph.adjacency.len(),
            n == graph_nodes(input),
            input.wf(),
            act == active@,
            act.len() == input.spec_worker().len(),
            graph_wf(graph),
            forall|u: int, v: int|
                0 <= u < n ==> (#[trigger] linked(graph, u, v) <==> coordinate_link(
                    input,
                    act,
                    u,
                    v,
                )),
            root <= n,
            label.len() == n,
            queue@.len() == 0,
            components as int == leader_count(input, act, root as int),
            lead.len() == components,
            forall|v: int|
                0 <= v < n ==> #[trigger] label@[v] == UNVISITED || label@[v] < components,
            forall|v: int| 0 <= v < root && has_link(input, act, v) ==> #[trigger] label@[v] != UNVISITED,
            forall|v: int| 0 <= v < n && #[trigger] label@[v] != UNVISITED ==> has_link(input, act, v),
            forall|c: int| 0 <= c < components ==> #[trigger] lead[c] < root && is_leader(input, act, lead[c]),
            forall|c: int, v: int|
                0 <= c < components && 0 <= v < n ==> (#[trigger] label@[v] == c <==> #[trigger] connected(
                    input,
                    act,
                    lead[c],
                    v,
                )),
            inert0 == old(interrupt).inert(),
            inert0 ==> interrupt.inert(),
        decreases n - root,
    {
        match checkpoint_chunk(interrupt, root, "graph_component_roots") {
            Ok(()) => {},
            Err(e) => {
                return Err(e);
            },
        }
        proof {
            lemma_leader_count_bound(input, act, root as int);
        }
        if graph.adjacency[root].len() == 0 || label[root] != UNVISITED {
            proof {
                if graph.adjacency@[root as int]@.len() == 0 {
                    if has_link(input, act, root as int) {
                        let u = choose|u: int| #[trigger] coordinate_link(input, act, root as int, u);
                        assert(linked(graph, root as int, u));
                    }
                    assert(!is_leader(input, act, root as int));
                } else {
                    let c = label@[root as int] as int;
                    assert(connected(input, act, lead[c], root as int));
                    assert(lead[c] < root);
                    assert(!is_leader(input, act, root as int));
                }
            }
        } else {
            let ghost r = root as int;
            proof {
                let x = graph.adjacency@[r]@[0].to as int;
                assert(linked(graph, r, x));
                assert(coordinate_link(input, act, r, x));
                assert(has_link(input, act, r));
                assert forall|u: int| 0 <= u < r implies !#[trigger] connected(input, act, u, r) by {
                    if connected(input, act, u, r) {
                        lemma_connected_has_link(input, act, u, r);
                        let c = label@[u] as int;
                        assert(connected(input, act, lead[c], u));
                        lemma_connected_transitive(input, act, lead[c], u, r);
                        assert(label@[r] == c);
                    }
                }
                assert(is_leader(input, act, r));
                crate::graph::lemma_connected_refl(input, act, r);
                assert forall|c: int| 0 <= c < components implies !connected(input, act, lead[c], r) by {
                    if connected(input, act, lead[c], r) {
                        assert(label@[r] == c);
                    }
                }
            }
            label.set(root, components);
            queue.push_back(root);
            let ghost mut unvisited = count_value(label@, UNVISITED, n as int);
            proof {
                lemma_count_value_nonneg(label@, UNVISITED, n as int);
                assert(queue@[0] == root);
                assert(queue@.contains(root));
                assert forall|v: int| 0 <= v < n && label@[v] == components implies v == r by {}
            }
            while queue.len() > 0
                invariant
                    n == graph.adjacency.len(),
                    n == graph_nodes(input),
                    input.wf(),
                    act.len() == input.spec_worker().len(),
                    graph_wf(graph),
                    forall|u: int, v: int|
                        0 <= u < n ==> (#[trigger] linked(graph, u, v) <==> coordinate_link(
                            input,
                            act,
                            u,
                            v,
                        )),
                    0 <= r < n,
                    r == root,
                    components < n,
                    label.len() == n,
                    lead.len() == components,
                    unvisited == count_value(label@, UNVISITED, n as int),
                    unvisited >= 0,
                    label@[r] == components,
                    forall|v: int|
                        0 <= v < n ==> #[trigger] label@[v] == UNVISITED || label@[v] <= components,
                    forall|v: int|
                        0 <= v < root && has_link(input, act, v) ==> #[trigger] label@[v] != UNVISITED,
                    forall|v: int|
                        0 <= v < n && #[trigger] label@[v] != UNVISITED ==> has_link(input, act, v),
                    forall|c: int| 0 <= c < components ==> #[trigger] lead[c] < root && is_leader(input, act, lead[c]),
                    forall|c: int, v: int|
                        0 <= c < components && 0 <= v < n ==> (#[trigger] label@[v] == c <==> #[trigger] connected(
                            input,
                            act,
                            lead[c],
                            v,
                        )),
                    forall|v: int| 0 <= v < n && #[trigger] label@[v] == components ==> connected(input, act, r, v),
                    forall|k: int| 0 <= k < queue@.len() ==> 0 <= #[trigger] queue@[k] < n && label@[queue@[k] as int] == components,
                    forall|v: int, i: int|
                        0 <= v < n && label@[v] == components && !queue@.contains(v as usize) && 0 <= i
                            < graph.adjacency@[v]@.len() ==> label@[#[trigger] graph.adjacency@[v]@[i].to as int]
                            == components,
                    inert0 == old(interrupt).inert(),
                    inert0 ==> interrupt.inert(),
                decreases 2 * unvisited + queue@.len(),
            {
                let ghost bound = 2 * unvisited + queue@.len();
                let ghost q_old = queue@;
                let node = match queue.pop_front() {
                    Some(node) => node,
                    None => {
                        return Err(BackendError::internal("graph", "breadth-first queue underflow"));
                    },
                };
                proof {
                    assert(q_old[0] == node);
                    assert forall|v: int| 0 <= v < n && v != node && !#[trigger] queue@.contains(v as usize) implies
                        !q_old.contains(v as usize) by {
                        if q_old.contains(v as usize) {
                            let k = choose|k: int| 0 <= k < q_old.len() && q_old[k] == v as usize;
                            assert(k != 0);
                            assert(queue@[k - 1] == v as usize);
                        }
                    }
                }
                let degree = graph.adjacency[node].len();
                let mut arc_index: usize = 0;
                while arc_index < degree
                    invariant
                        n == graph.adjacency.len(),
                        n == graph_nodes(input),
                        input.wf(),
                        act.len() == input.spec_worker().len(),
                        graph_wf(graph),
                        forall|u: int, v: int|
                            0 <= u < n ==> (#[trigger] linked(graph, u, v) <==> coordinate_link(
                                input,
                                act,
                                u,
                                v,
                            )),
                        0 <= r < n,
                        r == root,
                        components < n,
                        0 <= node < n,
                        degree == graph.adjacency@[node as int]@.len(),
                        arc_index <= degree,
                        label.len() == n,
                        lead.len() == components,
                        unvisited == count_value(label@, UNVISITED, n as int),
                        unvisited >= 0,
                        2 * unvisited + queue@.len() < bound,
                        label@[r] == components,
                        label@[node as int] == components,
                        forall|v: int|
                            0 <= v < n ==> #[trigger] label@[v] == UNVISITED || label@[v] <= components,
                        forall|v: int|
                            0 <= v < root && has_link(input, act, v) ==> #[trigger] label@[v] != UNVISITED,
                        forall|v: int|
                            0 <= v < n && #[trigger] label@[v] != UNVISITED ==> has_link(input, act, v),
                        forall|c: int| 0 <= c < components ==> #[trigger] lead[c] < root && is_leader(input, act, lead[c]),
                        forall|c: int, v: int|
                            0 <= c < components && 0 <= v < n ==> (#[trigger] label@[v] == c <==> #[trigger] connected(
                                input,
                                act,
                                lead[c],
                                v,
                            )),
                        forall|v: int| 0 <= v < n && #[trigger] label@[v] == components ==> connected(input, act, r, v),
                        forall|k: int| 0 <= k < queue@.len() ==> 0 <= #[trigger] queue@[k] < n && label@[queue@[k] as int] == components,
                        forall|j: int| 0 <= j < arc_index ==> label@[#[trigger] graph.adjacency@[node as int]@[j].to as int] == components,
                        forall|v: int, i: int|
                            0 <= v < n && v != node && label@[v] == components && !queue@.contains(v as usize)
                                && 0 <= i < graph.adjacency@[v]@.len() ==> label@[#[trigger] graph.adjacency@[v]@[i].to as int]
                                == components,
                        inert0 == old(interrupt).inert(),
                        inert0 ==> interrupt.inert(),
                    decreases degree - arc_index,
                {
                    match checkpoint_chunk(interrupt, arc_index, "graph_component_bfs") {
                        Ok(()) => {},
                        Err(e) => {
                            return Err(e);
                        },
                    }
                    let to = graph.adjacency[node][arc_index].to;
                    let ghost lab0 = label@;
                    proof {
                        assert(linked(graph, node as int, to as int));
                        assert(coordinate_link(input, act, node as int, to as int));
                        lemma_connected_step(input, act, r, node as int, to as int);
                        if label@[to as int] != UNVISITED && label@[to as int] != components {
                            let c = label@[to as int] as int;
                            assert(connected(input, act, lead[c], to as int));
                            crate::graph::lemma_connected_symmetric(input, act, r, to as int);
                            lemma_connected_transitive(input, act, lead[c], to as int, r);
                            assert(label@[r] == c);
                        }
                    }
                    if label[to] == UNVISITED {
                        proof {
                            assert(linked(graph, node as int, to as int));
                            assert(coordinate_link(input, act, node as int, to as int));
                            lemma_connected_step(input, act, r, node as int, to as int);
                            lemma_link_symmetric(input, act, node as int, to as int);
                            assert(has_link(input, act, to as int));
                            lemma_count_value_update(label@, UNVISITED, to as int, components, n as int);
                            assert forall|c: int| 0 <= c < components implies !connected(input, act, lead[c], to as int) by {
                                if connected(input, act, lead[c], to as int) {
                                    assert(label@[to as int] == c);
                                }
                            }
                        }
                        let ghost q_before = queue@;
                        label.set(to, components);
                        queue.push_back(to);
                        proof {
                            unvisited = unvisited - 1;
                            lemma_count_value_nonneg(label@, UNVISITED, n as int);
                            assert forall|v: int| 0 <= v < n && v != node && label@[v] == components && !#[trigger] queue@.contains(v as usize) implies
                                !q_before.contains(v as usize) by {
                                if q_before.contains(v as usize) {
                                    let k = choose|k: int| 0 <= k < q_before.len() && q_before[k] == v as usize;
                                    assert(queue@[k] == v as usize);
                                }
                            }
                        }
                    }
                    proof {
                        assert(label@[to as int] == components);
                        assert forall|j: int| 0 <= j < arc_index + 1 implies label@[#[trigger] graph.adjacency@[node as int]@[j].to as int] == components by {
                            if j < arc_index {
                                assert(lab0[graph.adjacency@[node as int]@[j].to as int] == components);
                            }
                        }
                        assert forall|v: int, i: int|
                            0 <= v < n && v != node && label@[v] == components && !queue@.contains(v as usize)
                                && 0 <= i < graph.adjacency@[v]@.len() implies label@[#[trigger] graph.adjacency@[v]@[i].to as int]
                                == components by {
                            if lab0[v] == components {
                                assert(lab0[graph.adjacency@[v]@[i].to as int] == components);
                            } else {
                                assert(v == to as int);
                                assert(queue@[queue@.len() - 1] == to);
                                assert(queue@.contains(v as usize));
                            }
                        }
                    }
                    arc_index = arc_index + 1;
                }
                proof {
                    assert forall|v: int, i: int|
                        0 <= v < n && label@[v] == components && !queue@.contains(v as usize) && 0 <= i
                            < graph.adjacency@[v]@.len() implies label@[#[trigger] graph.adjacency@[v]@[i].to as int]
                            == components by {
                        if v != node {
                        }
                    }
                }
            }
            proof {
                let ghost lab = label@;
                let ghost comp = components;
                let s = |v: int| 0 <= v < n && lab[v] == comp;
                assert forall|a: int, b: int| s(a) && #[trigger] coordinate_link(input, act, a, b) implies s(b) by {
                    assert(linked(graph, a, b));
                    let i = choose|i: int| 0 <= i < graph.adjacency@[a]@.len() && #[trigger] graph.adjacency@[a]@[i].to == b;
                    assert(!queue@.contains(a as usize));
                    assert(lab[graph.adjacency@[a]@[i].to as int] == comp);
                    lemma_link_in_range(input, act, a, b);
                }
                assert forall|v: int| 0 <= v < n implies (#[trigger] label@[v] == components <==> connected(input, act, r, v)) by {
                    if connected(input, act, r, v) {
                        lemma_closed_reaches(input, act, s, r, v);
                    }
                }
                lead = lead.push(r);
                assert(is_leader(input, act, r));
            }
            components = components + 1;
            proof {
                assert forall|c: int, v: int|
                    0 <= c < components && 0 <= v < n implies (#[trigger] label@[v] == c <==> #[trigger] connected(
                        input,
                        act,
                        lead[c],
                        v,
                    )) by {
                    if c == components - 1 {
                        assert(lead[c] == r);
                    }
                }
            }
        }
        root = root + 1;
    }
    proof {
        assert forall|v: int| 0 <= v < n implies (#[trigger] label@[v] != UNVISITED <==> has_link(input, act, v)) by {}
        assert forall|c: int| 0 <= c < components implies #[trigger] is_leader(input, act, lead[c]) by {}
    }
    Ok((label, components, Ghost(lead)))
}

/// Two connected leaders are the same node.
proof fn lemma_leaders_equal(input: &CanonicalInput, active: Seq<bool>, u: int, v: int)
    requires
        is_leader(input, active, u),
        is_leader(input, active, v),
        connected(input, active, u, v),
    ensures
        u == v,
{
    if u < v {
        assert(!connected(input, active, u, v));
    } else if v < u {
        crate::graph::lemma_connected_symmetric(input, active, u, v);
        assert(!connected(input, active, v, u));
    }
}

proof fn lemma_component_mass_bounded(input: &CanonicalInput, active: Seq<bool>, lead: int, k: int)
    requires
        input.wf(),
        0 <= k <= input.spec_worker().len(),
    ensures
        0 <= component_mass_prefix(input, active, lead, k) <= mass_prefix(input.spec_frequency(), k),
    decreases k,
{
    if k > 0 {
        lemma_component_mass_bounded(input, active, lead, k - 1);
    }
}

/// The rows of the largest connected component, the number of components,
/// and how many rows the component keeps.
#[derive(Clone, Debug)]
pub struct ComponentResult {
    pub keep: Vec<bool>,
    pub components: usize,
    pub retained_rows: usize,
}

/// The active mask has one entry per row and at least one active row.
pub open spec fn mask_valid(input: &CanonicalInput, active: Seq<bool>) -> bool {
    active.len() == input.spec_worker().len() && count_true_spec(active) > 0
}

/// Selects the connected component of the active coordinate graph with the
/// most firms, breaking ties by physical mass; a remaining tie is refused
/// with `GraphUnidentified`.
pub fn largest_component<I: InterruptCheck>(
    input: &CanonicalInput,
    active: &Vec<bool>,
    interrupt: &mut I,
) -> (r: Result<ComponentResult>)
    ensures
        r is Ok ==> mask_valid(input, active@),
        r matches Ok(res) ==> {
            &&& res.components == component_count(input, active@)
            &&& res.components >= 1
            &&& res.retained_rows == count_true_spec(res.keep@)
            &&& exists|w: int| keeps_largest_component(input, active@, res.keep@, w)
            &&& !largest_component_tied(input, active@)
        },
        old(interrupt).inert() ==> final(interrupt).inert(),
        old(interrupt).inert() && !mask_valid(input, active@) ==> r is Err,
        old(interrupt).inert() && mask_valid(input, active@) ==> (r matches Err(e) ==> machine_error(e)
            || e.code == ErrorCode::GraphUnidentified),
        old(interrupt).inert() && active.len() == input.spec_worker().len() ==> (r matches Err(e)
            ==> machine_error(e) || e.code == ErrorCode::GraphUnidentified || e.code == ErrorCode::GraphEmpty),
        old(interrupt).inert() && mask_valid(input, active@) ==> (r matches Err(e) && e.code
            == ErrorCode::GraphUnidentified ==> largest_component_tied(input, active@)),
        old(interrupt).inert() && active.len() <= INTERRUPTIBLE_SORT_RUN ==> (r matches Err(e)
            ==> !machine_error(e)),
        old(interrupt).inert() && mask_valid(input, active@) && !largest_component_tied(input, active@)
            && active.len() <= INTERRUPTIBLE_SORT_RUN ==> r is Ok,
        old(interrupt).inert() && active.len() == input.spec_worker().len() && !mask_valid(input, active@)
            ==> (r matches Err(e) && e.code == ErrorCode::GraphEmpty),
{
    proof {
        use_type_invariant(input);
    }
    let ghost inert0 = interrupt.inert();
    let ghost act = active@;
    validate_mask(input, active, interrupt)?;
    let graph = coordinate_graph(input, active, interrupt)?;
    let (label, components, Ghost(lead)) = label_components(input, active, &graph, interrupt)?;
    let rows = active.len();
    let workers = input.workers();
    let firm_total = input.firms();
    proof {
        let q = crate::graph::lemma_count_prefix_witness(act, rows as int);
        lemma_row_link(input, act, q);
        let _ = label@[input.spec_worker()[q] as int];
    }
    if components == 0 {
        return Err(BackendError::new(ErrorCode::GraphEmpty, "graph", "no connected worker-firm component remains"));
    }
    let mut firms: Vec<usize> = Vec::new();
    let mut mass: Vec<u64> = Vec::new();
    while firms.len() < components
        invariant
            firms.len() == mass.len(),
            firms.len() <= components,
            forall|c: int| 0 <= c < firms.len() ==> #[trigger] firms@[c] == 0,
            forall|c: int| 0 <= c < mass.len() ==> #[trigger] mass@[c] == 0,
        decreases components - firms.len(),
    {
        firms.push(0);
        mass.push(0);
    }
    let mut row_component: Vec<usize> = Vec::new();
    while row_component.len() < rows
        invariant
            row_component.len() <= rows,
            forall|q: int| 0 <= q < row_component.len() ==> #[trigger] row_component@[q] == UNVISITED,
        decreases rows - row_component.len(),
    {
        row_component.push(UNVISITED);
    }
    let mut firm: usize = 0;
    while firm < firm_total
        invariant
            input.wf(),
            act == active@,
            labels_components(input, act, label@, components as int, lead),
            workers == input.spec_workers(),
            firm_total == input.spec_firms(),
            firm <= firm_total,
            firms.len() == components,
            mass.len() == components,
            forall|c: int| 0 <= c < components ==> #[trigger] mass@[c] == 0,
            forall|c: int| 0 <= c < components ==> #[trigger] firms@[c] == component_firms_prefix(
                input,
                act,
                lead[c],
                firm as int,
            ) && firms@[c] <= firm,
            inert0 == old(interrupt).inert(),
            inert0 ==> interrupt.inert(),
        decreases firm_total - firm,
    {
        match checkpoint_chunk(interrupt, firm, "graph_component_firms") {
            Ok(()) => {},
            Err(e) => {
                return Err(e);
            },
        }
        let node = workers + firm;
        let component = label[node];
        let ghost before = firms@;
        if component != UNVISITED {
            let updated = firms[component] + 1;
            firms.set(component, updated);
        }
        proof {
            assert forall|c: int| 0 <= c < components implies #[trigger] firms@[c] == component_firms_prefix(
                input,
                act,
                lead[c],
                firm + 1,
            ) && firms@[c] <= firm + 1 by {
                let _ = label@[node as int];
                assert(before[c] == component_firms_prefix(input, act, lead[c], firm as int));
                assert(label@[node as int] == c <==> connected(input, act, lead[c], node as int));
            }
        }
        firm = firm + 1;
    }
    let mut row: usize = 0;
    while row < rows
        invariant
            input.wf(),
            act == active@,
            rows == act.len(),
            rows == input.spec_worker().len(),
            labels_components(input, act, label@, components as int, lead),
            workers == input.spec_workers(),
            row <= rows,
            mass.len() == components,
            row_component.len() == rows,
            forall|c: int| 0 <= c < components ==> #[trigger] mass@[c] == component_mass_prefix(
                input,
                act,
                lead[c],
                row as int,
            ),
            forall|q: int| 0 <= q < rows ==> #[trigger] row_component@[q] == if q < row && act[q] {
                label@[input.spec_worker()[q] as int]
            } else {
                UNVISITED
            },
            inert0 == old(interrupt).inert(),
            inert0 ==> interrupt.inert(),
        decreases rows - row,
    {
        match checkpoint_chunk(interrupt, row, "graph_component_rows") {
            Ok(()) => {},
            Err(e) => {
                return Err(e);
            },
        }
        if active[row] {
            let worker = input.worker_at(row) as usize;
            proof {
                lemma_row_link(input, act, row as int);
            }
            let component = label[worker];
            if component == UNVISITED {
                return Err(BackendError::internal("graph", "active row has no connected-component label"));
            }
            row_component.set(row, component);
            let frequency = input.frequency_at(row);
            proof {
                lemma_component_mass_bounded(input, act, lead[component as int], row + 1);
                lemma_mass_prefix_monotone(input.spec_frequency(), row + 1, rows as int);
            }
            let updated = match mass[component].checked_add(frequency) {
                Some(v) => v,
                None => {
                    return Err(BackendError::new(ErrorCode::ResourceLimit, "graph", "component physical mass overflow"));
                },
            };
            let ghost before = mass@;
            mass.set(component, updated);
            proof {
                assert forall|c: int| 0 <= c < components implies #[trigger] mass@[c] == component_mass_prefix(
                    input,
                    act,
                    lead[c],
                    row + 1,
                ) by {
                    assert(before[c] == component_mass_prefix(input, act, lead[c], row as int));
                    assert(label@[worker as int] == c <==> connected(input, act, lead[c], worker as int));
                }
            }
        } else {
            proof {
                assert forall|c: int| 0 <= c < components implies #[trigger] mass@[c] == component_mass_prefix(
                    input,
                    act,
                    lead[c],
                    row + 1,
                ) by {}
            }
        }
        row = row + 1;
    }
    let largest = match maximum_component_rank(&firms, &mass, interrupt)? {
        Some(m) => m,
        None => {
            return Err(BackendError::new(ErrorCode::GraphEmpty, "graph", "component rank is empty"));
        },
    };
    let mut winners: Vec<usize> = Vec::new();
    let mut component: usize = 0;
    while component < components
        invariant
            firms.len() == components,
            mass.len() == components,
            component <= components,
            forall|i: int| 0 <= i < winners.len() ==> #[trigger] winners@[i] < component
                && firms@[winners@[i] as int] == largest.0 && mass@[winners@[i] as int] == largest.1,
            forall|i: int, j: int| 0 <= i < j < winners.len() ==> #[trigger] winners@[i] < #[trigger] winners@[j],
            forall|c: int| 0 <= c < component && firms@[c] == largest.0 && mass@[c] == largest.1
                ==> #[trigger] winners@.contains(c as usize),
            inert0 == old(interrupt).inert(),
            inert0 ==> interrupt.inert(),
        decreases components - component,
    {
        match checkpoint_chunk(interrupt, component, "graph_component_winners") {
            Ok(()) => {},
            Err(e) => {
                return Err(e);
            },
        }
        if firms[component] == largest.0 && mass[component] == largest.1 {
            let ghost w0 = winners@;
            winners.push(component);
            proof {
                assert forall|c: int| 0 <= c < component + 1 && firms@[c] == largest.0 && mass@[c] == largest.1
                    implies #[trigger] winners@.contains(c as usize) by {
                    if c < component {
                        assert(w0.contains(c as usize));
                        let i = choose|i: int| 0 <= i < w0.len() && w0[i] == c as usize;
                        assert(winners@[i] == c as usize);
                    } else {
                        assert(winners@[winners.len() - 1] == c as usize);
                    }
                }
            }
        }
        component = component + 1;
    }
    if winners.len() != 1 {
        proof {
            let i = choose|i: int| 0 <= i < components && #[trigger] firms@[i] == largest.0 && mass@[i] == largest.1;
            assert(winners@.contains(i as usize));
            assert(winners.len() >= 2);
            let c1 = winners@[0] as int;
            let c2 = winners@[1] as int;
            assert(0 <= c1 < components && 0 <= c2 < components && c1 != c2);
            let v = lead[c1];
            let w = lead[c2];
            assert(is_leader(input, act, v) && is_leader(input, act, w));
            assert(label@[v] == c1) by {
                crate::graph::lemma_connected_refl(input, act, v);
            }
            assert(label@[w] == c2) by {
                crate::graph::lemma_connected_refl(input, act, w);
            }
            assert(component_rank(input, act, v) == component_rank(input, act, w));
            assert(is_leader(input, act, v) && is_leader(input, act, w) && v != w);
            assert forall|u: int| #[trigger] is_leader(input, act, u) implies !rank_below(
                component_rank(input, act, w),
                component_rank(input, act, u),
            ) by {
                let c = label@[u] as int;
                crate::graph::lemma_connected_refl(input, act, u);
                assert(connected(input, act, lead[c], u));
                lemma_leaders_equal(input, act, lead[c], u);
                assert(rank_le((firms@[c], mass@[c]), largest));
            }
            assert(largest_component_tied(input, act));
        }
        return Err(BackendError::new(
            ErrorCode::GraphUnidentified,
            "graph",
            "multiple connected components tie for largest-component selection",
        ));
    }
    let winner = winners[0];
    let mut keep: Vec<bool> = Vec::new();
    let mut row: usize = 0;
    while row < rows
        invariant
            rows == act.len(),
            act == active@,
            row_component.len() == rows,
            row <= rows,
            keep.len() == row,
            forall|q: int| 0 <= q < row ==> #[trigger] keep@[q] == (act[q] && row_component@[q] == winner),
            inert0 == old(interrupt).inert(),
            inert0 ==> interrupt.inert(),
        decreases rows - row,
    {
        match checkpoint_chunk(interrupt, row, "graph_component_keep") {
            Ok(()) => {},
            Err(e) => {
                return Err(e);
            },
        }
        keep.push(active[row] && row_component[row] == winner);
        row = row + 1;
    }
    let retained_rows = count_true(&keep, interrupt, "graph_component_keep_count")?;
    proof {
        assert(winner < components);
        let w = lead[winner as int];
        assert(is_leader(input, act, w));
        assert(label@[w] == winner) by {
            crate::graph::lemma_connected_refl(input, act, w);
        }
        assert forall|q: int| 0 <= q < keep.len() implies #[trigger] keep@[q] == (act[q] && connected(
            input,
            act,
            w,
            input.spec_worker()[q] as int,
        )) by {
            if act[q] {
                lemma_row_link(input, act, q);
                let _ = label@[input.spec_worker()[q] as int];
            }
        }
        assert forall|v: int| #[trigger] is_leader(input, act, v) && v != w implies rank_below(
            component_rank(input, act, v),
            component_rank(input, act, w),
        ) by {
            let c = label@[v] as int;
            crate::graph::lemma_connected_refl(input, act, v);
            assert(connected(input, act, lead[c], v));
            lemma_leaders_equal(input, act, lead[c], v);
            assert(rank_le((firms@[c], mass@[c]), largest));
            assert(winners@.contains(winner));
            if firms@[c] == largest.0 && mass@[c] == largest.1 {
                assert(winners@.contains(c as usize));
                let i = choose|i: int| 0 <= i < winners.len() && winners@[i] == c as usize;
                assert(c == winner);
            }
        }
        assert(keeps_largest_component(input, act, keep@, w));
    }
    let result = ComponentResult { keep, components, retained_rows };
    proof {
        assert(keeps_largest_component(input, active@, result.keep@, lead[winner as int]));
        assert(result.components == component_count(input, active@));
        assert(result.retained_rows == count_true_spec(result.keep@));
        lemma_keeps_untied(input, active@, result.keep@, lead[winner as int]);
    }
    Ok(result)
}

/// Restricting the active rows to one component keeps that component connected.
pub proof fn lemma_component_restriction(input: &CanonicalInput, a: Seq<bool>, keep: Seq<bool>, w: int, r: int)
    requires
        input.wf(),
        a.len() == input.spec_worker().len(),
        keep.len() == a.len(),
        forall|q: int| 0 <= q < keep.len() ==> #[trigger] keep[q] == (a[q] && connected(
            input,
            a,
            w,
            input.spec_worker()[q] as int,
        )),
        0 <= r < keep.len(),
        keep[r],
    ensures
        connected(input, keep, w, input.spec_worker()[r] as int),
{
    let v = input.spec_worker()[r] as int;
    let p = choose|p: Seq<int>| #[trigger] is_walk(input, a, p) && p[0] == w && p.last() == v;
    lemma_restricted_prefix(input, a, keep, w, p, p.len() - 1);
}

proof fn lemma_restricted_prefix(input: &CanonicalInput, a: Seq<bool>, keep: Seq<bool>, w: int, p: Seq<int>, i: int)
    requires
        input.wf(),
        a.len() == input.spec_worker().len(),
        keep.len() == a.len(),
        forall|q: int| 0 <= q < keep.len() ==> #[trigger] keep[q] == (a[q] && connected(
            input,
            a,
            w,
            input.spec_worker()[q] as int,
        )),
        is_walk(input, a, p),
        p[0] == w,
        0 <= i < p.len(),
    ensures
        connected(input, a, w, p[i]),
        connected(input, keep, w, p[i]),
    decreases i,
{
    if i == 0 {
        crate::graph::lemma_connected_refl(input, a, w);
        crate::graph::lemma_connected_refl(input, keep, w);
    } else {
        lemma_restricted_prefix(input, a, keep, w, p, i - 1);
        let x = p[i - 1];
        let y = p[i];
        assert(coordinate_link(input, a, x, y));
        lemma_connected_step(input, a, w, x, y);
        let c = choose|c: (u32, u32)|
            active_coordinates(input, a).contains(c) && #[trigger] crate::graph::joins(
                c,
                input.spec_workers() as int,
                x,
                y,
            );
        let q = choose|q: int| 0 <= q < a.len() && a[q] && #[trigger] row_coordinate(input, q) == c;
        assert(connected(input, a, w, input.spec_worker()[q] as int));
        assert(keep[q]);
        assert(active_coordinates(input, keep).contains(c));
        assert(coordinate_link(input, keep, x, y));
        lemma_connected_step(input, keep, w, x, y);
    }
}

} // verus!
