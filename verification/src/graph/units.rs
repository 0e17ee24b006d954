//! Walks of the deletion-unit multigraph and walks of the rows outside one
//! deletion unit are the same thing, so the multigraph's bridges are the
//! units whose removal disconnects their own rows.

use vstd::prelude::*;

use crate::graph::dfs::{arc_fits, edge_listed, joined_without_unit, unit_not_bridge, unit_step, unit_walk};
use crate::graph::walks::{edge_not_bridge, reach_avoiding, step_avoiding, undirected, walk_avoiding};
use crate::graph::{active_deletions, graph_wf, joins, row_coordinate, Arc, Graph};
use crate::problem::CanonicalInput;

verus! {

/// Some active row carries listed edge `j`'s deletion unit and coordinate.
pub open spec fn edge_witnessed(input: &CanonicalInput, act: Seq<bool>, edges: Seq<(u32, u32, u32)>, j: int) -> bool {
    exists|q: int|
        0 <= q < act.len() && act[q] && input.spec_deletion()[q] == edges[j].0 && (edges[j].1, edges[j].2)
            == #[trigger] row_coordinate(input, q)
}

/// The deletion unit of row `q` is listed, with the row's coordinate.
pub open spec fn row_listed(input: &CanonicalInput, edges: Seq<(u32, u32, u32)>, q: int) -> bool {
    exists|j: int|
        0 <= j < edges.len() && (#[trigger] edges[j]).0 == input.spec_deletion()[q] && (edges[j].1, edges[j].2)
            == row_coordinate(input, q)
}

/// A walk of the unit multigraph that avoids edge `k` is a walk of the rows
/// outside the deletion unit of `k`.
#[verifier::spinoff_prover]
pub(crate) proof fn lemma_walk_to_units(
    input: &CanonicalInput,
    act: Seq<bool>,
    g: &Graph,
    edges: Seq<(u32, u32, u32)>,
    k: int,
    p: Seq<int>,
)
    requires
        forall|v: int, i: int|
            0 <= v < g.adjacency@.len() && 0 <= i < g.adjacency@[v]@.len() ==> arc_fits(
                edges,
                input.spec_workers() as int,
                v,
                #[trigger] g.adjacency@[v]@[i],
            ),
        forall|j: int| 0 <= j < edges.len() ==> #[trigger] edge_witnessed(input, act, edges, j),
        forall|i: int, j: int| 0 <= i < j < edges.len() ==> (#[trigger] edges[i]).0 < (#[trigger] edges[j]).0,
        0 <= k < edges.len(),
        walk_avoiding(g, set![k], p),
    ensures
        unit_walk(input, act, edges[k].0 as int, p),
{
    let d = edges[k].0 as int;
    let wk = input.spec_workers() as int;
    assert forall|i: int| 0 <= i < p.len() - 1 implies unit_step(input, act, d, #[trigger] p[i], p[i + 1]) by {
        assert(step_avoiding(g, set![k], p[i], p[i + 1]));
        let j = choose|j: int|
            0 <= j < g.adjacency@[p[i]]@.len() && (#[trigger] g.adjacency@[p[i]]@[j]).to == p[i + 1]
                && !set![k].contains(g.adjacency@[p[i]]@[j].edge as int);
        let x = g.adjacency@[p[i]]@[j];
        assert(arc_fits(edges, wk, p[i], x));
        let k2 = x.edge as int;
        assert(k2 != k);
        assert(edge_witnessed(input, act, edges, k2));
        let q = choose|q: int|
            0 <= q < act.len() && act[q] && input.spec_deletion()[q] == edges[k2].0 && (edges[k2].1, edges[k2].2)
                == #[trigger] row_coordinate(input, q);
        if k2 < k {
            assert(edges[k2].0 < edges[k].0);
        } else {
            assert(edges[k].0 < edges[k2].0);
        }
        assert(joins(row_coordinate(input, q), wk, p[i], p[i + 1]));
    }
}

/// A walk of the rows outside the deletion unit of edge `k` is a walk of the
/// unit multigraph that avoids `k`.
#[verifier::spinoff_prover]
pub(crate) proof fn lemma_units_to_walk(
    input: &CanonicalInput,
    act: Seq<bool>,
    g: &Graph,
    edges: Seq<(u32, u32, u32)>,
    k: int,
    p: Seq<int>,
)
    requires
        graph_wf(g),
        g.edges == edges.len(),
        forall|j: int| 0 <= j < edges.len() ==> #[trigger] edge_listed(g.adjacency@, edges, input.spec_workers() as int, j),
        forall|j: int| 0 <= j < edges.len() ==> (#[trigger] edges[j]).1 < input.spec_workers() && input.spec_workers() + edges[j].2 < g.adjacency@.len(),
        forall|q: int| 0 <= q < act.len() && act[q] ==> #[trigger] row_listed(input, edges, q),
        0 <= k < edges.len(),
        unit_walk(input, act, edges[k].0 as int, p),
        0 <= p[0] < g.adjacency@.len(),
    ensures
        walk_avoiding(g, set![k], p),
{
    let d = edges[k].0 as int;
    let wk = input.spec_workers() as int;
    assert forall|i: int| 0 <= i < p.len() - 1 implies step_avoiding(g, set![k], #[trigger] p[i], p[i + 1]) && 0 <= p[i + 1] < g.adjacency@.len() by {
        assert(unit_step(input, act, d, p[i], p[i + 1]));
        let q = choose|q: int|
            0 <= q < act.len() && act[q] && input.spec_deletion()[q] != d && joins(
                #[trigger] row_coordinate(input, q),
                wk,
                p[i],
                p[i + 1],
            );
        assert(row_listed(input, edges, q));
        let j = choose|j: int|
            0 <= j < edges.len() && (#[trigger] edges[j]).0 == input.spec_deletion()[q] && (edges[j].1, edges[j].2)
                == row_coordinate(input, q);
        assert(edge_listed(g.adjacency@, edges, wk, j));
        let w = edges[j].1 as int;
        let f = wk + edges[j].2;
        assert(j != k);
        assert(g.adjacency.len() == g.adjacency@.len());
        assert(w < wk);
        assert((p[i] == w && p[i + 1] == f) || (p[i] == f && p[i + 1] == w));
        if p[i] == w {
            let x = Arc { to: f as usize, edge: j as usize };
            let a = choose|a: int| 0 <= a < g.adjacency@[w]@.len() && g.adjacency@[w]@[a] == x;
            let _ = g.adjacency@[w]@[a];
        } else {
            let x = Arc { to: w as usize, edge: j as usize };
            let a = choose|a: int| 0 <= a < g.adjacency@[f]@.len() && g.adjacency@[f]@[a] == x;
            let _ = g.adjacency@[f]@[a];
        }
    }
    assert forall|i: int| 0 <= i < p.len() implies 0 <= #[trigger] p[i] < g.adjacency@.len() by {
        if i > 0 {
            assert(step_avoiding(g, set![k], p[i - 1], p[i - 1 + 1]));
        }
    }
}

/// Every active row's deletion unit is listed, with the row's coordinate.
#[verifier::spinoff_prover]
pub(crate) proof fn lemma_rows_listed(
    input: &CanonicalInput,
    act: Seq<bool>,
    edges: Seq<(u32, u32, u32)>,
    coordinate: Seq<Option<(u32, u32)>>,
)
    requires
        input.wf(),
        act.len() == input.spec_worker().len(),
        coordinate.len() == input.spec_deletion_units(),
        forall|q: int| 0 <= q < act.len() && act[q] ==> #[trigger] coordinate[input.spec_deletion()[q] as int]
            == Some(row_coordinate(input, q)),
        forall|k: int| 0 <= k < edges.len() ==> coordinate[(#[trigger] edges[k]).0 as int] == Some((edges[k].1, edges[k].2)),
        forall|d: int| 0 <= d < coordinate.len() && (#[trigger] coordinate[d]) is Some ==> exists|k: int|
            0 <= k < edges.len() && (#[trigger] edges[k]).0 == d,
    ensures
        forall|q: int| 0 <= q < act.len() && act[q] ==> #[trigger] row_listed(input, edges, q),
{
    assert forall|q: int| 0 <= q < act.len() && act[q] implies #[trigger] row_listed(input, edges, q) by {
        let d = input.spec_deletion()[q] as int;
        assert(0 <= d < coordinate.len());
        assert(coordinate[d] == Some(row_coordinate(input, q)));
        let j = choose|j: int| 0 <= j < edges.len() && (#[trigger] edges[j]).0 == d;
        assert(coordinate[edges[j].0 as int] == Some((edges[j].1, edges[j].2)));
        assert((edges[j].1, edges[j].2) == row_coordinate(input, q));
        assert(edges[j].0 == input.spec_deletion()[q]);
        assert(0 <= j < edges.len() && (edges[j]).0 == input.spec_deletion()[q] && (edges[j].1, edges[j].2)
            == row_coordinate(input, q));
    }
}

/// A unit the search flags is a bridge of the rows.
#[verifier::spinoff_prover]
pub(crate) proof fn lemma_flagged_units(
    input: &CanonicalInput,
    act: Seq<bool>,
    g: &Graph,
    edges: Seq<(u32, u32, u32)>,
    flags: Seq<bool>,
    output: Seq<u32>,
    origin: Seq<int>,
)
    requires
        graph_wf(g),
        undirected(g),
        g.edges == edges.len(),
        forall|v: int, i: int|
            0 <= v < g.adjacency@.len() && 0 <= i < g.adjacency@[v]@.len() ==> arc_fits(
                edges,
                input.spec_workers() as int,
                v,
                #[trigger] g.adjacency@[v]@[i],
            ),
        forall|j: int| 0 <= j < edges.len() ==> #[trigger] edge_listed(g.adjacency@, edges, input.spec_workers() as int, j),
        forall|j: int| 0 <= j < edges.len() ==> (#[trigger] edges[j]).1 < input.spec_workers() && input.spec_workers() + edges[j].2 < g.adjacency@.len(),
        forall|j: int| 0 <= j < edges.len() ==> #[trigger] edge_witnessed(input, act, edges, j),
        flags.len() == edges.len(),
        forall|q: int| 0 <= q < edges.len() ==> (#[trigger] flags[q] <==> !edge_not_bridge(g, q)),
        origin.len() == output.len(),
        forall|i: int| 0 <= i < output.len() ==> 0 <= #[trigger] origin[i] < edges.len() && output[i] == edges[origin[i]].0
            && flags[origin[i]],
        forall|q: int| 0 <= q < act.len() && act[q] ==> #[trigger] row_listed(input, edges, q),
    ensures
        forall|d: u32| output.contains(d) ==> !#[trigger] unit_not_bridge(input, act, d),
{
    let wk = input.spec_workers() as int;
    assert forall|d: u32| output.contains(d) implies !#[trigger] unit_not_bridge(input, act, d) by {
        let i = choose|i: int| 0 <= i < output.len() && output[i] == d;
        let k = origin[i];
        assert(0 <= k < edges.len() && output[i] == edges[k].0 && flags[k]);
        assert(!edge_not_bridge(g, k));
        let (a, ai) = choose|a: int, ai: int|
            0 <= a < g.adjacency@.len() && 0 <= ai < g.adjacency@[a]@.len() && (#[trigger] g.adjacency@[a]@[ai]).edge
                == k && !reach_avoiding(g, set![k], a, g.adjacency@[a]@[ai].to as int);
        let arc = g.adjacency@[a]@[ai];
        assert(arc_fits(edges, wk, a, arc));
        let w = edges[k].1 as int;
        let f = wk + edges[k].2;
        assert(edge_witnessed(input, act, edges, k));
        let q0 = choose|q: int|
            0 <= q < act.len() && act[q] && input.spec_deletion()[q] == edges[k].0 && (edges[k].1, edges[k].2)
                == row_coordinate(input, q);
        if unit_not_bridge(input, act, d) {
            assert(input.spec_firm()[q0] == edges[k].2);
            assert(joined_without_unit(input, act, d as int, input.spec_worker()[q0] as int, wk + input.spec_firm()[q0]));
            let p = choose|p: Seq<int>| #[trigger] unit_walk(input, act, d as int, p) && p[0] == w && p.last() == f;
            lemma_units_to_walk(input, act, g, edges, k, p);
            assert(reach_avoiding(g, set![k], w, f));
            crate::graph::walks::lemma_reach_symmetric(g, set![k], w, f);
        }
    }
}

/// A unit the search leaves unflagged is no bridge of the rows.
#[verifier::spinoff_prover]
pub(crate) proof fn lemma_unflagged_units(
    input: &CanonicalInput,
    act: Seq<bool>,
    g: &Graph,
    edges: Seq<(u32, u32, u32)>,
    flags: Seq<bool>,
    output: Seq<u32>,
)
    requires
        forall|v: int, i: int|
            0 <= v < g.adjacency@.len() && 0 <= i < g.adjacency@[v]@.len() ==> arc_fits(
                edges,
                input.spec_workers() as int,
                v,
                #[trigger] g.adjacency@[v]@[i],
            ),
        forall|j: int| 0 <= j < edges.len() ==> #[trigger] edge_listed(g.adjacency@, edges, input.spec_workers() as int, j),
        forall|j: int| 0 <= j < edges.len() ==> (#[trigger] edges[j]).1 < input.spec_workers() && input.spec_workers() + edges[j].2 < g.adjacency@.len(),
        forall|j: int| 0 <= j < edges.len() ==> #[trigger] edge_witnessed(input, act, edges, j),
        forall|i: int, j: int| 0 <= i < j < edges.len() ==> (#[trigger] edges[i]).0 < (#[trigger] edges[j]).0,
        g.edges == edges.len(),
        flags.len() == edges.len(),
        forall|q: int| 0 <= q < edges.len() ==> (#[trigger] flags[q] <==> !edge_not_bridge(g, q)),
        forall|k: int| 0 <= k < edges.len() && flags[k] ==> output.contains((#[trigger] edges[k]).0),
        forall|q: int| 0 <= q < act.len() && act[q] ==> #[trigger] row_listed(input, edges, q),
    ensures
        forall|d: u32|
            active_deletions(input, act).contains(d) && !output.contains(d) ==> #[trigger] unit_not_bridge(input, act, d),
{
    let wk = input.spec_workers() as int;
    assert forall|d: u32| active_deletions(input, act).contains(d) && !output.contains(d) implies #[trigger] unit_not_bridge(
        input,
        act,
        d,
    ) by {
        let q0 = choose|r: int| 0 <= r < act.len() && act[r] && #[trigger] input.spec_deletion()[r] == d;
        assert(row_listed(input, edges, q0));
        let k = choose|k: int|
            0 <= k < edges.len() && (#[trigger] edges[k]).0 == input.spec_deletion()[q0] && (edges[k].1, edges[k].2)
                == row_coordinate(input, q0);
        assert(!flags[k]);
        assert(edge_not_bridge(g, k));
        let w = edges[k].1 as int;
        let f = wk + edges[k].2;
        assert(edge_listed(g.adjacency@, edges, wk, k));
        let x = Arc { to: f as usize, edge: k as usize };
        let i = choose|i: int| 0 <= i < g.adjacency@[w]@.len() && g.adjacency@[w]@[i] == x;
        let _ = g.adjacency@[w]@[i];
        assert(g.adjacency.len() == g.adjacency@.len());
        assert(reach_avoiding(g, set![k], w, f));
        let p = choose|p: Seq<int>| #[trigger] walk_avoiding(g, set![k], p) && p[0] == w && p.last() == f;
        lemma_walk_to_units(input, act, g, edges, k, p);
        assert forall|q: int| 0 <= q < act.len() && act[q] && input.spec_deletion()[q] == d implies joined_without_unit(
            input,
            act,
            d as int,
            input.spec_worker()[q] as int,
            wk + (#[trigger] input.spec_firm()[q]),
        ) by {
            assert(row_listed(input, edges, q));
            let k2 = choose|k2: int|
                0 <= k2 < edges.len() && (#[trigger] edges[k2]).0 == input.spec_deletion()[q] && (edges[k2].1, edges[k2].2)
                    == row_coordinate(input, q);
            if k2 < k {
                assert(edges[k2].0 < edges[k].0);
            } else if k < k2 {
                assert(edges[k].0 < edges[k2].0);
            }
            assert(row_coordinate(input, q) == row_coordinate(input, q0));
        }
    }
}

} // verus!
