//! The match-deletion fixed point as a mathematical iteration: keep the
//! largest component, then remove the workers seen at a single firm, else the
//! cut workers, else the bridge deletion units, until none remains.

use vstd::prelude::*;

use crate::graph::component::{
    component_count, component_rank, has_link, is_leader, keeps_largest_component, largest_component_tied,
    lemma_component_restriction, lemma_keeps_untied, rank_below,
};
use crate::graph::{
    active_coordinates, connected, coordinate_link, is_walk, joins, lemma_connected_refl,
    lemma_connected_step, lemma_connected_symmetric, mask_within, row_coordinate, count_true_spec,
};
use crate::graph::dfs::{deletion_crosses, unit_not_bridge, worker_not_cut};
use crate::graph::whole::all_rows;
use crate::graph::{active_deletions, distinct_firms, worker_mass};
use crate::error::ErrorCode;
use crate::problem::CanonicalInput;

verus! {

/// `k` keeps the rows of `a` in its top-ranked component.
pub open spec fn keeps_top(input: &CanonicalInput, a: Seq<bool>, k: Seq<bool>) -> bool {
    exists|w: int| keeps_largest_component(input, a, k, w)
}

/// The rows of `a` that its largest component keeps.
pub open spec fn largest_keep(input: &CanonicalInput, a: Seq<bool>) -> Seq<bool> {
    choose|k: Seq<bool>| #[trigger] keeps_top(input, a, k)
}

/// The largest component is unique: any mask that keeps it is `largest_keep`.
pub proof fn lemma_largest_keep(input: &CanonicalInput, a: Seq<bool>, k: Seq<bool>, w: int)
    requires
        keeps_largest_component(input, a, k, w),
    ensures
        largest_keep(input, a) == k,
{
    assert(keeps_top(input, a, k));
    let k2 = largest_keep(input, a);
    assert(keeps_top(input, a, k2));
    let w2 = choose|w2: int| keeps_largest_component(input, a, k2, w2);
    if w2 != w {
        assert(is_leader(input, a, w2));
        assert(is_leader(input, a, w));
        assert(rank_below(component_rank(input, a, w2), component_rank(input, a, w)));
        assert(rank_below(component_rank(input, a, w), component_rank(input, a, w2)));
    }
    assert(k2 =~= k);
}

/// A link among fewer active rows is a link among more.
pub proof fn lemma_link_within(input: &CanonicalInput, small: Seq<bool>, large: Seq<bool>, u: int, v: int)
    requires
        mask_within(small, large),
        coordinate_link(input, small, u, v),
    ensures
        coordinate_link(input, large, u, v),
{
    let c = choose|c: (u32, u32)|
        active_coordinates(input, small).contains(c) && #[trigger] joins(c, input.spec_workers() as int, u, v);
    let r = choose|r: int| 0 <= r < small.len() && small[r] && #[trigger] row_coordinate(input, r) == c;
    assert(large[r]);
    assert(active_coordinates(input, large).contains(c));
}

/// Connected among fewer active rows means connected among more.
pub proof fn lemma_connected_within(input: &CanonicalInput, small: Seq<bool>, large: Seq<bool>, u: int, v: int)
    requires
        mask_within(small, large),
        connected(input, small, u, v),
    ensures
        connected(input, large, u, v),
{
    let p = choose|p: Seq<int>| #[trigger] is_walk(input, small, p) && p[0] == u && p.last() == v;
    assert forall|i: int| 0 <= i < p.len() - 1 implies coordinate_link(input, large, #[trigger] p[i], p[i + 1]) by {
        lemma_link_within(input, small, large, p[i], p[i + 1]);
    }
    assert(is_walk(input, large, p));
}

/// The rows a largest component keeps form one component, which is its own
/// largest component.
pub proof fn lemma_keep_idempotent(input: &CanonicalInput, a: Seq<bool>, k: Seq<bool>, w: int)
    requires
        input.wf(),
        a.len() == input.spec_worker().len(),
        keeps_largest_component(input, a, k, w),
    ensures
        keeps_largest_component(input, k, k, w),
        largest_keep(input, k) == k,
        !largest_component_tied(input, k),
        mask_within(k, a),
        exists|r: int| 0 <= r < k.len() && #[trigger] k[r],
{
    let wk = input.spec_workers() as int;
    assert(mask_within(k, a));
    // The leader keeps a link inside its own component.
    let u = choose|u: int| #[trigger] coordinate_link(input, a, w, u);
    let c = choose|c: (u32, u32)| active_coordinates(input, a).contains(c) && #[trigger] joins(c, wk, w, u);
    let r = choose|r: int| 0 <= r < a.len() && a[r] && #[trigger] row_coordinate(input, r) == c;
    let wr = input.spec_worker()[r] as int;
    lemma_connected_refl(input, a, w);
    if wr != w {
        assert(coordinate_link(input, a, w, u));
        assert(wr == u);
        lemma_connected_step(input, a, w, w, u);
    }
    assert(k[r]);
    assert(active_coordinates(input, k).contains(c));
    assert(coordinate_link(input, k, w, u));
    assert(has_link(input, k, w));
    assert forall|x: int| 0 <= x < w implies !#[trigger] connected(input, k, x, w) by {
        if connected(input, k, x, w) {
            lemma_connected_within(input, k, a, x, w);
        }
    }
    assert(is_leader(input, k, w));
    assert forall|q: int| 0 <= q < k.len() implies #[trigger] k[q] == (k[q] && connected(
        input,
        k,
        w,
        input.spec_worker()[q] as int,
    )) by {
        if k[q] {
            lemma_component_restriction(input, a, k, w, q);
        }
    }
    assert forall|v: int| #[trigger] is_leader(input, k, v) && v != w implies rank_below(
        component_rank(input, k, v),
        component_rank(input, k, w),
    ) by {
        let y = choose|y: int| #[trigger] coordinate_link(input, k, v, y);
        let cy = choose|cy: (u32, u32)| active_coordinates(input, k).contains(cy) && #[trigger] joins(cy, wk, v, y);
        let ry = choose|ry: int| 0 <= ry < k.len() && k[ry] && #[trigger] row_coordinate(input, ry) == cy;
        let wy = input.spec_worker()[ry] as int;
        lemma_component_restriction(input, a, k, w, ry);
        if wy != v {
            assert(wy == y);
            crate::graph::lemma_link_symmetric(input, k, v, y);
            lemma_connected_step(input, k, w, y, v);
        }
        assert(connected(input, k, w, v));
        if w < v {
            assert(!connected(input, k, w, v));
        } else {
            lemma_connected_symmetric(input, k, w, v);
            assert(!connected(input, k, v, w));
        }
    }
    assert(keeps_largest_component(input, k, k, w));
    lemma_largest_keep(input, k, k, w);
    lemma_keeps_untied(input, k, k, w);
}

/// A unit that spans two coordinates among fewer rows spans them among more.
pub proof fn lemma_crosses_within(input: &CanonicalInput, small: Seq<bool>, large: Seq<bool>)
    requires
        mask_within(small, large),
        deletion_crosses(input, small),
    ensures
        deletion_crosses(input, large),
{
    let (p, q) = choose|p: int, q: int|
        #![trigger row_coordinate(input, p), row_coordinate(input, q)]
        0 <= p < small.len() && 0 <= q < small.len() && small[p] && small[q]
            && input.spec_deletion()[p] == input.spec_deletion()[q] && row_coordinate(input, p)
            != row_coordinate(input, q);
    assert(large[p] && large[q]);
}

/// Distinct active deletion units are no more than the rows.
pub proof fn lemma_units_bound(input: &CanonicalInput, a: Seq<bool>, units: Seq<u32>)
    requires
        forall|i: int, j: int| 0 <= i < j < units.len() ==> #[trigger] units[i] < #[trigger] units[j],
        forall|i: int| 0 <= i < units.len() ==> active_deletions(input, a).contains(#[trigger] units[i]),
    ensures
        units.len() <= a.len(),
{
    let pos = Seq::new(units.len(), |i: int| choose|r: int|
        0 <= r < a.len() && a[r] && #[trigger] input.spec_deletion()[r] == units[i]);
    assert forall|i: int| 0 <= i < units.len() implies 0 <= #[trigger] pos[i] < a.len()
        && input.spec_deletion()[pos[i]] == units[i] by {
        assert(active_deletions(input, a).contains(units[i]));
    }
    assert forall|i: int, j: int| 0 <= i < j < units.len() implies #[trigger] pos[i] != #[trigger] pos[j] by {
        assert(input.spec_deletion()[pos[i]] == units[i]);
        assert(input.spec_deletion()[pos[j]] == units[j]);
    }
    crate::sort::lemma_injective_bound(pos, units.len() as int, a.len() as int);
}

/// A receipt counter that grows by at most one worker-plus-row count per
/// round stays within that count per round, and cannot overflow while the
/// rounds stay within workers plus rows plus two.
pub proof fn lemma_counter_room(old: int, inc: int, it: int, input: &CanonicalInput)
    requires
        0 <= old <= it * (input.spec_workers() + input.spec_worker().len()),
        0 <= inc <= input.spec_workers() + input.spec_worker().len(),
        0 <= it,
    ensures
        old + inc <= (it + 1) * (input.spec_workers() + input.spec_worker().len()),
        it + 1 <= input.spec_workers() + input.spec_worker().len() + 2 && crate::graph::counters_fit(input)
            ==> old + inc < u64::MAX,
{
    let m = input.spec_workers() + input.spec_worker().len();
    let cap = m + 2;
    reveal(crate::graph::counters_fit);
    assert((it + 1) * m == it * m + m) by (nonlinear_arith);
    if it + 1 <= cap {
        assert((it + 1) * m <= cap * m) by (nonlinear_arith)
            requires
                it + 1 <= cap,
                0 <= m,
        ;
    }
}

/// Within the counter limit, the round counters themselves cannot overflow.
pub proof fn lemma_rounds_fit(input: &CanonicalInput)
    requires
        crate::graph::counters_fit(input),
        input.spec_worker().len() > 0,
    ensures
        input.spec_workers() + input.spec_worker().len() + 2 < u64::MAX,
{
    reveal(crate::graph::counters_fit);
    let m = input.spec_workers() + input.spec_worker().len();
    assert((m + 2) * 1 <= (m + 2) * m) by (nonlinear_arith)
        requires
            m >= 1,
    ;
}

/// Some worker of `a` is observed at exactly one firm.
pub open spec fn has_single_firm_worker(input: &CanonicalInput, a: Seq<bool>) -> bool {
    exists|w: int| 0 <= w < input.spec_workers() && #[trigger] distinct_firms(input, a, w) == 1
}

/// Some worker is a cut vertex of `a`.
pub open spec fn has_cut_worker(input: &CanonicalInput, a: Seq<bool>) -> bool {
    exists|w: int| 0 <= w < input.spec_workers() && !#[trigger] worker_not_cut(input, a, w)
}

/// Some active deletion unit of `a` is a bridge.
pub open spec fn has_bridge_unit(input: &CanonicalInput, a: Seq<bool>) -> bool {
    exists|d: u32| active_deletions(input, a).contains(d) && !#[trigger] unit_not_bridge(input, a, d)
}

/// Nothing is left to prune.
pub open spec fn match_settled(input: &CanonicalInput, k: Seq<bool>) -> bool {
    &&& !has_single_firm_worker(input, k)
    &&& !has_cut_worker(input, k)
    &&& !has_bridge_unit(input, k)
}

/// One pruning step: single-firm workers first, then cut workers, then bridge units.
pub open spec fn match_prune(input: &CanonicalInput, k: Seq<bool>) -> Seq<bool> {
    if has_single_firm_worker(input, k) {
        Seq::new(k.len(), |q: int| k[q] && distinct_firms(input, k, input.spec_worker()[q] as int) != 1)
    } else if has_cut_worker(input, k) {
        Seq::new(k.len(), |q: int| k[q] && worker_not_cut(input, k, input.spec_worker()[q] as int))
    } else {
        Seq::new(k.len(), |q: int| k[q] && unit_not_bridge(input, k, input.spec_deletion()[q]))
    }
}

/// Keeps the largest component and prunes, at most `fuel` times, until settled.
#[verifier::opaque]
pub open spec fn match_iterate(input: &CanonicalInput, a: Seq<bool>, fuel: nat) -> Seq<bool>
    decreases fuel,
{
    let k = largest_keep(input, a);
    if fuel == 0 || match_settled(input, k) {
        k
    } else {
        match_iterate(input, match_prune(input, k), (fuel - 1) as nat)
    }
}

/// One round of the iteration, unfolded.
pub proof fn lemma_iterate_step(input: &CanonicalInput, a: Seq<bool>, fuel: nat)
    requires
        fuel >= 1,
    ensures
        ({
            let k = largest_keep(input, a);
            &&& match_settled(input, k) ==> match_iterate(input, a, fuel) == k
            &&& match_settled(input, k) ==> match_rounds(input, a, fuel) == 0
            &&& match_settled(input, k) ==> match_tally(input, a, fuel) == (0int, 0int, 0int, 0int, 0int, 0int, 0int)
            &&& !match_settled(input, k) ==> match_iterate(input, a, fuel) == match_iterate(
                input,
                match_prune(input, k),
                (fuel - 1) as nat,
            )
            &&& !match_settled(input, k) ==> match_rounds(input, a, fuel) == 1 + match_rounds(
                input,
                match_prune(input, k),
                (fuel - 1) as nat,
            )
            &&& !match_settled(input, k) ==> match_tally(input, a, fuel) == tally_plus(
                match_step_tally(input, k),
                match_tally(input, match_prune(input, k), (fuel - 1) as nat),
            )
            &&& match_no_tie(input, a, fuel) ==> !largest_component_tied(input, a)
            &&& match_no_tie(input, a, fuel) && !match_settled(input, k) ==> match_no_tie(
                input,
                match_prune(input, k),
                (fuel - 1) as nat,
            )
            &&& match_no_empty(input, a, fuel) ==> count_true_spec(a) > 0
            &&& match_no_empty(input, a, fuel) && !match_settled(input, k) ==> match_no_empty(
                input,
                match_prune(input, k),
                (fuel - 1) as nat,
            )
        }),
{
    reveal(match_iterate);
    reveal(match_rounds);
    reveal(match_tally);
    reveal(match_no_tie);
    reveal(match_no_empty);
}

/// Removing the flagged single-firm workers is the first pruning step.
pub proof fn lemma_single_prune(input: &CanonicalInput, k: Seq<bool>, flags: Seq<bool>, next: Seq<bool>)
    requires
        input.wf(),
        k.len() == input.spec_worker().len(),
        flags.len() == input.spec_workers(),
        forall|w: int| 0 <= w < input.spec_workers() ==> #[trigger] flags[w] == (distinct_firms(input, k, w) == 1),
        has_single_firm_worker(input, k),
        next == Seq::new(k.len(), |q: int| k[q] && !flags[input.spec_worker()[q] as int]),
    ensures
        next == match_prune(input, k),
{
    assert forall|q: int| 0 <= q < k.len() implies #[trigger] next[q] == match_prune(input, k)[q] by {
        let _ = flags[input.spec_worker()[q] as int];
    }
    assert(next =~= match_prune(input, k));
}

/// Removing the flagged cut workers is the pruning step when no worker is at a single firm.
pub proof fn lemma_cut_prune(input: &CanonicalInput, k: Seq<bool>, flags: Seq<bool>, next: Seq<bool>)
    requires
        input.wf(),
        k.len() == input.spec_worker().len(),
        flags.len() == input.spec_workers(),
        forall|w: int| 0 <= w < input.spec_workers() ==> (#[trigger] flags[w] <==> !worker_not_cut(input, k, w)),
        !has_single_firm_worker(input, k),
        has_cut_worker(input, k),
        next == Seq::new(k.len(), |q: int| k[q] && !flags[input.spec_worker()[q] as int]),
    ensures
        next == match_prune(input, k),
{
    assert forall|q: int| 0 <= q < k.len() implies #[trigger] next[q] == match_prune(input, k)[q] by {
        let _ = flags[input.spec_worker()[q] as int];
    }
    assert(next =~= match_prune(input, k));
}

/// Removing the bridge units is the pruning step when no worker is at a
/// single firm and none is a cut vertex.
pub proof fn lemma_bridge_prune(
    input: &CanonicalInput,
    k: Seq<bool>,
    bridges: Seq<u32>,
    set: Set<u32>,
    next: Seq<bool>,
)
    requires
        k.len() == input.spec_worker().len(),
        !has_single_firm_worker(input, k),
        !has_cut_worker(input, k),
        bridges.len() > 0,
        forall|i: int| 0 <= i < bridges.len() ==> active_deletions(input, k).contains(#[trigger] bridges[i]),
        forall|d: u32|
            active_deletions(input, k).contains(d) ==> (bridges.contains(d) <==> !#[trigger] unit_not_bridge(
                input,
                k,
                d,
            )),
        set == bridges.to_set(),
        next == Seq::new(k.len(), |q: int| k[q] && !set.contains(input.spec_deletion()[q])),
    ensures
        has_bridge_unit(input, k),
        next == match_prune(input, k),
{
    let d0 = bridges[0];
    assert(bridges.contains(d0));
    assert(!unit_not_bridge(input, k, d0));
    assert forall|q: int| 0 <= q < k.len() implies #[trigger] next[q] == match_prune(input, k)[q] by {
        if k[q] {
            let d = input.spec_deletion()[q];
            assert(active_deletions(input, k).contains(d));
            assert(set.contains(d) <==> bridges.contains(d));
        }
    }
    assert(next =~= match_prune(input, k));
}

/// The number of pruning rounds the iteration runs before it settles.
#[verifier::opaque]
pub open spec fn match_rounds(input: &CanonicalInput, a: Seq<bool>, fuel: nat) -> nat
    decreases fuel,
{
    let k = largest_keep(input, a);
    if fuel == 0 || match_settled(input, k) {
        0
    } else {
        1 + match_rounds(input, match_prune(input, k), (fuel - 1) as nat)
    }
}

/// No round of the match iteration meets a tie at the top.
#[verifier::opaque]
pub open spec fn match_no_tie(input: &CanonicalInput, a: Seq<bool>, fuel: nat) -> bool
    decreases fuel,
{
    let k = largest_keep(input, a);
    &&& !largest_component_tied(input, a)
    &&& (fuel == 0 || match_settled(input, k) || match_no_tie(input, match_prune(input, k), (fuel - 1) as nat))
}

/// Every round of the match iteration starts from a nonempty sample.
#[verifier::opaque]
pub open spec fn match_no_empty(input: &CanonicalInput, a: Seq<bool>, fuel: nat) -> bool
    decreases fuel,
{
    let k = largest_keep(input, a);
    &&& count_true_spec(a) > 0
    &&& (fuel == 0 || match_settled(input, k) || match_no_empty(input, match_prune(input, k), (fuel - 1) as nat))
}

/// Workers of `k` observed at exactly one firm, as flags over all workers.
pub open spec fn single_firm_workers(input: &CanonicalInput, k: Seq<bool>) -> Seq<bool> {
    Seq::new(input.spec_workers() as nat, |w: int| distinct_firms(input, k, w) == 1)
}

/// Workers that are cut vertices of `k`, as flags over all workers.
pub open spec fn cut_workers(input: &CanonicalInput, k: Seq<bool>) -> Seq<bool> {
    Seq::new(input.spec_workers() as nat, |w: int| !worker_not_cut(input, k, w))
}

/// Workers of `k` with exactly one physical observation, as flags over all workers.
pub open spec fn singleton_workers(input: &CanonicalInput, k: Seq<bool>) -> Seq<bool> {
    Seq::new(input.spec_workers() as nat, |w: int| worker_mass(input, k, w) == 1)
}

/// The active deletion units of `k` that are bridges.
pub open spec fn bridge_units(input: &CanonicalInput, k: Seq<bool>) -> Set<u32> {
    active_deletions(input, k).filter(|d: u32| !unit_not_bridge(input, k, d))
}

/// The active rows of `k` whose deletion unit is a bridge.
pub open spec fn bridge_unit_rows(input: &CanonicalInput, k: Seq<bool>) -> Seq<bool> {
    Seq::new(k.len(), |q: int| k[q] && !unit_not_bridge(input, k, input.spec_deletion()[q]))
}

/// Two tallies added field by field.
pub open spec fn tally_plus(
    x: (int, int, int, int, int, int, int),
    y: (int, int, int, int, int, int, int),
) -> (int, int, int, int, int, int, int) {
    (x.0 + y.0, x.1 + y.1, x.2 + y.2, x.3 + y.3, x.4 + y.4, x.5 + y.5, x.6 + y.6)
}

/// Two observation tallies added field by field.
pub open spec fn tally4_plus(x: (int, int, int, int), y: (int, int, int, int)) -> (int, int, int, int) {
    (x.0 + y.0, x.1 + y.1, x.2 + y.2, x.3 + y.3)
}

/// What one match pruning round of `k` removes.
pub open spec fn match_step_tally(input: &CanonicalInput, k: Seq<bool>) -> (int, int, int, int, int, int, int) {
    if has_single_firm_worker(input, k) {
        (1, 0, 0, count_true_spec(single_firm_workers(input, k)), 0, 0, 0)
    } else if has_cut_worker(input, k) {
        (0, 1, 0, 0, count_true_spec(cut_workers(input, k)), 0, 0)
    } else {
        (0, 0, 1, 0, 0, bridge_units(input, k).len() as int, count_true_spec(bridge_unit_rows(input, k)))
    }
}

/// What one observation pruning round of `k` removes.
pub open spec fn observation_step_tally(input: &CanonicalInput, k: Seq<bool>) -> (int, int, int, int) {
    if has_singleton_worker(input, k) {
        (1, 0, count_true_spec(singleton_workers(input, k)), 0)
    } else {
        (0, 1, 0, count_true_spec(cut_workers(input, k)))
    }
}

/// What the match iteration removes, round by round: the numbers of degree,
/// articulation and bridge rounds, of workers removed at a single firm, of
/// workers removed as cut vertices, and of bridge units and their rows.
#[verifier::opaque]
pub open spec fn match_tally(input: &CanonicalInput, a: Seq<bool>, fuel: nat) -> (int, int, int, int, int, int, int)
    decreases fuel,
{
    let k = largest_keep(input, a);
    if fuel == 0 || match_settled(input, k) {
        (0, 0, 0, 0, 0, 0, 0)
    } else {
        tally_plus(match_step_tally(input, k), match_tally(input, match_prune(input, k), (fuel - 1) as nat))
    }
}

/// The bridge flags of the exact search count the bridge units of `k`, and
/// the rows their set catches are the bridge-unit rows of `k`.
pub proof fn lemma_bridge_tally(input: &CanonicalInput, k: Seq<bool>, bridges: Seq<u32>, set: Set<u32>)
    requires
        forall|i: int, j: int| 0 <= i < j < bridges.len() ==> #[trigger] bridges[i] < #[trigger] bridges[j],
        forall|i: int| 0 <= i < bridges.len() ==> active_deletions(input, k).contains(#[trigger] bridges[i]),
        forall|d: u32|
            active_deletions(input, k).contains(d) ==> (bridges.contains(d) <==> !#[trigger] unit_not_bridge(
                input,
                k,
                d,
            )),
        set == bridges.to_set(),
    ensures
        bridges.len() == bridge_units(input, k).len(),
        Seq::new(k.len(), |q: int| k[q] && set.contains(input.spec_deletion()[q])) == bridge_unit_rows(input, k),
{
    assert(bridges.no_duplicates()) by {
        assert forall|i: int, j: int| 0 <= i < bridges.len() && 0 <= j < bridges.len() && i != j
            implies bridges[i] != bridges[j] by {
            if i < j {
                assert(bridges[i] < bridges[j]);
            } else {
                assert(bridges[j] < bridges[i]);
            }
        }
    }
    bridges.unique_seq_to_set();
    assert(bridges.to_set() =~= bridge_units(input, k)) by {
        assert forall|d: u32| bridges.to_set().contains(d) <==> bridge_units(input, k).contains(d) by {
            if bridges.contains(d) {
                let i = choose|i: int| 0 <= i < bridges.len() && bridges[i] == d;
                assert(active_deletions(input, k).contains(bridges[i]));
            }
        }
    }
    let caught = Seq::new(k.len(), |q: int| k[q] && set.contains(input.spec_deletion()[q]));
    assert forall|q: int| 0 <= q < k.len() implies caught[q] == #[trigger] bridge_unit_rows(input, k)[q] by {
        if k[q] {
            let d = input.spec_deletion()[q];
            assert(active_deletions(input, k).contains(d));
        }
    }
    assert(caught =~= bridge_unit_rows(input, k));
}

/// One unsettled match round adds its own removals to what was counted before it.
pub proof fn lemma_match_tally_advance(
    input: &CanonicalInput,
    a: Seq<bool>,
    fuel: nat,
    counted: (int, int, int, int, int, int, int),
    total: (int, int, int, int, int, int, int),
)
    requires
        fuel >= 1,
        !match_settled(input, largest_keep(input, a)),
        tally_plus(counted, match_tally(input, a, fuel)) == total,
    ensures
        tally_plus(
            tally_plus(counted, match_step_tally(input, largest_keep(input, a))),
            match_tally(input, match_prune(input, largest_keep(input, a)), (fuel - 1) as nat),
        ) == total,
{
    lemma_iterate_step(input, a, fuel);
}

/// A single-firm round removes exactly the flagged workers.
pub proof fn lemma_degree_tally(input: &CanonicalInput, k: Seq<bool>, flags: Seq<bool>, removed: int)
    requires
        has_single_firm_worker(input, k),
        flags.len() == input.spec_workers(),
        forall|w: int| 0 <= w < input.spec_workers() ==> #[trigger] flags[w] == (distinct_firms(input, k, w) == 1),
        removed == count_true_spec(flags),
    ensures
        match_step_tally(input, k) == (1int, 0int, 0int, removed, 0int, 0int, 0int),
{
    assert(flags =~= single_firm_workers(input, k));
}

/// A cut-vertex round removes exactly the flagged workers.
pub proof fn lemma_cut_tally(input: &CanonicalInput, k: Seq<bool>, flags: Seq<bool>, removed: int)
    requires
        !has_single_firm_worker(input, k),
        has_cut_worker(input, k),
        flags.len() == input.spec_workers(),
        forall|w: int| 0 <= w < input.spec_workers() ==> (#[trigger] flags[w] <==> !worker_not_cut(input, k, w)),
        removed == count_true_spec(flags),
    ensures
        match_step_tally(input, k) == (0int, 1int, 0int, 0int, removed, 0int, 0int),
{
    assert(flags =~= cut_workers(input, k));
}

/// A bridge round removes exactly the bridge units found and the rows they hold.
pub proof fn lemma_bridge_step_tally(
    input: &CanonicalInput,
    k: Seq<bool>,
    bridges: Seq<u32>,
    set: Set<u32>,
    rows_removed: int,
)
    requires
        !has_single_firm_worker(input, k),
        !has_cut_worker(input, k),
        forall|i: int, j: int| 0 <= i < j < bridges.len() ==> #[trigger] bridges[i] < #[trigger] bridges[j],
        forall|i: int| 0 <= i < bridges.len() ==> active_deletions(input, k).contains(#[trigger] bridges[i]),
        forall|d: u32|
            active_deletions(input, k).contains(d) ==> (bridges.contains(d) <==> !#[trigger] unit_not_bridge(
                input,
                k,
                d,
            )),
        set == bridges.to_set(),
        rows_removed == count_true_spec(Seq::new(k.len(), |q: int| k[q] && set.contains(input.spec_deletion()[q]))),
    ensures
        match_step_tally(input, k) == (0int, 0int, 1int, 0int, 0int, bridges.len() as int, rows_removed),
{
    lemma_bridge_tally(input, k, bridges, set);
}

/// What the observation iteration removes: the numbers of singleton and
/// articulation rounds, and of workers removed in each.
#[verifier::opaque]
pub open spec fn observation_tally(input: &CanonicalInput, a: Seq<bool>, fuel: nat) -> (int, int, int, int)
    decreases fuel,
{
    let k = largest_keep(input, a);
    if fuel == 0 || observation_settled(input, k) {
        (0, 0, 0, 0)
    } else {
        tally4_plus(
            observation_step_tally(input, k),
            observation_tally(input, observation_prune(input, k), (fuel - 1) as nat),
        )
    }
}

/// The rows of `c` whose worker is observed at two or more firms.
pub open spec fn mover_rows(input: &CanonicalInput, c: Seq<bool>) -> Seq<bool> {
    Seq::new(c.len(), |q: int| c[q] && distinct_firms(input, c, input.spec_worker()[q] as int) > 1)
}

/// The largest component of the movers of the largest component of the sample.
pub open spec fn match_start(input: &CanonicalInput) -> Seq<bool> {
    largest_keep(input, mover_rows(input, largest_keep(input, all_rows(input))))
}

/// The bound on pruning rounds: one per worker and per deletion unit, plus one.
pub open spec fn match_bound(input: &CanonicalInput) -> int {
    input.spec_workers() + active_deletions(input, match_start(input)).len() + 1
}

/// No largest component the match selection asks for is tied: not the
/// sample's, not its movers', not any round's.
#[verifier::opaque]
pub open spec fn match_untied(input: &CanonicalInput) -> bool {
    let whole = all_rows(input);
    &&& !largest_component_tied(input, whole)
    &&& !largest_component_tied(input, mover_rows(input, largest_keep(input, whole)))
    &&& match_no_tie(input, match_start(input), (match_bound(input) + 1) as nat)
}

/// The sample, its movers and every round's sample are nonempty.
#[verifier::opaque]
pub open spec fn match_nonempty(input: &CanonicalInput) -> bool {
    let whole = all_rows(input);
    &&& input.spec_worker().len() > 0
    &&& count_true_spec(mover_rows(input, largest_keep(input, whole))) > 0
    &&& match_no_empty(input, match_start(input), (match_bound(input) + 1) as nat)
}

/// Pruning settles within the bound on rounds.
#[verifier::opaque]
pub open spec fn match_settles(input: &CanonicalInput) -> bool {
    match_rounds(input, match_start(input), (match_bound(input) + 1) as nat) <= match_bound(input)
}

/// The match selection meets no obstacle of its own: no tie, no empty round,
/// pruning settles within its bound, and no deletion unit spans two coordinates.
pub open spec fn match_proceeds(input: &CanonicalInput) -> bool {
    &&& match_untied(input)
    &&& match_nonempty(input)
    &&& match_settles(input)
    &&& !deletion_crosses(input, all_rows(input))
}

/// The error a match selection refuses with names its cause.
pub open spec fn match_refusal(input: &CanonicalInput, code: ErrorCode) -> bool {
    ||| code == ErrorCode::GraphUnidentified && !match_untied(input)
    ||| code == ErrorCode::GraphEmpty && !match_nonempty(input)
    ||| code == ErrorCode::GraphCertificateFailed && !match_settles(input)
    ||| code == ErrorCode::InternalInvariant && deletion_crosses(input, all_rows(input))
}

/// `k` is what its own largest component keeps, and nothing in it is left
/// to prune.
pub open spec fn match_stable(input: &CanonicalInput, k: Seq<bool>) -> bool {
    &&& match_settled(input, k)
    &&& exists|a0: Seq<bool>, w: int|
        a0.len() == input.spec_worker().len() && #[trigger] keeps_largest_component(input, a0, k, w)
}

/// Selecting again changes nothing: stable rows are their own movers, their
/// own start and their own fixed point, reached in no round.
pub proof fn lemma_match_rerun(input: &CanonicalInput, k: Seq<bool>, fuel: nat)
    requires
        input.wf(),
        match_stable(input, k),
        fuel >= 1,
    ensures
        largest_keep(input, k) == k,
        mover_rows(input, k) == k,
        largest_keep(input, mover_rows(input, largest_keep(input, k))) == k,
        match_iterate(input, k, fuel) == k,
        match_rounds(input, k, fuel) == 0,
{
    let (a0, w) = choose|a0: Seq<bool>, w: int|
        a0.len() == input.spec_worker().len() && #[trigger] keeps_largest_component(input, a0, k, w);
    lemma_keep_idempotent(input, a0, k, w);
    reveal(match_iterate);
    reveal(match_rounds);
    assert forall|q: int| 0 <= q < k.len() implies #[trigger] mover_rows(input, k)[q] == k[q] by {
        if k[q] {
            let v = input.spec_worker()[q] as int;
            crate::graph::lemma_distinct_firms_positive(input, k, q);
            assert(distinct_firms(input, k, v) != 1);
        }
    }
    assert(mover_rows(input, k) =~= k);
}

/// The rows that the match-deletion selection keeps.
pub open spec fn match_fixed_point(input: &CanonicalInput) -> Seq<bool> {
    largest_keep(input, match_iterate(input, match_start(input), (match_bound(input) + 1) as nat))
}

/// Some worker of `a` carries exactly one physical observation.
pub open spec fn has_singleton_worker(input: &CanonicalInput, a: Seq<bool>) -> bool {
    exists|w: int| 0 <= w < input.spec_workers() && #[trigger] worker_mass(input, a, w) == 1
}

/// Nothing is left to prune in the observation-deletion sample.
pub open spec fn observation_settled(input: &CanonicalInput, k: Seq<bool>) -> bool {
    &&& !has_singleton_worker(input, k)
    &&& !has_cut_worker(input, k)
}

/// One observation-deletion pruning step: physical singletons first, then cut workers.
pub open spec fn observation_prune(input: &CanonicalInput, k: Seq<bool>) -> Seq<bool> {
    if has_singleton_worker(input, k) {
        Seq::new(k.len(), |q: int| k[q] && worker_mass(input, k, input.spec_worker()[q] as int) != 1)
    } else {
        Seq::new(k.len(), |q: int| k[q] && worker_not_cut(input, k, input.spec_worker()[q] as int))
    }
}

/// Keeps the largest component and prunes, at most `fuel` times, until settled.
#[verifier::opaque]
pub open spec fn observation_iterate(input: &CanonicalInput, a: Seq<bool>, fuel: nat) -> Seq<bool>
    decreases fuel,
{
    let k = largest_keep(input, a);
    if fuel == 0 || observation_settled(input, k) {
        k
    } else {
        observation_iterate(input, observation_prune(input, k), (fuel - 1) as nat)
    }
}

/// The number of observation pruning rounds before the iteration settles.
#[verifier::opaque]
pub open spec fn observation_rounds(input: &CanonicalInput, a: Seq<bool>, fuel: nat) -> nat
    decreases fuel,
{
    let k = largest_keep(input, a);
    if fuel == 0 || observation_settled(input, k) {
        0
    } else {
        1 + observation_rounds(input, observation_prune(input, k), (fuel - 1) as nat)
    }
}

/// No round of the observation iteration meets a tie at the top.
#[verifier::opaque]
pub open spec fn observation_no_tie(input: &CanonicalInput, a: Seq<bool>, fuel: nat) -> bool
    decreases fuel,
{
    let k = largest_keep(input, a);
    &&& !largest_component_tied(input, a)
    &&& (fuel == 0 || observation_settled(input, k) || observation_no_tie(
        input,
        observation_prune(input, k),
        (fuel - 1) as nat,
    ))
}

/// Every round of the observation iteration starts from a nonempty sample.
#[verifier::opaque]
pub open spec fn observation_no_empty(input: &CanonicalInput, a: Seq<bool>, fuel: nat) -> bool
    decreases fuel,
{
    let k = largest_keep(input, a);
    &&& count_true_spec(a) > 0
    &&& (fuel == 0 || observation_settled(input, k) || observation_no_empty(
        input,
        observation_prune(input, k),
        (fuel - 1) as nat,
    ))
}

/// No largest component the observation selection asks for is tied.
#[verifier::opaque]
pub open spec fn observation_untied(input: &CanonicalInput) -> bool {
    &&& !largest_component_tied(input, all_rows(input))
    &&& observation_no_tie(input, largest_keep(input, all_rows(input)), (input.spec_workers() + 2) as nat)
}

/// The sample and every round's sample are nonempty.
#[verifier::opaque]
pub open spec fn observation_nonempty(input: &CanonicalInput) -> bool {
    &&& input.spec_worker().len() > 0
    &&& observation_no_empty(input, largest_keep(input, all_rows(input)), (input.spec_workers() + 2) as nat)
}

/// Pruning settles within one round per worker plus one.
#[verifier::opaque]
pub open spec fn observation_settles(input: &CanonicalInput) -> bool {
    observation_rounds(input, largest_keep(input, all_rows(input)), (input.spec_workers() + 2) as nat)
        <= input.spec_workers() + 1
}

/// The observation selection meets no obstacle of its own.
pub open spec fn observation_proceeds(input: &CanonicalInput) -> bool {
    &&& observation_untied(input)
    &&& observation_nonempty(input)
    &&& observation_settles(input)
}

/// The error an observation selection refuses with names its cause.
pub open spec fn observation_refusal(input: &CanonicalInput, code: ErrorCode) -> bool {
    ||| code == ErrorCode::GraphUnidentified && !observation_untied(input)
    ||| code == ErrorCode::GraphEmpty && !observation_nonempty(input)
    ||| code == ErrorCode::GraphCertificateFailed && !observation_settles(input)
}

/// `k` is what its own largest component keeps, and nothing in it is left
/// to prune for observation deletion.
pub open spec fn observation_stable(input: &CanonicalInput, k: Seq<bool>) -> bool {
    &&& observation_settled(input, k)
    &&& exists|a0: Seq<bool>, w: int|
        a0.len() == input.spec_worker().len() && #[trigger] keeps_largest_component(input, a0, k, w)
}

/// Selecting again changes nothing: stable rows are their own largest
/// component and their own observation fixed point, reached in no round.
pub proof fn lemma_observation_rerun(input: &CanonicalInput, k: Seq<bool>, fuel: nat)
    requires
        input.wf(),
        observation_stable(input, k),
        fuel >= 1,
    ensures
        largest_keep(input, k) == k,
        observation_iterate(input, k, fuel) == k,
        observation_rounds(input, k, fuel) == 0,
{
    let (a0, w) = choose|a0: Seq<bool>, w: int|
        a0.len() == input.spec_worker().len() && #[trigger] keeps_largest_component(input, a0, k, w);
    lemma_keep_idempotent(input, a0, k, w);
    reveal(observation_iterate);
    reveal(observation_rounds);
}

/// The rows that the observation-deletion selection keeps: pruning starts
/// from the largest component of the sample, stayers included, and runs at
/// most one round per worker plus one.
pub open spec fn observation_fixed_point(input: &CanonicalInput) -> Seq<bool> {
    largest_keep(
        input,
        observation_iterate(
            input,
            largest_keep(input, all_rows(input)),
            (input.spec_workers() + 2) as nat,
        ),
    )
}

/// One observation round, unfolded.
pub proof fn lemma_observation_step(input: &CanonicalInput, a: Seq<bool>, fuel: nat)
    requires
        fuel >= 1,
    ensures
        ({
            let k = largest_keep(input, a);
            &&& observation_settled(input, k) ==> observation_iterate(input, a, fuel) == k
            &&& observation_settled(input, k) ==> observation_rounds(input, a, fuel) == 0
            &&& observation_settled(input, k) ==> observation_tally(input, a, fuel) == (0int, 0int, 0int, 0int)
            &&& !observation_settled(input, k) ==> observation_iterate(input, a, fuel) == observation_iterate(
                input,
                observation_prune(input, k),
                (fuel - 1) as nat,
            )
            &&& !observation_settled(input, k) ==> observation_rounds(input, a, fuel) == 1 + observation_rounds(
                input,
                observation_prune(input, k),
                (fuel - 1) as nat,
            )
            &&& !observation_settled(input, k) ==> observation_tally(input, a, fuel) == tally4_plus(
                observation_step_tally(input, k),
                observation_tally(input, observation_prune(input, k), (fuel - 1) as nat),
            )
            &&& observation_no_tie(input, a, fuel) ==> !largest_component_tied(input, a)
            &&& observation_no_tie(input, a, fuel) && !observation_settled(input, k) ==> observation_no_tie(
                input,
                observation_prune(input, k),
                (fuel - 1) as nat,
            )
            &&& observation_no_empty(input, a, fuel) ==> count_true_spec(a) > 0
            &&& observation_no_empty(input, a, fuel) && !observation_settled(input, k) ==> observation_no_empty(
                input,
                observation_prune(input, k),
                (fuel - 1) as nat,
            )
        }),
{
    reveal(observation_iterate);
    reveal(observation_rounds);
    reveal(observation_tally);
    reveal(observation_no_tie);
    reveal(observation_no_empty);
}

/// Removing the flagged physical singletons is the first observation pruning step.
pub proof fn lemma_singleton_prune(input: &CanonicalInput, k: Seq<bool>, flags: Seq<bool>, next: Seq<bool>)
    requires
        input.wf(),
        k.len() == input.spec_worker().len(),
        flags.len() == input.spec_workers(),
        forall|w: int| 0 <= w < input.spec_workers() ==> #[trigger] flags[w] == (worker_mass(input, k, w) == 1),
        has_singleton_worker(input, k),
        next == Seq::new(k.len(), |q: int| k[q] && !flags[input.spec_worker()[q] as int]),
    ensures
        next == observation_prune(input, k),
{
    assert forall|q: int| 0 <= q < k.len() implies #[trigger] next[q] == observation_prune(input, k)[q] by {
        let _ = flags[input.spec_worker()[q] as int];
    }
    assert(next =~= observation_prune(input, k));
}

/// Removing the flagged cut workers is the observation pruning step when no
/// physical singleton remains.
pub proof fn lemma_observation_cut_prune(input: &CanonicalInput, k: Seq<bool>, flags: Seq<bool>, next: Seq<bool>)
    requires
        input.wf(),
        k.len() == input.spec_worker().len(),
        flags.len() == input.spec_workers(),
        forall|w: int| 0 <= w < input.spec_workers() ==> (#[trigger] flags[w] <==> !worker_not_cut(input, k, w)),
        !has_singleton_worker(input, k),
        has_cut_worker(input, k),
        next == Seq::new(k.len(), |q: int| k[q] && !flags[input.spec_worker()[q] as int]),
    ensures
        next == observation_prune(input, k),
{
    assert forall|q: int| 0 <= q < k.len() implies #[trigger] next[q] == observation_prune(input, k)[q] by {
        let _ = flags[input.spec_worker()[q] as int];
    }
    assert(next =~= observation_prune(input, k));
}

/// The larger of two integers.
pub open spec fn larger(x: int, y: int) -> int {
    if x >= y {
        x
    } else {
        y
    }
}

/// The largest number of components among the samples the match iteration
/// starts its rounds from: `a`, then each pruned sample, until it settles.
#[verifier::opaque]
pub open spec fn match_max_components(input: &CanonicalInput, a: Seq<bool>, fuel: nat) -> int
    decreases fuel,
{
    let k = largest_keep(input, a);
    if fuel == 0 || match_settled(input, k) {
        component_count(input, a)
    } else {
        larger(component_count(input, a), match_max_components(input, match_prune(input, k), (fuel - 1) as nat))
    }
}

/// The largest number of components among the samples the observation
/// iteration starts its rounds from.
#[verifier::opaque]
pub open spec fn observation_max_components(input: &CanonicalInput, a: Seq<bool>, fuel: nat) -> int
    decreases fuel,
{
    let k = largest_keep(input, a);
    if fuel == 0 || observation_settled(input, k) {
        component_count(input, a)
    } else {
        larger(
            component_count(input, a),
            observation_max_components(input, observation_prune(input, k), (fuel - 1) as nat),
        )
    }
}

/// The sample that match round `j` starts from, when the iteration begins at `a`.
pub open spec fn match_round_sample(input: &CanonicalInput, a: Seq<bool>, j: nat) -> Seq<bool>
    decreases j,
{
    if j == 0 {
        a
    } else {
        match_round_sample(input, match_prune(input, largest_keep(input, a)), (j - 1) as nat)
    }
}

/// The sample that observation round `j` starts from, when the iteration begins at `a`.
pub open spec fn observation_round_sample(input: &CanonicalInput, a: Seq<bool>, j: nat) -> Seq<bool>
    decreases j,
{
    if j == 0 {
        a
    } else {
        observation_round_sample(input, observation_prune(input, largest_keep(input, a)), (j - 1) as nat)
    }
}

/// The match component maximum is the largest component count of the samples
/// that the rounds start from: none exceeds it, and one attains it.
pub proof fn lemma_match_max_components(input: &CanonicalInput, a: Seq<bool>, fuel: nat)
    ensures
        forall|j: nat| j <= match_rounds(input, a, fuel) ==> #[trigger] component_count(
            input,
            match_round_sample(input, a, j),
        ) <= match_max_components(input, a, fuel),
        exists|j: nat| j <= match_rounds(input, a, fuel) && #[trigger] component_count(
            input,
            match_round_sample(input, a, j),
        ) == match_max_components(input, a, fuel),
    decreases fuel,
{
    reveal(match_max_components);
    reveal(match_rounds);
    let k = largest_keep(input, a);
    assert(match_round_sample(input, a, 0) == a);
    if fuel == 0 || match_settled(input, k) {
        assert(component_count(input, match_round_sample(input, a, 0)) == match_max_components(input, a, fuel));
    } else {
        let next = match_prune(input, k);
        lemma_match_max_components(input, next, (fuel - 1) as nat);
        assert forall|j: nat| j <= match_rounds(input, a, fuel) implies #[trigger] component_count(
            input,
            match_round_sample(input, a, j),
        ) <= match_max_components(input, a, fuel) by {
            if j > 0 {
                assert(match_round_sample(input, a, j) == match_round_sample(input, next, (j - 1) as nat));
            }
        }
        if component_count(input, a) >= match_max_components(input, next, (fuel - 1) as nat) {
            assert(component_count(input, match_round_sample(input, a, 0)) == match_max_components(input, a, fuel));
        } else {
            let j0 = choose|j: nat| j <= match_rounds(input, next, (fuel - 1) as nat) && #[trigger] component_count(
                input,
                match_round_sample(input, next, j),
            ) == match_max_components(input, next, (fuel - 1) as nat);
            assert(match_round_sample(input, a, j0 + 1) == match_round_sample(input, next, j0));
            assert(component_count(input, match_round_sample(input, a, (j0 + 1) as nat)) == match_max_components(input, a, fuel));
        }
    }
}

/// The observation component maximum is the largest component count of the
/// samples that the rounds start from: none exceeds it, and one attains it.
pub proof fn lemma_observation_max_components(input: &CanonicalInput, a: Seq<bool>, fuel: nat)
    ensures
        forall|j: nat| j <= observation_rounds(input, a, fuel) ==> #[trigger] component_count(
            input,
            observation_round_sample(input, a, j),
        ) <= observation_max_components(input, a, fuel),
        exists|j: nat| j <= observation_rounds(input, a, fuel) && #[trigger] component_count(
            input,
            observation_round_sample(input, a, j),
        ) == observation_max_components(input, a, fuel),
    decreases fuel,
{
    reveal(observation_max_components);
    reveal(observation_rounds);
    let k = largest_keep(input, a);
    assert(observation_round_sample(input, a, 0) == a);
    if fuel == 0 || observation_settled(input, k) {
        assert(component_count(input, observation_round_sample(input, a, 0)) == observation_max_components(input, a, fuel));
    } else {
        let next = observation_prune(input, k);
        lemma_observation_max_components(input, next, (fuel - 1) as nat);
        assert forall|j: nat| j <= observation_rounds(input, a, fuel) implies #[trigger] component_count(
            input,
            observation_round_sample(input, a, j),
        ) <= observation_max_components(input, a, fuel) by {
            if j > 0 {
                assert(observation_round_sample(input, a, j) == observation_round_sample(input, next, (j - 1) as nat));
            }
        }
        if component_count(input, a) >= observation_max_components(input, next, (fuel - 1) as nat) {
            assert(component_count(input, observation_round_sample(input, a, 0)) == observation_max_components(input, a, fuel));
        } else {
            let j0 = choose|j: nat| j <= observation_rounds(input, next, (fuel - 1) as nat) && #[trigger] component_count(
                input,
                observation_round_sample(input, next, j),
            ) == observation_max_components(input, next, (fuel - 1) as nat);
            assert(observation_round_sample(input, a, j0 + 1) == observation_round_sample(input, next, j0));
            assert(component_count(input, observation_round_sample(input, a, (j0 + 1) as nat)) == observation_max_components(input, a, fuel));
        }
    }
}

/// What the match rounds counted so far, with what the rounds from `a` on will
/// count, makes up the totals `tally` and `most`.
#[verifier::opaque]
pub open spec fn match_ledger(
    input: &CanonicalInput,
    counted: (int, int, int, int, int, int, int),
    seen: int,
    a: Seq<bool>,
    fuel: nat,
    tally: (int, int, int, int, int, int, int),
    most: int,
) -> bool {
    &&& tally_plus(counted, match_tally(input, a, fuel)) == tally
    &&& larger(seen, match_max_components(input, a, fuel)) == most
}

/// Before the first round nothing is counted but what was seen.
pub proof fn lemma_match_ledger_start(input: &CanonicalInput, seen: int, a: Seq<bool>, fuel: nat)
    ensures
        match_ledger(
            input,
            (0int, 0int, 0int, 0int, 0int, 0int, 0int),
            seen,
            a,
            fuel,
            match_tally(input, a, fuel),
            larger(seen, match_max_components(input, a, fuel)),
        ),
{
    reveal(match_ledger);
}

/// An unsettled round counts its own gate and the components of its sample.
pub proof fn lemma_match_ledger_step(
    input: &CanonicalInput,
    counted: (int, int, int, int, int, int, int),
    seen: int,
    a: Seq<bool>,
    fuel: nat,
    tally: (int, int, int, int, int, int, int),
    most: int,
)
    requires
        fuel >= 1,
        match_ledger(input, counted, seen, a, fuel, tally, most),
        !match_settled(input, largest_keep(input, a)),
    ensures
        match_ledger(
            input,
            tally_plus(counted, match_step_tally(input, largest_keep(input, a))),
            larger(seen, component_count(input, a)),
            match_prune(input, largest_keep(input, a)),
            (fuel - 1) as nat,
            tally,
            most,
        ),
{
    reveal(match_ledger);
    reveal(match_max_components);
    lemma_match_tally_advance(input, a, fuel, counted, tally);
}

/// A settled round ends the count: what was counted is the total.
pub proof fn lemma_match_ledger_done(
    input: &CanonicalInput,
    counted: (int, int, int, int, int, int, int),
    seen: int,
    a: Seq<bool>,
    fuel: nat,
    tally: (int, int, int, int, int, int, int),
    most: int,
)
    requires
        fuel >= 1,
        match_ledger(input, counted, seen, a, fuel, tally, most),
        match_settled(input, largest_keep(input, a)),
    ensures
        counted == tally,
        larger(seen, component_count(input, a)) == most,
{
    reveal(match_ledger);
    reveal(match_max_components);
    lemma_iterate_step(input, a, fuel);
}

/// What the observation rounds counted so far, with what the rounds from `a`
/// on will count, makes up the totals `tally` and `most`.
#[verifier::opaque]
pub open spec fn observation_ledger(
    input: &CanonicalInput,
    counted: (int, int, int, int),
    seen: int,
    a: Seq<bool>,
    fuel: nat,
    tally: (int, int, int, int),
    most: int,
) -> bool {
    &&& tally4_plus(counted, observation_tally(input, a, fuel)) == tally
    &&& larger(seen, observation_max_components(input, a, fuel)) == most
}

/// Before the first observation round nothing is counted but what was seen.
pub proof fn lemma_observation_ledger_start(input: &CanonicalInput, seen: int, a: Seq<bool>, fuel: nat)
    ensures
        observation_ledger(
            input,
            (0int, 0int, 0int, 0int),
            seen,
            a,
            fuel,
            observation_tally(input, a, fuel),
            larger(seen, observation_max_components(input, a, fuel)),
        ),
{
    reveal(observation_ledger);
}

/// An unsettled observation round counts its own gate and the components of its sample.
pub proof fn lemma_observation_ledger_step(
    input: &CanonicalInput,
    counted: (int, int, int, int),
    seen: int,
    a: Seq<bool>,
    fuel: nat,
    tally: (int, int, int, int),
    most: int,
)
    requires
        fuel >= 1,
        observation_ledger(input, counted, seen, a, fuel, tally, most),
        !observation_settled(input, largest_keep(input, a)),
    ensures
        observation_ledger(
            input,
            tally4_plus(counted, observation_step_tally(input, largest_keep(input, a))),
            larger(seen, component_count(input, a)),
            observation_prune(input, largest_keep(input, a)),
            (fuel - 1) as nat,
            tally,
            most,
        ),
{
    reveal(observation_ledger);
    reveal(observation_max_components);
    lemma_observation_step(input, a, fuel);
}

/// A settled observation round ends the count.
pub proof fn lemma_observation_ledger_done(
    input: &CanonicalInput,
    counted: (int, int, int, int),
    seen: int,
    a: Seq<bool>,
    fuel: nat,
    tally: (int, int, int, int),
    most: int,
)
    requires
        fuel >= 1,
        observation_ledger(input, counted, seen, a, fuel, tally, most),
        observation_settled(input, largest_keep(input, a)),
    ensures
        counted == tally,
        larger(seen, component_count(input, a)) == most,
{
    reveal(observation_ledger);
    reveal(observation_max_components);
    lemma_observation_step(input, a, fuel);
}

/// One for a round whose sample has a worker seen at a single firm.
pub open spec fn single_firm_round(input: &CanonicalInput) -> spec_fn(Seq<bool>) -> int {
    |k: Seq<bool>| if has_single_firm_worker(input, k) { 1int } else { 0int }
}

/// One for a round with no single-firm worker but a cut worker.
pub open spec fn cut_round(input: &CanonicalInput) -> spec_fn(Seq<bool>) -> int {
    |k: Seq<bool>| if !has_single_firm_worker(input, k) && has_cut_worker(input, k) { 1int } else { 0int }
}

/// One for a round with neither a single-firm nor a cut worker.
pub open spec fn bridge_round(input: &CanonicalInput) -> spec_fn(Seq<bool>) -> int {
    |k: Seq<bool>| if !has_single_firm_worker(input, k) && !has_cut_worker(input, k) { 1int } else { 0int }
}

/// The single-firm workers a round removes, when that gate fires.
pub open spec fn single_firm_removed(input: &CanonicalInput) -> spec_fn(Seq<bool>) -> int {
    |k: Seq<bool>|
        if has_single_firm_worker(input, k) {
            count_true_spec(single_firm_workers(input, k))
        } else {
            0int
        }
}

/// The cut workers a round removes, when that gate fires.
pub open spec fn cut_removed(input: &CanonicalInput) -> spec_fn(Seq<bool>) -> int {
    |k: Seq<bool>|
        if !has_single_firm_worker(input, k) && has_cut_worker(input, k) {
            count_true_spec(cut_workers(input, k))
        } else {
            0int
        }
}

/// The bridge units a round removes, when that gate fires.
pub open spec fn bridge_units_removed(input: &CanonicalInput) -> spec_fn(Seq<bool>) -> int {
    |k: Seq<bool>|
        if !has_single_firm_worker(input, k) && !has_cut_worker(input, k) {
            bridge_units(input, k).len() as int
        } else {
            0int
        }
}

/// The rows of the bridge units a round removes, when that gate fires.
pub open spec fn bridge_rows_removed(input: &CanonicalInput) -> spec_fn(Seq<bool>) -> int {
    |k: Seq<bool>|
        if !has_single_firm_worker(input, k) && !has_cut_worker(input, k) {
            count_true_spec(bridge_unit_rows(input, k))
        } else {
            0int
        }
}

/// One for an observation round whose sample has a physical singleton.
pub open spec fn singleton_round(input: &CanonicalInput) -> spec_fn(Seq<bool>) -> int {
    |k: Seq<bool>| if has_singleton_worker(input, k) { 1int } else { 0int }
}

/// One for an observation round without physical singletons.
pub open spec fn observation_cut_round(input: &CanonicalInput) -> spec_fn(Seq<bool>) -> int {
    |k: Seq<bool>| if has_singleton_worker(input, k) { 0int } else { 1int }
}

/// The physical singletons an observation round removes, when that gate fires.
pub open spec fn singleton_removed(input: &CanonicalInput) -> spec_fn(Seq<bool>) -> int {
    |k: Seq<bool>|
        if has_singleton_worker(input, k) {
            count_true_spec(singleton_workers(input, k))
        } else {
            0int
        }
}

/// The cut workers an observation round removes, when that gate fires.
pub open spec fn observation_cut_removed(input: &CanonicalInput) -> spec_fn(Seq<bool>) -> int {
    |k: Seq<bool>|
        if has_singleton_worker(input, k) {
            0int
        } else {
            count_true_spec(cut_workers(input, k))
        }
}

/// The sum of `f` over the largest components of the first `n` match round samples.
pub open spec fn match_round_total(
    input: &CanonicalInput,
    a: Seq<bool>,
    n: nat,
    f: spec_fn(Seq<bool>) -> int,
) -> int
    decreases n,
{
    if n == 0 {
        0
    } else {
        match_round_total(input, a, (n - 1) as nat, f) + f(
            largest_keep(input, match_round_sample(input, a, (n - 1) as nat)),
        )
    }
}

/// The sum of `f` over the largest components of the first `n` observation round samples.
pub open spec fn observation_round_total(
    input: &CanonicalInput,
    a: Seq<bool>,
    n: nat,
    f: spec_fn(Seq<bool>) -> int,
) -> int
    decreases n,
{
    if n == 0 {
        0
    } else {
        observation_round_total(input, a, (n - 1) as nat, f) + f(
            largest_keep(input, observation_round_sample(input, a, (n - 1) as nat)),
        )
    }
}

/// A total over rounds is the first round's term and the total of the rest.
proof fn lemma_match_round_total_shift(input: &CanonicalInput, a: Seq<bool>, n: nat, f: spec_fn(Seq<bool>) -> int)
    ensures
        match_round_total(input, a, n + 1, f) == f(largest_keep(input, a)) + match_round_total(
            input,
            match_prune(input, largest_keep(input, a)),
            n,
            f,
        ),
    decreases n,
{
    let next = match_prune(input, largest_keep(input, a));
    assert(match_round_sample(input, a, 0) == a);
    assert(match_round_total(input, a, n + 1, f) == match_round_total(input, a, n, f) + f(
        largest_keep(input, match_round_sample(input, a, n)),
    ));
    if n > 0 {
        lemma_match_round_total_shift(input, a, (n - 1) as nat, f);
        assert(match_round_sample(input, a, n) == match_round_sample(input, next, (n - 1) as nat));
        assert(match_round_total(input, next, n, f) == match_round_total(input, next, (n - 1) as nat, f) + f(
            largest_keep(input, match_round_sample(input, next, (n - 1) as nat)),
        ));
    } else {
        assert(match_round_total(input, a, 0, f) == 0);
        assert(match_round_total(input, next, 0, f) == 0);
    }
}

/// An observation total over rounds is the first round's term and the total of the rest.
proof fn lemma_observation_round_total_shift(
    input: &CanonicalInput,
    a: Seq<bool>,
    n: nat,
    f: spec_fn(Seq<bool>) -> int,
)
    ensures
        observation_round_total(input, a, n + 1, f) == f(largest_keep(input, a)) + observation_round_total(
            input,
            observation_prune(input, largest_keep(input, a)),
            n,
            f,
        ),
    decreases n,
{
    let next = observation_prune(input, largest_keep(input, a));
    assert(observation_round_sample(input, a, 0) == a);
    assert(observation_round_total(input, a, n + 1, f) == observation_round_total(input, a, n, f) + f(
        largest_keep(input, observation_round_sample(input, a, n)),
    ));
    if n > 0 {
        lemma_observation_round_total_shift(input, a, (n - 1) as nat, f);
        assert(observation_round_sample(input, a, n) == observation_round_sample(input, next, (n - 1) as nat));
        assert(observation_round_total(input, next, n, f) == observation_round_total(input, next, (n - 1) as nat, f) + f(
            largest_keep(input, observation_round_sample(input, next, (n - 1) as nat)),
        ));
    } else {
        assert(observation_round_total(input, a, 0, f) == 0);
        assert(observation_round_total(input, next, 0, f) == 0);
    }
}

/// The match tally adds up, gate by gate, what each round removed.
pub proof fn lemma_match_tally_rounds(input: &CanonicalInput, a: Seq<bool>, fuel: nat)
    ensures
        ({
            let t = match_tally(input, a, fuel);
            let n = match_rounds(input, a, fuel);
            &&& t.0 == match_round_total(input, a, n, single_firm_round(input))
            &&& t.1 == match_round_total(input, a, n, cut_round(input))
            &&& t.2 == match_round_total(input, a, n, bridge_round(input))
            &&& t.3 == match_round_total(input, a, n, single_firm_removed(input))
            &&& t.4 == match_round_total(input, a, n, cut_removed(input))
            &&& t.5 == match_round_total(input, a, n, bridge_units_removed(input))
            &&& t.6 == match_round_total(input, a, n, bridge_rows_removed(input))
        }),
    decreases fuel,
{
    reveal(match_tally);
    reveal(match_rounds);
    let k = largest_keep(input, a);
    if fuel == 0 || match_settled(input, k) {
    } else {
        let next = match_prune(input, k);
        lemma_match_tally_rounds(input, next, (fuel - 1) as nat);
        let n = match_rounds(input, next, (fuel - 1) as nat);
        lemma_match_round_total_shift(input, a, n, single_firm_round(input));
        lemma_match_round_total_shift(input, a, n, cut_round(input));
        lemma_match_round_total_shift(input, a, n, bridge_round(input));
        lemma_match_round_total_shift(input, a, n, single_firm_removed(input));
        lemma_match_round_total_shift(input, a, n, cut_removed(input));
        lemma_match_round_total_shift(input, a, n, bridge_units_removed(input));
        lemma_match_round_total_shift(input, a, n, bridge_rows_removed(input));
    }
}

/// The observation tally adds up, gate by gate, what each round removed.
pub proof fn lemma_observation_tally_rounds(input: &CanonicalInput, a: Seq<bool>, fuel: nat)
    ensures
        ({
            let t = observation_tally(input, a, fuel);
            let n = observation_rounds(input, a, fuel);
            &&& t.0 == observation_round_total(input, a, n, singleton_round(input))
            &&& t.1 == observation_round_total(input, a, n, observation_cut_round(input))
            &&& t.2 == observation_round_total(input, a, n, singleton_removed(input))
            &&& t.3 == observation_round_total(input, a, n, observation_cut_removed(input))
        }),
    decreases fuel,
{
    reveal(observation_tally);
    reveal(observation_rounds);
    let k = largest_keep(input, a);
    if fuel == 0 || observation_settled(input, k) {
    } else {
        let next = observation_prune(input, k);
        lemma_observation_tally_rounds(input, next, (fuel - 1) as nat);
        let n = observation_rounds(input, next, (fuel - 1) as nat);
        lemma_observation_round_total_shift(input, a, n, singleton_round(input));
        lemma_observation_round_total_shift(input, a, n, observation_cut_round(input));
        lemma_observation_round_total_shift(input, a, n, singleton_removed(input));
        lemma_observation_round_total_shift(input, a, n, observation_cut_removed(input));
    }
}

} // verus!
