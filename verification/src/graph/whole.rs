//! A sample that already passes a selection certificate: every pruning step
//! leaves it whole.

use vstd::prelude::*;

use crate::graph::component::{is_leader, keeps_largest_component, largest_component_tied};
use crate::graph::dfs::{deletion_crosses, unit_not_bridge, worker_not_cut};
use crate::graph::{
    active_coordinates, active_deletions, connected, coordinate_link, coordinates_of, count_prefix,
    distinct_firms, is_walk, joins, lemma_active_coordinates_finite,
    lemma_connected_refl, lemma_connected_symmetric, lemma_connected_transitive, movers_only,
    no_physical_singletons, row_coordinate, single_component, worker_mass, worker_mass_prefix,
};
use crate::problem::CanonicalInput;

verus! {

/// The mask that keeps every row.
pub open spec fn all_rows(input: &CanonicalInput) -> Seq<bool> {
    Seq::new(input.spec_worker().len(), |i: int| true)
}

/// The whole sample already passes the match-deletion certificate: it is
/// nonempty and connected, every worker is a mover and no cut vertex, and no
/// deletion unit spans two coordinates or is a bridge.
pub open spec fn match_certified_whole(input: &CanonicalInput) -> bool {
    let a = all_rows(input);
    &&& a.len() > 0
    &&& single_component(input, a)
    &&& movers_only(input, a)
    &&& !deletion_crosses(input, a)
    &&& forall|d: u32| active_deletions(input, a).contains(d) ==> #[trigger] unit_not_bridge(input, a, d)
    &&& forall|w: int| 0 <= w < input.spec_workers() ==> #[trigger] worker_not_cut(input, a, w)
}

/// Every entry true: the count is the length.
pub proof fn lemma_count_all(s: Seq<bool>, k: int)
    requires
        0 <= k <= s.len(),
        forall|i: int| 0 <= i < s.len() ==> #[trigger] s[i],
    ensures
        count_prefix(s, k) == k,
    decreases k,
{
    if k > 0 {
        lemma_count_all(s, k - 1);
    }
}

/// No entry true: the count is zero.
pub proof fn lemma_count_none(s: Seq<bool>, k: int)
    requires
        0 <= k <= s.len(),
        forall|i: int| 0 <= i < s.len() ==> !#[trigger] s[i],
    ensures
        count_prefix(s, k) == 0,
    decreases k,
{
    if k > 0 {
        lemma_count_none(s, k - 1);
    }
}

/// A leader reaches the worker of some active row.
proof fn lemma_leader_row(input: &CanonicalInput, a: Seq<bool>, v: int) -> (r: int)
    requires
        input.wf(),
        a.len() == input.spec_worker().len(),
        is_leader(input, a, v),
    ensures
        0 <= r < a.len(),
        a[r],
        connected(input, a, v, input.spec_worker()[r] as int),
{
    let wk = input.spec_workers() as int;
    let u = choose|u: int| #[trigger] coordinate_link(input, a, v, u);
    let c = choose|c: (u32, u32)| active_coordinates(input, a).contains(c) && #[trigger] joins(c, wk, v, u);
    let r = choose|r: int| 0 <= r < a.len() && a[r] && #[trigger] row_coordinate(input, r) == c;
    if v == c.0 {
        lemma_connected_refl(input, a, v);
    } else {
        let p = seq![v, u];
        assert(is_walk(input, a, p));
        assert(u == c.0);
    }
    r
}

/// In a connected whole sample the largest component keeps every row.
pub proof fn lemma_whole_keeps(input: &CanonicalInput, keep: Seq<bool>, w: int)
    requires
        input.wf(),
        single_component(input, all_rows(input)),
        keeps_largest_component(input, all_rows(input), keep, w),
    ensures
        keep == all_rows(input),
{
    let a = all_rows(input);
    let r0 = lemma_leader_row(input, a, w);
    assert forall|r: int| 0 <= r < keep.len() implies #[trigger] keep[r] by {
        assert(connected(input, a, input.spec_worker()[r0] as int, input.spec_worker()[r] as int));
        lemma_connected_transitive(input, a, w, input.spec_worker()[r0] as int, input.spec_worker()[r] as int);
    }
    assert(keep =~= a);
}

/// A connected whole sample has a single component, so no tie.
pub proof fn lemma_whole_untied(input: &CanonicalInput)
    requires
        input.wf(),
        single_component(input, all_rows(input)),
    ensures
        !largest_component_tied(input, all_rows(input)),
{
    let a = all_rows(input);
    if largest_component_tied(input, a) {
        let (v, w) = choose|v: int, w: int|
            #![trigger is_leader(input, a, v), is_leader(input, a, w)]
            is_leader(input, a, v) && is_leader(input, a, w) && v != w && crate::graph::component::component_rank(
                input,
                a,
                v,
            ) == crate::graph::component::component_rank(input, a, w) && forall|u: int| #[trigger]
                is_leader(input, a, u) ==> !crate::graph::component::rank_below(
                    crate::graph::component::component_rank(input, a, w),
                    crate::graph::component::component_rank(input, a, u),
                );
        let rv = lemma_leader_row(input, a, v);
        let rw = lemma_leader_row(input, a, w);
        assert(connected(input, a, input.spec_worker()[rv] as int, input.spec_worker()[rw] as int));
        lemma_connected_symmetric(input, a, w, input.spec_worker()[rw] as int);
        lemma_connected_transitive(input, a, v, input.spec_worker()[rv] as int, input.spec_worker()[rw] as int);
        lemma_connected_transitive(input, a, v, input.spec_worker()[rw] as int, w);
        lemma_connected_symmetric(input, a, v, w);
        if v < w {
            assert(!connected(input, a, v, w));
        } else {
            assert(!connected(input, a, w, v));
        }
    }
}

/// In a whole sample of movers no worker has exactly one firm.
pub proof fn lemma_whole_no_single_firm(input: &CanonicalInput, w: int)
    requires
        input.wf(),
        movers_only(input, all_rows(input)),
    ensures
        distinct_firms(input, all_rows(input), w) != 1,
{
    let a = all_rows(input);
    let set = active_coordinates(input, a);
    lemma_active_coordinates_finite(input, a);
    if distinct_firms(input, a, w) == 1 {
        let sub = coordinates_of(set, w);
        vstd::set_lib::lemma_len_subset(sub, set);
        if forall|c: (u32, u32)| !sub.contains(c) {
            assert(sub =~= Set::empty());
        }
        let c = choose|c: (u32, u32)| sub.contains(c);
        let r = choose|r: int| 0 <= r < a.len() && a[r] && #[trigger] row_coordinate(input, r) == c;
        assert(input.spec_worker()[r] == w);
        assert(distinct_firms(input, a, input.spec_worker()[r] as int) >= 2);
    }
}

/// The whole sample already passes the observation-deletion certificate: it
/// is nonempty and connected, and every worker carries two or more physical
/// observations and is no cut vertex.
pub open spec fn observation_certified_whole(input: &CanonicalInput) -> bool {
    let a = all_rows(input);
    &&& a.len() > 0
    &&& single_component(input, a)
    &&& no_physical_singletons(input, a)
    &&& forall|w: int| 0 <= w < input.spec_workers() ==> #[trigger] worker_not_cut(input, a, w)
}

/// A worker with positive mass among the first `k` rows has an active row there.
proof fn lemma_mass_row(input: &CanonicalInput, a: Seq<bool>, w: int, k: int) -> (r: int)
    requires
        0 <= k <= a.len(),
        worker_mass_prefix(input, a, w, k) != 0,
    ensures
        0 <= r < k,
        a[r],
        input.spec_worker()[r] == w,
    decreases k,
{
    if a[k - 1] && input.spec_worker()[k - 1] == w {
        k - 1
    } else {
        lemma_mass_row(input, a, w, k - 1)
    }
}

/// In a whole sample without physical singletons no worker has mass one.
pub proof fn lemma_whole_no_singleton(input: &CanonicalInput, w: int)
    requires
        no_physical_singletons(input, all_rows(input)),
    ensures
        worker_mass(input, all_rows(input), w) != 1,
{
    let a = all_rows(input);
    if worker_mass(input, a, w) == 1 {
        let r = lemma_mass_row(input, a, w, a.len() as int);
        assert(worker_mass(input, a, input.spec_worker()[r] as int) >= 2);
    }
}

} // verus!
