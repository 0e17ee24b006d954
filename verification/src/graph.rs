//! Worker-firm graph selection: the largest connected component and the
//! fixed points that remove one-firm workers, worker articulations and
//! deletion-unit bridges.

pub mod component;
pub mod cut_steps;
pub mod cuts;
pub mod bridge_steps;
pub mod bridges;
pub mod dfs;
pub mod fixed;
pub mod scans;
pub mod units;
pub mod walks;
pub mod whole;

use std::collections::BTreeSet;

use vstd::prelude::*;

use crate::error::{BackendError, ErrorCode, Result};
use crate::graph::whole::{
    all_rows, lemma_count_all, lemma_count_none, lemma_whole_keeps, lemma_whole_no_single_firm,
    lemma_whole_no_singleton, lemma_whole_untied, match_certified_whole, observation_certified_whole,
};
use crate::interrupt::{checkpoint_chunk, refused_at, InterruptCheck, INTERRUPTIBLE_SORT_RUN};
use crate::graph::component::{keeps_largest_component, largest_component_tied};
use crate::graph::fixed::{
    lemma_crosses_within, lemma_keep_idempotent, lemma_units_bound, match_proceeds, lemma_counter_room,
    observation_proceeds, observation_settled, match_no_tie, match_no_empty, match_untied, match_nonempty,
    match_settles, match_refusal, observation_no_tie, observation_no_empty, observation_untied,
    observation_nonempty, observation_settles, observation_refusal, observation_tally, tally4_plus,
    match_tally, larger, match_max_components, observation_max_components, match_ledger, observation_ledger,
    lemma_match_ledger_start, lemma_match_ledger_step, lemma_match_ledger_done, lemma_observation_ledger_start,
    lemma_observation_ledger_step, lemma_observation_ledger_done, lemma_degree_tally, lemma_cut_tally,
    lemma_bridge_step_tally,
    match_round_sample, observation_round_sample, lemma_match_max_components, lemma_observation_max_components,
    match_round_total, observation_round_total, single_firm_round, cut_round, bridge_round, single_firm_removed,
    cut_removed, bridge_units_removed, bridge_rows_removed, singleton_round, observation_cut_round,
    singleton_removed, observation_cut_removed, lemma_match_tally_rounds, lemma_observation_tally_rounds,
    has_bridge_unit, has_cut_worker, has_single_firm_worker, largest_keep, lemma_bridge_prune,
    lemma_cut_prune, lemma_iterate_step, lemma_largest_keep, lemma_single_prune, match_bound,
    match_fixed_point, match_iterate, match_settled, match_start, has_singleton_worker,
    lemma_observation_cut_prune, lemma_observation_step, lemma_singleton_prune, observation_fixed_point,
    observation_iterate, match_rounds, observation_rounds,
};
use crate::graph::component::component_count;
use crate::problem::CanonicalInput;
use crate::sort::{
    decides, lemma_injective_onto, precedence_of, sort_by_precedence, sorted_by, sorts, total_preorder,
    Precedence, hit,
};

verus! {

broadcast use vstd::laws_cmp::group_laws_cmp, vstd::std_specs::btree::group_btree_axioms;

/// Number of `true` entries among the first `k` values.
pub open spec fn count_prefix(values: Seq<bool>, k: int) -> int
    decreases k,
{
    if k <= 0 {
        0
    } else {
        count_prefix(values, k - 1) + if values[k - 1] {
            1int
        } else {
            0int
        }
    }
}

/// Number of `true` entries.
pub open spec fn count_true_spec(values: Seq<bool>) -> int {
    count_prefix(values, values.len() as int)
}

/// The worker-firm coordinate of a row.
pub open spec fn row_coordinate(input: &CanonicalInput, row: int) -> (u32, u32) {
    (input.spec_worker()[row], input.spec_firm()[row])
}

/// The set of worker-firm coordinates of the active rows.
pub open spec fn active_coordinates(input: &CanonicalInput, active: Seq<bool>) -> Set<(u32, u32)> {
    Set::new(
        |c: (u32, u32)|
            exists|r: int|
                0 <= r < active.len() && active[r] && #[trigger] row_coordinate(input, r) == c,
    )
}

/// The coordinates of `set` that belong to `worker`.
pub open spec fn coordinates_of(set: Set<(u32, u32)>, worker: int) -> Set<(u32, u32)> {
    set.filter(|c: (u32, u32)| c.0 == worker)
}

/// The number of distinct firms at which `worker` has active rows.
pub open spec fn distinct_firms(input: &CanonicalInput, active: Seq<bool>, worker: int) -> nat {
    coordinates_of(active_coordinates(input, active), worker).len()
}

/// The physical mass of the active rows of `worker` among the first `k` rows.
pub open spec fn worker_mass_prefix(
    input: &CanonicalInput,
    active: Seq<bool>,
    worker: int,
    k: int,
) -> int
    decreases k,
{
    if k <= 0 {
        0
    } else {
        worker_mass_prefix(input, active, worker, k - 1) + if active[k - 1]
            && input.spec_worker()[k - 1] == worker {
            input.spec_frequency()[k - 1] as int
        } else {
            0int
        }
    }
}

/// The physical mass of the active rows of `worker`.
pub open spec fn worker_mass(input: &CanonicalInput, active: Seq<bool>, worker: int) -> int {
    worker_mass_prefix(input, active, worker, active.len() as int)
}

/// The physical mass of the active rows among the first `k`.
pub open spec fn active_mass_prefix(input: &CanonicalInput, active: Seq<bool>, k: int) -> int
    decreases k,
{
    if k <= 0 {
        0
    } else {
        active_mass_prefix(input, active, k - 1) + if active[k - 1] {
            input.spec_frequency()[k - 1] as int
        } else {
            0int
        }
    }
}

/// The set of deletion units of the active rows.
pub open spec fn active_deletions(input: &CanonicalInput, active: Seq<bool>) -> Set<u32> {
    Set::new(
        |d: u32|
            exists|r: int|
                0 <= r < active.len() && active[r] && #[trigger] input.spec_deletion()[r] == d,
    )
}

/// Lexicographic order on worker-firm coordinates.
pub open spec fn coordinate_le(a: (u32, u32), b: (u32, u32)) -> bool {
    a.0 < b.0 || (a.0 == b.0 && a.1 <= b.1)
}

/// `s` is strictly increasing in the lexicographic coordinate order.
pub open spec fn strictly_increasing(s: Seq<(u32, u32)>) -> bool {
    forall|i: int, j: int|
        0 <= i < j < s.len() ==> coordinate_le(#[trigger] s[i], #[trigger] s[j]) && s[i] != s[j]
}

proof fn lemma_count_prefix_bounds(values: Seq<bool>, k: int)
    requires
        0 <= k <= values.len(),
    ensures
        0 <= count_prefix(values, k) <= k,
    decreases k,
{
    if k > 0 {
        lemma_count_prefix_bounds(values, k - 1);
    }
}

/// A prefix with a positive count holds a `true` entry.
pub proof fn lemma_count_prefix_witness(values: Seq<bool>, k: int) -> (q: int)
    requires
        0 <= k <= values.len(),
        count_prefix(values, k) > 0,
    ensures
        0 <= q < k,
        values[q],
    decreases k,
{
    if values[k - 1] {
        k - 1
    } else {
        lemma_count_prefix_witness(values, k - 1)
    }
}

/// Counts the `true` entries, checking once per chunk.
pub fn count_true<I: InterruptCheck>(
    values: &Vec<bool>,
    interrupt: &mut I,
    phase: &'static str,
) -> (r: Result<usize>)
    ensures
        r matches Ok(c) ==> c == count_true_spec(values@),
        old(interrupt).inert() ==> r is Ok && final(interrupt).inert(),
{
    let ghost inert0 = interrupt.inert();
    let mut count: usize = 0;
    let mut index: usize = 0;
    while index < values.len()
        invariant
            index <= values.len(),
            count == count_prefix(values@, index as int),
            inert0 == old(interrupt).inert(),
            inert0 ==> interrupt.inert(),
        decreases values.len() - index,
    {
        match checkpoint_chunk(interrupt, index, phase) {
            Ok(()) => {},
            Err(e) => {
                return Err(e);
            },
        }
        proof {
            lemma_count_prefix_bounds(values@, index as int);
        }
        if values[index] {
            count = count + 1;
        }
        index = index + 1;
    }
    Ok(count)
}

/// Clears every active entry whose `keep` entry is false (over the common length).
pub fn intersect_active<I: InterruptCheck>(
    active: &mut Vec<bool>,
    keep: &Vec<bool>,
    interrupt: &mut I,
) -> (r: Result<()>)
    ensures
        final(active).len() == old(active).len(),
        forall|k: int| 0 <= k < old(active).len() ==> (#[trigger] final(active)@[k] ==> old(active)@[k]),
        r is Ok ==> forall|k: int|
            0 <= k < old(active).len() ==> #[trigger] final(active)@[k] == (old(active)@[k] && (k
                >= keep.len() || keep@[k])),
        old(interrupt).inert() ==> r is Ok && final(interrupt).inert(),
{
    let ghost inert0 = interrupt.inert();
    let ghost before = active@;
    let n = if active.len() < keep.len() {
        active.len()
    } else {
        keep.len()
    };
    let mut row: usize = 0;
    while row < n
        invariant
            n <= active.len(),
            n <= keep.len(),
            active.len() == before.len(),
            before == old(active)@,
            row <= n,
            forall|k: int| 0 <= k < row ==> #[trigger] active@[k] == (before[k] && keep@[k]),
            forall|k: int| row <= k < active.len() ==> #[trigger] active@[k] == before[k],
            inert0 == old(interrupt).inert(),
            inert0 ==> interrupt.inert(),
        decreases n - row,
    {
        match checkpoint_chunk(interrupt, row, "graph_mask_intersection") {
            Ok(()) => {},
            Err(e) => {
                return Err(e);
            },
        }
        let value = active[row] && keep[row];
        active.set(row, value);
        row = row + 1;
    }
    Ok(())
}

/// Rejects a mask of the wrong length (`InvalidInput`) and an empty mask (`GraphEmpty`).
pub fn validate_mask<I: InterruptCheck>(
    input: &CanonicalInput,
    active: &Vec<bool>,
    interrupt: &mut I,
) -> (r: Result<()>)
    ensures
        r is Ok ==> active.len() == input.spec_worker().len() && count_true_spec(active@) > 0,
        active.len() != input.spec_worker().len() ==> (r matches Err(e) && e.code
            == ErrorCode::InvalidInput),
        old(interrupt).inert() ==> final(interrupt).inert() && (r is Ok <==> (active.len()
            == input.spec_worker().len() && count_true_spec(active@) > 0)),
        old(interrupt).inert() && active.len() == input.spec_worker().len() ==> (r matches Err(e)
            ==> e.code == ErrorCode::GraphEmpty),
{
    if active.len() != input.rows() {
        return Err(BackendError::invalid("graph", "active mask has the wrong length"));
    }
    let count = count_true(active, interrupt, "graph_validate_mask")?;
    if count == 0 {
        return Err(BackendError::new(ErrorCode::GraphEmpty, "graph", "active graph is empty"));
    }
    Ok(())
}

/// An error the machine may raise on any input: an allocation failure or an
/// unrepresentable byte count.
pub open spec fn machine_error(e: BackendError) -> bool {
    e.code == ErrorCode::ResourceLimit || e.code == ErrorCode::AllocationFailed
}

/// The distinct worker-firm coordinates of the active rows, in lexicographic order.
fn sorted_coordinates<I: InterruptCheck>(
    input: &CanonicalInput,
    active: &Vec<bool>,
    interrupt: &mut I,
    phase: &'static str,
) -> (r: Result<Vec<(u32, u32)>>)
    requires
        active.len() <= input.spec_worker().len(),
    ensures
        r matches Ok(c) ==> strictly_increasing(c@),
        r matches Ok(c) ==> forall|x: (u32, u32)|
            c@.contains(x) <==> active_coordinates(input, active@).contains(x),
        old(interrupt).inert() ==> final(interrupt).inert(),
        old(interrupt).inert() ==> (r matches Err(e) ==> machine_error(e)),
        old(interrupt).inert() && active.len() <= INTERRUPTIBLE_SORT_RUN ==> r is Ok,
        r matches Ok(c) ==> c.len() <= active.len(),
{
    proof {
        use_type_invariant(input);
    }
    let ghost inert0 = interrupt.inert();
    let n = active.len();
    let mut pairs: Vec<(u32, u32)> = Vec::new();
    let ghost mut rows_of: Seq<int> = Seq::empty();
    let ghost mut slot_of: Seq<int> = Seq::new(n as nat, |r: int| 0int);
    let mut row: usize = 0;
    while row < n
        invariant
            n == active.len(),
            n <= input.spec_worker().len(),
            row <= n,
            pairs.len() == rows_of.len(),
            pairs.len() <= row,
            slot_of.len() == n,
            forall|k: int|
                0 <= k < pairs.len() ==> 0 <= #[trigger] rows_of[k] < row && active@[rows_of[k]]
                    && pairs@[k] == row_coordinate(input, rows_of[k]),
            forall|q: int|
                0 <= q < row && active@[q] ==> 0 <= #[trigger] slot_of[q] < pairs.len()
                    && pairs@[slot_of[q]] == row_coordinate(input, q),
            inert0 == old(interrupt).inert(),
            inert0 ==> interrupt.inert(),
        decreases n - row,
    {
        match checkpoint_chunk(interrupt, row, phase) {
            Ok(()) => {},
            Err(e) => {
                return Err(e);
            },
        }
        if active[row] {
            let coordinate = (input.worker_at(row), input.firm_at(row));
            proof {
                slot_of = slot_of.update(row as int, pairs.len() as int);
                rows_of = rows_of.push(row as int);
            }
            pairs.push(coordinate);
        }
        row = row + 1;
    }
    let order = |a: &(u32, u32), b: &(u32, u32)| -> (p: Precedence)
        ensures
            p == precedence_of(coordinate_le(*a, *b), coordinate_le(*b, *a)),
        {
            if a.0 < b.0 || (a.0 == b.0 && a.1 < b.1) {
                Precedence::Before
            } else if a.0 == b.0 && a.1 == b.1 {
                Precedence::Tied
            } else {
                Precedence::After
            }
        };
    let ghost le = |a: (u32, u32), b: (u32, u32)| coordinate_le(a, b);
    proof {
        assert forall|a: &(u32, u32), b: &(u32, u32)| #[trigger] order.requires((a, b)) by {}
        assert(decides(order, le));
        assert(total_preorder(le));
    }
    let ghost before = pairs@;
    sort_by_precedence(&mut pairs, &order, false, interrupt, phase, Ghost(le))?;
    let ghost sorted = pairs@;
    let ghost pos = choose|pos: Seq<int>| sorts(le, false, sorted, before, pos);
    proof {
        lemma_injective_onto(pos, before.len() as int);
    }
    let m = pairs.len();
    let mut out: Vec<(u32, u32)> = Vec::new();
    let ghost mut origin: Seq<int> = Seq::empty();
    let ghost mut slot2: Seq<int> = Seq::new(m as nat, |k: int| 0int);
    let mut k: usize = 0;
    while k < m
        invariant
            m == pairs.len(),
            m <= active.len(),
            out.len() <= k,
            pairs@ == sorted,
            sorts(le, false, sorted, before, pos),
            forall|a: (u32, u32), b: (u32, u32)| #[trigger] le(a, b) == coordinate_le(a, b),
            k <= m,
            out.len() == origin.len(),
            slot2.len() == m,
            k > 0 ==> out.len() > 0 && out@[out.len() - 1] == sorted[k - 1],
            strictly_increasing(out@),
            forall|j: int| 0 <= j < out.len() ==> 0 <= #[trigger] origin[j] < k && out@[j]
                == sorted[origin[j]],
            forall|i: int| 0 <= i < k ==> 0 <= #[trigger] slot2[i] < out.len() && out@[slot2[i]]
                == sorted[i],
            inert0 == old(interrupt).inert(),
            inert0 ==> interrupt.inert(),
        decreases m - k,
    {
        match checkpoint_chunk(interrupt, k, phase) {
            Ok(()) => {},
            Err(e) => {
                return Err(e);
            },
        }
        let x = pairs[k];
        let fresh = if k == 0 {
            true
        } else {
            let last = out[out.len() - 1];
            !(last.0 == x.0 && last.1 == x.1)
        };
        if fresh {
            proof {
                if k > 0 {
                    assert(le(sorted[k - 1], sorted[k as int]));
                    assert(coordinate_le(sorted[k - 1], sorted[k as int]));
                    assert(x == sorted[k as int]);
                    assert forall|i: int, j: int|
                        0 <= i < j < out.len() + 1 implies coordinate_le(
                        #[trigger] out@.push(x)[i],
                        #[trigger] out@.push(x)[j],
                    ) && out@.push(x)[i] != out@.push(x)[j] by {
                        let last = out@[out.len() - 1];
                        assert(coordinate_le(last, x));
                        assert(last != x);
                        if j == out.len() {
                            assert(out@.push(x)[j] == x);
                            assert(out@.push(x)[i] == out@[i]);
                            if i < out.len() - 1 {
                                assert(coordinate_le(out@[i], last) && out@[i] != last);
                                assert(coordinate_le(out@[i], x));
                            }
                        } else {
                            assert(out@.push(x)[i] == out@[i]);
                            assert(out@.push(x)[j] == out@[j]);
                        }
                    }
                }
                if k == 0 {
                    if out.len() > 0 {
                        let _ = origin[0];
                    }
                    assert(out.len() == 0);
                }
                assert(strictly_increasing(out@.push(x)));
                slot2 = slot2.update(k as int, out.len() as int);
                origin = origin.push(k as int);
            }
            out.push(x);
        } else {
            proof {
                slot2 = slot2.update(k as int, out.len() - 1);
            }
        }
        k = k + 1;
    }
    proof {
        assert forall|x: (u32, u32)| out@.contains(x) implies active_coordinates(
            input,
            active@,
        ).contains(x) by {
            let j = choose|j: int| 0 <= j < out.len() && out@[j] == x;
            let k = origin[j];
            let b = pos[k];
            let r = rows_of[b];
            assert(row_coordinate(input, r) == x);
        }
        assert forall|x: (u32, u32)| active_coordinates(input, active@).contains(x) implies out@.contains(
            x,
        ) by {
            let r = choose|r: int| 0 <= r < active@.len() && active@[r] && #[trigger] row_coordinate(input, r) == x;
            let b = slot_of[r];
            assert(hit(pos, before.len() as int, b));
            let k = choose|k: int| 0 <= k < before.len() && #[trigger] pos[k] == b;
            assert(sorted[k] == before[b]);
            assert(out@[slot2[k]] == x);
        }
    }
    Ok(out)
}

proof fn lemma_coordinates_of_insert(set: Set<(u32, u32)>, e: (u32, u32), worker: int)
    requires
        set.finite(),
        !set.contains(e),
    ensures
        coordinates_of(set, worker).finite(),
        coordinates_of(set.insert(e), worker).len() == coordinates_of(set, worker).len() + if e.0
            == worker {
            1int
        } else {
            0int
        },
{
    let before = coordinates_of(set, worker);
    let after = coordinates_of(set.insert(e), worker);
    vstd::set_lib::lemma_len_subset(before, set);
    if e.0 == worker {
        assert(after =~= before.insert(e));
    } else {
        assert(after =~= before);
    }
}

/// For each worker, the number of distinct firms at which it has active rows.
pub fn distinct_firm_counts<I: InterruptCheck>(
    input: &CanonicalInput,
    active: &Vec<bool>,
    interrupt: &mut I,
) -> (r: Result<Vec<usize>>)
    requires
        active.len() <= input.spec_worker().len(),
    ensures
        r matches Ok(c) ==> c.len() == input.spec_workers() && forall|w: int|
            0 <= w < input.spec_workers() ==> #[trigger] c@[w] == distinct_firms(input, active@, w),
        old(interrupt).inert() ==> final(interrupt).inert(),
        old(interrupt).inert() ==> (r matches Err(e) ==> machine_error(e)),
        old(interrupt).inert() && active.len() <= INTERRUPTIBLE_SORT_RUN ==> r is Ok,
{
    proof {
        use_type_invariant(input);
    }
    let ghost inert0 = interrupt.inert();
    let coordinates = sorted_coordinates(input, active, interrupt, "graph_distinct_firms")?;
    let ghost set = active_coordinates(input, active@);
    let workers = input.workers();
    proof {
        assert forall|k: int| 0 <= k < coordinates.len() implies #[trigger] coordinates@[k].0
            < workers by {
            assert(coordinates@.contains(coordinates@[k]));
            assert(set.contains(coordinates@[k]));
            let r = choose|r: int| 0 <= r < active@.len() && active@[r] && #[trigger] row_coordinate(input, r) == coordinates@[k];
        }
    }
    let mut counts: Vec<usize> = Vec::new();
    let mut w: usize = 0;
    while w < workers
        invariant
            w <= workers,
            counts.len() == w,
            forall|v: int| 0 <= v < w ==> #[trigger] counts@[v] == 0,
        decreases workers - w,
    {
        counts.push(0);
        w = w + 1;
    }
    let m = coordinates.len();
    proof {
        assert(coordinates@.take(0).to_set() =~= Set::<(u32, u32)>::empty());
        assert forall|v: int| 0 <= v < workers implies #[trigger] counts@[v] == coordinates_of(
            coordinates@.take(0).to_set(),
            v,
        ).len() by {
            assert(coordinates_of(coordinates@.take(0).to_set(), v) =~= Set::<(u32, u32)>::empty());
        }
    }
    let mut k: usize = 0;
    while k < m
        invariant
            m == coordinates.len(),
            workers == input.spec_workers(),
            counts.len() == workers,
            k <= m,
            strictly_increasing(coordinates@),
            forall|j: int| 0 <= j < m ==> #[trigger] coordinates@[j].0 < workers,
            coordinates@.take(k as int).to_set().finite(),
            forall|v: int|
                0 <= v < workers ==> #[trigger] counts@[v] == coordinates_of(
                    coordinates@.take(k as int).to_set(),
                    v,
                ).len() && counts@[v] <= k,
            inert0 == old(interrupt).inert(),
            inert0 ==> interrupt.inert(),
        decreases m - k,
    {
        match checkpoint_chunk(interrupt, k, "graph_distinct_firm_consume") {
            Ok(()) => {},
            Err(e) => {
                return Err(e);
            },
        }
        let worker = coordinates[k].0 as usize;
        let ghost prefix = coordinates@.take(k as int).to_set();
        let e = coordinates[k];
        proof {
            assert(coordinates@.take(k + 1) =~= coordinates@.take(k as int).push(e));
            assert(coordinates@.take(k + 1).to_set() =~= prefix.insert(e)) by {
                assert forall|x: (u32, u32)| coordinates@.take(k + 1).to_set().contains(x) <==> prefix.insert(e).contains(x) by {
                    if coordinates@.take(k + 1).to_set().contains(x) {
                        let j = choose|j: int| 0 <= j < k + 1 && #[trigger] coordinates@.take(k + 1)[j] == x;
                        if j < k {
                            assert(coordinates@.take(k as int)[j] == x);
                        }
                    }
                    if prefix.contains(x) {
                        let j = choose|j: int| 0 <= j < k && #[trigger] coordinates@.take(k as int)[j] == x;
                        assert(coordinates@.take(k + 1)[j] == x);
                    }
                    if x == e {
                        assert(coordinates@.take(k + 1)[k as int] == x);
                    }
                }
            }
            assert(!prefix.contains(e)) by {
                if prefix.contains(e) {
                    let j = choose|j: int| 0 <= j < k && #[trigger] coordinates@.take(k as int)[j] == e;
                    assert(coordinates@[j] != coordinates@[k as int]);
                }
            }
            assert forall|v: int| 0 <= v < workers implies coordinates_of(prefix.insert(e), v).len()
                == coordinates_of(prefix, v).len() + (if e.0 == v { 1int } else { 0int }) by {
                lemma_coordinates_of_insert(prefix, e, v);
            }
        }
        let updated = counts[worker] + 1;
        counts.set(worker, updated);
        k = k + 1;
    }
    proof {
        assert(coordinates@.take(m as int) =~= coordinates@);
        assert(coordinates@.to_set() =~= set) by {
            assert forall|x: (u32, u32)| coordinates@.to_set().contains(x) <==> set.contains(x) by {
                if set.contains(x) {
                    assert(coordinates@.contains(x));
                }
            }
        }
    }
    Ok(counts)
}

proof fn lemma_worker_mass_bounded(input: &CanonicalInput, active: Seq<bool>, worker: int, k: int)
    requires
        0 <= k <= active.len(),
        active.len() == input.spec_worker().len(),
        input.wf(),
    ensures
        0 <= worker_mass_prefix(input, active, worker, k) <= crate::problem::mass_prefix(
            input.spec_frequency(),
            k,
        ),
    decreases k,
{
    if k > 0 {
        lemma_worker_mass_bounded(input, active, worker, k - 1);
    }
}

/// For each worker, the physical mass of its active rows.
pub fn worker_physical_counts<I: InterruptCheck>(
    input: &CanonicalInput,
    active: &Vec<bool>,
    interrupt: &mut I,
) -> (r: Result<Vec<u64>>)
    ensures
        r is Ok ==> active.len() == input.spec_worker().len() && count_true_spec(active@) > 0,
        r matches Ok(c) ==> c.len() == input.spec_workers() && forall|w: int|
            0 <= w < input.spec_workers() ==> #[trigger] c@[w] == worker_mass(input, active@, w),
        old(interrupt).inert() ==> final(interrupt).inert() && (r is Ok <==> (active.len()
            == input.spec_worker().len() && count_true_spec(active@) > 0)),
        old(interrupt).inert() && active.len() == input.spec_worker().len() ==> (r matches Err(e)
            ==> e.code == ErrorCode::GraphEmpty),
{
    proof {
        use_type_invariant(input);
    }
    let ghost inert0 = interrupt.inert();
    validate_mask(input, active, interrupt)?;
    let workers = input.workers();
    let mut counts: Vec<u64> = Vec::new();
    let mut w: usize = 0;
    while w < workers
        invariant
            w <= workers,
            counts.len() == w,
            forall|v: int| 0 <= v < w ==> #[trigger] counts@[v] == 0,
        decreases workers - w,
    {
        counts.push(0);
        w = w + 1;
    }
    let n = active.len();
    let mut row: usize = 0;
    while row < n
        invariant
            n == active.len(),
            n == input.spec_worker().len(),
            input.wf(),
            workers == input.spec_workers(),
            counts.len() == workers,
            row <= n,
            forall|v: int|
                0 <= v < workers ==> #[trigger] counts@[v] == worker_mass_prefix(
                    input,
                    active@,
                    v,
                    row as int,
                ),
            inert0 == old(interrupt).inert(),
            inert0 ==> interrupt.inert(),
        decreases n - row,
    {
        match checkpoint_chunk(interrupt, row, "graph_observation_physical_count") {
            Ok(()) => {},
            Err(e) => {
                return Err(e);
            },
        }
        if active[row] {
            let worker = input.worker_at(row) as usize;
            let frequency = input.frequency_at(row);
            proof {
                lemma_worker_mass_bounded(input, active@, worker as int, row + 1);
                crate::problem::lemma_mass_prefix_monotone(input.spec_frequency(), row + 1, n as int);
            }
            let updated = match counts[worker].checked_add(frequency) {
                Some(v) => v,
                None => {
                    return Err(counter_overflow("worker physical mass"));
                },
            };
            counts.set(worker, updated);
        }
        row = row + 1;
    }
    Ok(counts)
}

/// The set of deletion units flagged as bridges.
pub fn bridge_deletion_set<I: InterruptCheck>(
    bridges: &Vec<u32>,
    interrupt: &mut I,
) -> (r: Result<BTreeSet<u32>>)
    ensures
        r matches Ok(s) ==> s@ == bridges@.to_set(),
        old(interrupt).inert() ==> r is Ok && final(interrupt).inert(),
        r matches Err(e) ==> refused_at(&*final(interrupt), "graph_bridge_set", e),
{
    let ghost inert0 = interrupt.inert();
    let mut bridge_set: BTreeSet<u32> = BTreeSet::new();
    let mut index: usize = 0;
    while index < bridges.len()
        invariant
            index <= bridges.len(),
            bridge_set@ == bridges@.take(index as int).to_set(),
            inert0 == old(interrupt).inert(),
            inert0 ==> interrupt.inert(),
        decreases bridges.len() - index,
    {
        let ghost before = *interrupt;
        match checkpoint_chunk(interrupt, index, "graph_bridge_set") {
            Ok(()) => {},
            Err(e) => {
                proof {
                    assert(before.checkpoint_outcome(&*interrupt, "graph_bridge_set", Err(e)));
                }
                return Err(e);
            },
        }
        proof {
            assert(bridges@.take(index + 1) =~= bridges@.take(index as int).push(bridges@[index as int]));
            bridges@.take(index as int).lemma_push_to_set_commute(bridges@[index as int]);
        }
        bridge_set.insert(bridges[index]);
        index = index + 1;
    }
    proof {
        assert(bridges@.take(bridges.len() as int) =~= bridges@);
    }
    Ok(bridge_set)
}

/// Lexicographic order on (firm count, physical mass) component ranks.
pub open spec fn rank_le(a: (usize, u64), b: (usize, u64)) -> bool {
    a.0 < b.0 || (a.0 == b.0 && a.1 <= b.1)
}

/// The lexicographically largest (firm count, physical mass) pair, if any.
pub fn maximum_component_rank<I: InterruptCheck>(
    firms: &Vec<usize>,
    mass: &Vec<u64>,
    interrupt: &mut I,
) -> (r: Result<Option<(usize, u64)>>)
    requires
        firms.len() == mass.len(),
    ensures
        r matches Ok(None) ==> firms.len() == 0,
        r matches Ok(Some(m)) ==> (exists|i: int|
            0 <= i < firms.len() && #[trigger] firms@[i] == m.0 && mass@[i] == m.1) && forall|i: int|
            0 <= i < firms.len() ==> rank_le((#[trigger] firms@[i], mass@[i]), m),
        r is Ok && firms.len() > 0 ==> r matches Ok(Some(_)),
        old(interrupt).inert() ==> r is Ok && final(interrupt).inert(),
        r matches Err(e) ==> refused_at(&*final(interrupt), "graph_component_max", e),
{
    let ghost inert0 = interrupt.inert();
    let mut maximum: Option<(usize, u64)> = None;
    let mut component: usize = 0;
    while component < firms.len()
        invariant
            firms.len() == mass.len(),
            component <= firms.len(),
            component == 0 <==> maximum is None,
            maximum matches Some(m) ==> (exists|i: int|
                0 <= i < component && #[trigger] firms@[i] == m.0 && mass@[i] == m.1) && forall|i: int|
                0 <= i < component ==> rank_le((#[trigger] firms@[i], mass@[i]), m),
            inert0 == old(interrupt).inert(),
            inert0 ==> interrupt.inert(),
        decreases firms.len() - component,
    {
        let ghost before = *interrupt;
        match checkpoint_chunk(interrupt, component, "graph_component_max") {
            Ok(()) => {},
            Err(e) => {
                proof {
                    assert(before.checkpoint_outcome(&*interrupt, "graph_component_max", Err(e)));
                }
                return Err(e);
            },
        }
        let rank = (firms[component], mass[component]);
        maximum = match maximum {
            None => Some(rank),
            Some(current) => {
                if current.0 < rank.0 || (current.0 == rank.0 && current.1 < rank.1) {
                    Some(rank)
                } else {
                    Some(current)
                }
            },
        };
        component = component + 1;
    }
    Ok(maximum)
}

/// The set of deletion units of the active rows.
pub fn active_deletion_ids<I: InterruptCheck>(
    input: &CanonicalInput,
    active: &Vec<bool>,
    interrupt: &mut I,
) -> (r: Result<BTreeSet<u32>>)
    requires
        active.len() <= input.spec_worker().len(),
    ensures
        r matches Ok(s) ==> s@ == active_deletions(input, active@),
        old(interrupt).inert() ==> r is Ok && final(interrupt).inert(),
{
    proof {
        use_type_invariant(input);
    }
    let ghost inert0 = interrupt.inert();
    let mut output: BTreeSet<u32> = BTreeSet::new();
    let n = active.len();
    let mut row: usize = 0;
    while row < n
        invariant
            n == active.len(),
            n <= input.spec_worker().len(),
            row <= n,
            forall|d: u32|
                output@.contains(d) <==> exists|q: int|
                    0 <= q < row && active@[q] && #[trigger] input.spec_deletion()[q] == d,
            inert0 == old(interrupt).inert(),
            inert0 ==> interrupt.inert(),
        decreases n - row,
    {
        match checkpoint_chunk(interrupt, row, "graph_active_deletions") {
            Ok(()) => {},
            Err(e) => {
                return Err(e);
            },
        }
        if active[row] {
            output.insert(input.deletion_at(row));
        }
        row = row + 1;
    }
    proof {
        assert(output@ =~= active_deletions(input, active@));
    }
    Ok(output)
}

/// An arc of the bipartite worker-firm graph: the far endpoint and the edge id.
#[derive(Clone, Copy, Debug)]
pub struct Arc {
    pub to: usize,
    pub edge: usize,
}

/// An undirected multigraph as adjacency lists; workers are nodes
/// `0..workers`, firm `f` is node `workers + f`.
#[derive(Clone, Debug)]
pub struct Graph {
    pub adjacency: Vec<Vec<Arc>>,
    pub edges: usize,
}

/// Every arc points at an existing node and carries an existing edge id.
pub open spec fn graph_wf(g: &Graph) -> bool {
    forall|v: int, i: int|
        0 <= v < g.adjacency@.len() && 0 <= i < g.adjacency@[v]@.len() ==> {
            &&& #[trigger] g.adjacency@[v]@[i].to < g.adjacency@.len()
            &&& g.adjacency@[v]@[i].edge < g.edges
        }
}

/// Node `u` has an arc to node `v`.
pub open spec fn linked(g: &Graph, u: int, v: int) -> bool {
    exists|i: int| 0 <= i < g.adjacency@[u]@.len() && #[trigger] g.adjacency@[u]@[i].to == v
}

/// Coordinate `c` joins nodes `u` and `v` (in either direction).
pub open spec fn joins(c: (u32, u32), workers: int, u: int, v: int) -> bool {
    (c.0 == u && workers + c.1 == v) || (c.0 == v && workers + c.1 == u)
}

/// Nodes `u` and `v` are joined by an active coordinate.
pub open spec fn coordinate_link(input: &CanonicalInput, active: Seq<bool>, u: int, v: int) -> bool {
    exists|c: (u32, u32)|
        active_coordinates(input, active).contains(c) && #[trigger] joins(
            c,
            input.spec_workers() as int,
            u,
            v,
        )
}

/// Appends an arc to one adjacency list with `Vec::push`; the other lists are untouched.
#[verifier::external_body]
pub(crate) fn push_arc(adjacency: &mut Vec<Vec<Arc>>, node: usize, arc: Arc)
    requires
        node < old(adjacency).len(),
    ensures
        final(adjacency).len() == old(adjacency).len(),
        final(adjacency)@[node as int]@ == old(adjacency)@[node as int]@.push(arc),
        forall|v: int|
            0 <= v < old(adjacency).len() && v != node ==> #[trigger] final(adjacency)@[v]
                == old(adjacency)@[v],
{
    adjacency[node].push(arc);
}

/// Lexicographic (target, edge) order on arcs.
pub open spec fn arc_le(a: Arc, b: Arc) -> bool {
    a.to < b.to || (a.to == b.to && a.edge <= b.edge)
}

/// The (target, edge) order on arcs as a relation.
pub open spec fn arc_order() -> spec_fn(Arc, Arc) -> bool {
    |a: Arc, b: Arc| arc_le(a, b)
}

/// Every list is sorted by (target node, edge id).
#[verifier::opaque]
pub open spec fn adjacency_sorted(lists: Seq<Vec<Arc>>) -> bool {
    forall|v: int| 0 <= v < lists.len() ==> sorted_by(arc_order(), #[trigger] lists[v]@)
}

/// Every list is short enough to be sorted in one uninterrupted run.
#[verifier::opaque]
pub open spec fn lists_fit_one_run(lists: Seq<Vec<Arc>>) -> bool {
    forall|v: int| 0 <= v < lists.len() ==> (#[trigger] lists[v]@).len() <= INTERRUPTIBLE_SORT_RUN
}

/// Sorts every adjacency list by (target node, edge id); each list keeps its arcs.
pub(crate) fn sort_adjacency<I: InterruptCheck>(
    adjacency: &mut Vec<Vec<Arc>>,
    interrupt: &mut I,
    node_phase: &'static str,
    sort_phase: &'static str,
) -> (r: Result<()>)
    ensures
        final(adjacency).len() == old(adjacency).len(),
        r is Ok ==> adjacency_sorted(final(adjacency)@),
        old(interrupt).inert() && lists_fit_one_run(old(adjacency)@) ==> r is Ok,
        forall|v: int| 0 <= v < old(adjacency).len() ==> (#[trigger] final(adjacency)@[v]@).len() == old(adjacency)@[v]@.len(),
        forall|v: int, x: Arc|
            0 <= v < old(adjacency).len() ==> (#[trigger] final(adjacency)@[v]@.contains(x)
                <==> old(adjacency)@[v]@.contains(x)),
        old(interrupt).inert() ==> final(interrupt).inert(),
        old(interrupt).inert() ==> (r matches Err(e) ==> machine_error(e)),
{
    let ghost inert0 = interrupt.inert();
    let order = |a: &Arc, b: &Arc| -> (p: Precedence)
        ensures
            p == precedence_of(arc_le(*a, *b), arc_le(*b, *a)),
        {
            if a.to < b.to || (a.to == b.to && a.edge < b.edge) {
                Precedence::Before
            } else if a.to == b.to && a.edge == b.edge {
                Precedence::Tied
            } else {
                Precedence::After
            }
        };
    let ghost le = arc_order();
    proof {
        assert forall|a: &Arc, b: &Arc| #[trigger] order.requires((a, b)) by {}
        assert(decides(order, le));
        assert(total_preorder(le));
    }
    let n = adjacency.len();
    let ghost original = adjacency@;
    let ghost small = lists_fit_one_run(original);
    proof {
        reveal(lists_fit_one_run);
    }
    let mut node: usize = 0;
    while node < n
        invariant
            n == adjacency.len(),
            n == original.len(),
            original == old(adjacency)@,
            node <= n,
            decides(order, le),
            total_preorder(le),
            forall|v: int| 0 <= v < n ==> (#[trigger] adjacency@[v]@).len() == original[v]@.len(),
            forall|v: int, x: Arc|
                0 <= v < n ==> (#[trigger] adjacency@[v]@.contains(x) <==> original[v]@.contains(x)),
            inert0 == old(interrupt).inert(),
            inert0 ==> interrupt.inert(),
            le == arc_order(),
            forall|v: int| node <= v < n ==> #[trigger] adjacency@[v] == original[v],
            forall|v: int| 0 <= v < node ==> sorted_by(le, #[trigger] adjacency@[v]@),
            small == lists_fit_one_run(original),
            small ==> forall|v: int| 0 <= v < n ==> (#[trigger] original[v]@).len() <= INTERRUPTIBLE_SORT_RUN,
        decreases n - node,
    {
        match checkpoint_chunk(interrupt, node, node_phase) {
            Ok(()) => {},
            Err(e) => {
                return Err(e);
            },
        }
        let mut arcs: Vec<Arc> = adjacency[node].clone();
        proof {
            assert(arcs@ =~= adjacency@[node as int]@);
        }
        let ghost before = arcs@;
        sort_by_precedence(&mut arcs, &order, true, interrupt, sort_phase, Ghost(le))?;
        proof {
            let pos = choose|pos: Seq<int>| sorts(le, true, arcs@, before, pos);
            lemma_injective_onto(pos, before.len() as int);
            assert forall|x: Arc| arcs@.contains(x) <==> before.contains(x) by {
                if arcs@.contains(x) {
                    let k = choose|k: int| 0 <= k < arcs@.len() && arcs@[k] == x;
                    assert(before[pos[k]] == x);
                }
                if before.contains(x) {
                    let b = choose|b: int| 0 <= b < before.len() && before[b] == x;
                    assert(hit(pos, before.len() as int, b));
                    let k = choose|k: int| 0 <= k < before.len() && #[trigger] pos[k] == b;
                    assert(arcs@[k] == x);
                }
            }
        }
        let ghost a_old = adjacency@;
        adjacency.set(node, arcs);
        proof {
            assert forall|v: int, x: Arc| 0 <= v < n implies (#[trigger] adjacency@[v]@.contains(x)
                <==> original[v]@.contains(x)) by {
                if v == node {
                    assert(a_old[v]@.contains(x) <==> original[v]@.contains(x));
                    assert(a_old[v]@ == before);
                } else {
                    assert(adjacency@[v] == a_old[v]);
                    assert(a_old[v]@.contains(x) <==> original[v]@.contains(x));
                }
            }
            assert(before == original[node as int]@);
            assert forall|v: int| 0 <= v < node + 1 implies sorted_by(le, #[trigger] adjacency@[v]@) by {
                if v == node {
                    assert(adjacency@[v]@ == arcs@);
                } else {
                    assert(adjacency@[v] == a_old[v]);
                }
            }
        }
        node = node + 1;
    }
    proof {
        reveal(adjacency_sorted);
    }
    Ok(())
}

/// The bipartite graph of the active worker-firm coordinates, one edge per
/// distinct coordinate.
#[verifier::spinoff_prover]
#[verifier::rlimit(40)]
pub fn coordinate_graph<I: InterruptCheck>(
    input: &CanonicalInput,
    active: &Vec<bool>,
    interrupt: &mut I,
) -> (r: Result<Graph>)
    ensures
        r is Ok ==> active.len() == input.spec_worker().len() && count_true_spec(active@) > 0,
        r matches Ok(g) ==> {
            &&& g.adjacency.len() == input.spec_workers() + input.spec_firms()
            &&& graph_wf(&g)
            &&& crate::graph::walks::undirected(&g)
            &&& crate::graph::walks::edge_ends_fixed(&g)
            &&& g.edges == active_coordinates(input, active@).len()
            &&& forall|u: int, v: int|
                0 <= u < g.adjacency.len() ==> (#[trigger] linked(&g, u, v) <==> coordinate_link(
                    input,
                    active@,
                    u,
                    v,
                ))
        },
        old(interrupt).inert() ==> final(interrupt).inert(),
        old(interrupt).inert() && active.len() == input.spec_worker().len() && count_true_spec(
            active@,
        ) > 0 ==> (r matches Err(e) ==> machine_error(e)),
        old(interrupt).inert() && !(active.len() == input.spec_worker().len() && count_true_spec(
            active@,
        ) > 0) ==> r is Err,
        old(interrupt).inert() && active.len() == input.spec_worker().len() ==> (r matches Err(e)
            ==> machine_error(e) || e.code == ErrorCode::GraphEmpty),
        old(interrupt).inert() && active.len() <= INTERRUPTIBLE_SORT_RUN ==> (r matches Err(e)
            ==> !machine_error(e)),
{
    proof {
        use_type_invariant(input);
    }
    let ghost inert0 = interrupt.inert();
    validate_mask(input, active, interrupt)?;
    let coordinates = sorted_coordinates(input, active, interrupt, "graph_coordinate_collect")?;
    let ghost set = active_coordinates(input, active@);
    let workers = input.workers();
    let nodes = workers + input.firms();
    proof {
        assert forall|k: int| 0 <= k < coordinates.len() implies #[trigger] coordinates@[k].0
            < workers && workers + coordinates@[k].1 < nodes by {
            assert(coordinates@.contains(coordinates@[k]));
            assert(set.contains(coordinates@[k]));
            let r = choose|r: int| 0 <= r < active@.len() && active@[r] && #[trigger] row_coordinate(input, r) == coordinates@[k];
        }
    }
    let mut adjacency: Vec<Vec<Arc>> = Vec::new();
    let mut node: usize = 0;
    while node < nodes
        invariant
            node <= nodes,
            adjacency.len() == node,
            forall|v: int| 0 <= v < node ==> (#[trigger] adjacency@[v]@).len() == 0,
        decreases nodes - node,
    {
        adjacency.push(Vec::new());
        node = node + 1;
    }
    let m = coordinates.len();
    let mut edge: usize = 0;
    while edge < m
        invariant
            m == coordinates.len(),
            nodes == adjacency.len(),
            workers == input.spec_workers(),
            nodes == workers + input.spec_firms(),
            edge <= m,
            m <= active.len(),
            forall|v: int| 0 <= v < nodes ==> (#[trigger] adjacency@[v]@).len() <= edge,
            forall|k: int| 0 <= k < m ==> #[trigger] coordinates@[k].0 < workers && workers
                + coordinates@[k].1 < nodes,
            forall|v: int, i: int|
                0 <= v < nodes && 0 <= i < adjacency@[v]@.len() ==> {
                    &&& #[trigger] adjacency@[v]@[i].edge < edge
                    &&& joins(coordinates@[adjacency@[v]@[i].edge as int], workers as int, v, adjacency@[v]@[i].to as int)
                },
            forall|k: int|
                0 <= k < edge ==> {
                    &&& adjacency@[coordinates@[k].0 as int]@.contains(
                        Arc { to: (workers + coordinates@[k].1) as usize, edge: k as usize },
                    )
                    &&& adjacency@[workers + coordinates@[k].1]@.contains(
                        Arc { to: coordinates@[k].0 as usize, edge: k as usize },
                    )
                },
            inert0 == old(interrupt).inert(),
            inert0 ==> interrupt.inert(),
        decreases m - edge,
    {
        match checkpoint_chunk(interrupt, edge, "graph_coordinate_edges") {
            Ok(()) => {},
            Err(e) => {
                return Err(e);
            },
        }
        let coordinate = coordinates[edge];
        let worker_node = coordinate.0 as usize;
        let firm_node = workers + coordinate.1 as usize;
        let ghost a0 = adjacency@;
        push_arc(&mut adjacency, worker_node, Arc { to: firm_node, edge });
        let ghost a1 = adjacency@;
        push_arc(&mut adjacency, firm_node, Arc { to: worker_node, edge });
        proof {
            assert forall|k: int| 0 <= k < edge + 1 implies {
                &&& adjacency@[coordinates@[k].0 as int]@.contains(
                    Arc { to: (workers + coordinates@[k].1) as usize, edge: k as usize },
                )
                &&& adjacency@[workers + coordinates@[k].1]@.contains(
                    Arc { to: coordinates@[k].0 as usize, edge: k as usize },
                )
            } by {
                let wn = coordinates@[k].0 as int;
                let fn_ = workers + coordinates@[k].1;
                if k < edge {
                    let x = Arc { to: (workers + coordinates@[k].1) as usize, edge: k as usize };
                    let i = choose|i: int| 0 <= i < a0[wn]@.len() && a0[wn]@[i] == x;
                    if wn == worker_node {
                        assert(a1[wn]@[i] == x);
                    }
                    assert(a1[wn]@.contains(x));
                    if wn == firm_node {
                        assert(adjacency@[wn]@[i] == x);
                    }
                    assert(adjacency@[wn]@.contains(x));
                    let y = Arc { to: coordinates@[k].0 as usize, edge: k as usize };
                    let j = choose|j: int| 0 <= j < a0[fn_]@.len() && a0[fn_]@[j] == y;
                    if fn_ == worker_node {
                        assert(a1[fn_]@[j] == y);
                    }
                    assert(a1[fn_]@.contains(y));
                    if fn_ == firm_node {
                        assert(adjacency@[fn_]@[j] == y);
                    }
                    assert(adjacency@[fn_]@.contains(y));
                } else {
                    let x = Arc { to: firm_node, edge };
                    assert(a1[wn]@[a1[wn]@.len() - 1] == x);
                    assert(a1[wn]@.contains(x));
                    assert(adjacency@[wn]@[a1[wn]@.len() - 1] == x);
                    assert(adjacency@[wn]@.contains(x));
                    let y = Arc { to: worker_node, edge };
                    assert(adjacency@[fn_]@[adjacency@[fn_]@.len() - 1] == y);
                    assert(adjacency@[fn_]@.contains(y));
                }
            }
        }
        edge = edge + 1;
    }
    let ghost unsorted = adjacency@;
    proof {
        reveal(lists_fit_one_run);
    }
    sort_adjacency(&mut adjacency, interrupt, "graph_coordinate_adjacency", "graph_coordinate_sort")?;
    let graph = Graph { adjacency, edges: m };
    proof {
        coordinates@.unique_seq_to_set();
        assert(coordinates@.no_duplicates()) by {
            assert forall|i: int, j: int| 0 <= i < coordinates@.len() && 0 <= j < coordinates@.len() && i != j implies coordinates@[i] != coordinates@[j] by {
                if i < j {
                    assert(coordinates@[i] != coordinates@[j]);
                } else {
                    assert(coordinates@[j] != coordinates@[i]);
                }
            }
        }
        coordinates@.unique_seq_to_set();
        assert(coordinates@.to_set() =~= set);
        assert(graph_wf(&graph)) by {
            assert forall|v: int, i: int|
                0 <= v < graph.adjacency@.len() && 0 <= i < graph.adjacency@[v]@.len() implies {
                    &&& #[trigger] graph.adjacency@[v]@[i].to < graph.adjacency@.len()
                    &&& graph.adjacency@[v]@[i].edge < graph.edges
                } by {
                let x = graph.adjacency@[v]@[i];
                assert(graph.adjacency@[v]@.contains(x));
                assert(unsorted[v]@.contains(x));
                let j = choose|j: int| 0 <= j < unsorted[v]@.len() && unsorted[v]@[j] == x;
                let c = coordinates@[x.edge as int];
                assert(joins(c, workers as int, v, x.to as int));
            }
        }
        lemma_sorted_coordinate_shape(&graph, unsorted, coordinates@, workers as int);
        assert forall|u: int, v: int|
            0 <= u < graph.adjacency.len() implies (#[trigger] linked(&graph, u, v) <==> coordinate_link(
                input,
                active@,
                u,
                v,
            )) by {
            if linked(&graph, u, v) {
                let i = choose|i: int| 0 <= i < graph.adjacency@[u]@.len() && #[trigger] graph.adjacency@[u]@[i].to == v;
                let x = graph.adjacency@[u]@[i];
                assert(graph.adjacency@[u]@.contains(x));
                assert(unsorted[u]@.contains(x));
                let j = choose|j: int| 0 <= j < unsorted[u]@.len() && unsorted[u]@[j] == x;
                let c = coordinates@[x.edge as int];
                assert(coordinates@.contains(c));
                assert(joins(c, workers as int, u, v));
            }
            if coordinate_link(input, active@, u, v) {
                let c = choose|c: (u32, u32)| set.contains(c) && #[trigger] joins(c, workers as int, u, v);
                assert(coordinates@.contains(c));
                let k = choose|k: int| 0 <= k < coordinates@.len() && coordinates@[k] == c;
                if c.0 == u && workers + c.1 == v {
                    let x = Arc { to: (workers + c.1) as usize, edge: k as usize };
                    assert(unsorted[u]@.contains(x));
                    assert(graph.adjacency@[u]@.contains(x));
                    let i = choose|i: int| 0 <= i < graph.adjacency@[u]@.len() && graph.adjacency@[u]@[i] == x;
                    assert(graph.adjacency@[u]@[i].to == v);
                } else {
                    let x = Arc { to: c.0 as usize, edge: k as usize };
                    assert(unsorted[u]@.contains(x));
                    assert(graph.adjacency@[u]@.contains(x));
                    let i = choose|i: int| 0 <= i < graph.adjacency@[u]@.len() && graph.adjacency@[u]@[i] == x;
                    assert(graph.adjacency@[u]@[i].to == v);
                }
            }
        }
    }
    Ok(graph)
}

/// Sorting the adjacency lists of a coordinate graph keeps it undirected with
/// edge ids that fix their ends.
proof fn lemma_sorted_coordinate_shape(g: &Graph, unsorted: Seq<Vec<Arc>>, coords: Seq<(u32, u32)>, workers: int)
    requires
        g.edges == coords.len(),
        g.adjacency@.len() == unsorted.len(),
        forall|v: int, x: Arc| 0 <= v < unsorted.len() ==> (#[trigger] g.adjacency@[v]@.contains(x) <==> unsorted[v]@.contains(x)),
        forall|k: int| 0 <= k < coords.len() ==> #[trigger] coords[k].0 < workers && workers + coords[k].1
            < unsorted.len(),
        forall|v: int, i: int|
            0 <= v < unsorted.len() && 0 <= i < unsorted[v]@.len() ==> {
                &&& #[trigger] unsorted[v]@[i].edge < coords.len()
                &&& joins(coords[unsorted[v]@[i].edge as int], workers, v, unsorted[v]@[i].to as int)
            },
        forall|k: int|
            0 <= k < coords.len() ==> {
                &&& unsorted[coords[k].0 as int]@.contains(
                    Arc { to: (workers + coords[k].1) as usize, edge: k as usize },
                )
                &&& unsorted[workers + coords[k].1]@.contains(
                    Arc { to: coords[k].0 as usize, edge: k as usize },
                )
            },
    ensures
        crate::graph::walks::undirected(g),
        crate::graph::walks::edge_ends_fixed(g),
{
    assert forall|v: int, i: int|
        0 <= v < g.adjacency@.len() && 0 <= i < g.adjacency@[v]@.len() implies {
            &&& (#[trigger] g.adjacency@[v]@[i]).edge < coords.len()
            &&& joins(coords[g.adjacency@[v]@[i].edge as int], workers, v, g.adjacency@[v]@[i].to as int)
        } by {
        let x = g.adjacency@[v]@[i];
        assert(g.adjacency@[v]@.contains(x));
        assert(unsorted[v]@.contains(x));
        let j = choose|j: int| 0 <= j < unsorted[v]@.len() && unsorted[v]@[j] == x;
        let _ = unsorted[v]@[j];
    }
    assert forall|k: int| 0 <= k < coords.len() implies {
        &&& g.adjacency@[coords[k].0 as int]@.contains(
            Arc { to: (workers + coords[k].1) as usize, edge: k as usize },
        )
        &&& g.adjacency@[workers + coords[k].1]@.contains(
            Arc { to: coords[k].0 as usize, edge: k as usize },
        )
    } by {
        let _ = coords[k];
    }
    lemma_coordinate_shape(g, coords, workers);
}

/// Lists whose arcs each join the two ends of their coordinate, with both
/// orientations of every coordinate listed, form an undirected multigraph
/// whose edge ids fix their ends.
proof fn lemma_coordinate_shape(g: &Graph, coords: Seq<(u32, u32)>, workers: int)
    requires
        g.edges == coords.len(),
        forall|k: int| 0 <= k < coords.len() ==> #[trigger] coords[k].0 < workers && workers + coords[k].1
            < g.adjacency@.len(),
        forall|v: int, i: int|
            0 <= v < g.adjacency@.len() && 0 <= i < g.adjacency@[v]@.len() ==> {
                &&& (#[trigger] g.adjacency@[v]@[i]).edge < coords.len()
                &&& joins(coords[g.adjacency@[v]@[i].edge as int], workers, v, g.adjacency@[v]@[i].to as int)
            },
        forall|k: int|
            0 <= k < coords.len() ==> {
                &&& g.adjacency@[coords[k].0 as int]@.contains(
                    Arc { to: (workers + coords[k].1) as usize, edge: k as usize },
                )
                &&& g.adjacency@[workers + coords[k].1]@.contains(
                    Arc { to: coords[k].0 as usize, edge: k as usize },
                )
            },
    ensures
        crate::graph::walks::undirected(g),
        crate::graph::walks::edge_ends_fixed(g),
{
    assert forall|a: int, i: int| 0 <= a < g.adjacency@.len() && 0 <= i < g.adjacency@[a]@.len() implies crate::graph::walks::has_arc(
        g,
        (#[trigger] g.adjacency@[a]@[i]).to as int,
        a,
        g.adjacency@[a]@[i].edge as int,
    ) by {
        let x = g.adjacency@[a]@[i];
        let k = x.edge as int;
        let c = coords[k];
        let w = c.0 as int;
        let f = workers + c.1;
        if a == w && x.to == f {
            let y = Arc { to: w as usize, edge: k as usize };
            let j = choose|j: int| 0 <= j < g.adjacency@[f]@.len() && g.adjacency@[f]@[j] == y;
            let _ = g.adjacency@[f]@[j];
        } else {
            let y = Arc { to: f as usize, edge: k as usize };
            let j = choose|j: int| 0 <= j < g.adjacency@[w]@.len() && g.adjacency@[w]@[j] == y;
            let _ = g.adjacency@[w]@[j];
        }
    }
    assert forall|a: int, i: int, b: int, j: int|
        0 <= a < g.adjacency@.len() && 0 <= i < g.adjacency@[a]@.len() && 0 <= b < g.adjacency@.len() && 0
            <= j < g.adjacency@[b]@.len() && (#[trigger] g.adjacency@[a]@[i]).edge == (#[trigger] g.adjacency@[b]@[j]).edge
        implies ((a == b && g.adjacency@[a]@[i].to == g.adjacency@[b]@[j].to) || (a == g.adjacency@[b]@[j].to
        && b == g.adjacency@[a]@[i].to)) by {
        let _ = coords[g.adjacency@[a]@[i].edge as int];
    }
}

/// `p` is a walk of the active coordinate graph.
pub open spec fn is_walk(input: &CanonicalInput, active: Seq<bool>, p: Seq<int>) -> bool {
    &&& p.len() >= 1
    &&& forall|i: int|
        0 <= i < p.len() - 1 ==> coordinate_link(input, active, #[trigger] p[i], p[i + 1])
}

/// Nodes `u` and `v` are connected in the active coordinate graph.
pub open spec fn connected(input: &CanonicalInput, active: Seq<bool>, u: int, v: int) -> bool {
    exists|p: Seq<int>| #[trigger] is_walk(input, active, p) && p[0] == u && p.last() == v
}

pub proof fn lemma_connected_refl(input: &CanonicalInput, active: Seq<bool>, u: int)
    ensures
        connected(input, active, u, u),
{
    let p = seq![u];
    assert(is_walk(input, active, p));
}

pub proof fn lemma_link_symmetric(input: &CanonicalInput, active: Seq<bool>, u: int, v: int)
    requires
        coordinate_link(input, active, u, v),
    ensures
        coordinate_link(input, active, v, u),
{
    let c = choose|c: (u32, u32)|
        active_coordinates(input, active).contains(c) && #[trigger] joins(
            c,
            input.spec_workers() as int,
            u,
            v,
        );
    assert(joins(c, input.spec_workers() as int, v, u));
}

pub proof fn lemma_connected_step(input: &CanonicalInput, active: Seq<bool>, u: int, v: int, w: int)
    requires
        connected(input, active, u, v),
        coordinate_link(input, active, v, w),
    ensures
        connected(input, active, u, w),
{
    let p = choose|p: Seq<int>| #[trigger] is_walk(input, active, p) && p[0] == u && p.last() == v;
    let q = p.push(w);
    assert forall|i: int| 0 <= i < q.len() - 1 implies coordinate_link(input, active, #[trigger] q[i], q[i + 1]) by {
        if i < p.len() - 1 {
            assert(q[i] == p[i] && q[i + 1] == p[i + 1]);
        }
    }
    assert(is_walk(input, active, q));
}

pub proof fn lemma_connected_symmetric(input: &CanonicalInput, active: Seq<bool>, u: int, v: int)
    requires
        connected(input, active, u, v),
    ensures
        connected(input, active, v, u),
{
    let p = choose|p: Seq<int>| #[trigger] is_walk(input, active, p) && p[0] == u && p.last() == v;
    let q = p.reverse();
    assert forall|i: int| 0 <= i < q.len() - 1 implies coordinate_link(input, active, #[trigger] q[i], q[i + 1]) by {
        let j = p.len() - 2 - i;
        assert(q[i] == p[j + 1]);
        assert(q[i + 1] == p[j]);
        assert(coordinate_link(input, active, p[j], p[j + 1]));
        lemma_link_symmetric(input, active, p[j], p[j + 1]);
    }
    assert(is_walk(input, active, q));
}

pub proof fn lemma_connected_transitive(input: &CanonicalInput, active: Seq<bool>, u: int, v: int, w: int)
    requires
        connected(input, active, u, v),
        connected(input, active, v, w),
    ensures
        connected(input, active, u, w),
{
    let p = choose|p: Seq<int>| #[trigger] is_walk(input, active, p) && p[0] == u && p.last() == v;
    let q = choose|q: Seq<int>| #[trigger] is_walk(input, active, q) && q[0] == v && q.last() == w;
    let r = p + q.drop_first();
    assert forall|i: int| 0 <= i < r.len() - 1 implies coordinate_link(input, active, #[trigger] r[i], r[i + 1]) by {
        if i < p.len() - 1 {
            assert(r[i] == p[i] && r[i + 1] == p[i + 1]);
        } else {
            let j = i - (p.len() - 1);
            assert(r[i] == q[j]);
            assert(r[i + 1] == q[j + 1]);
        }
    }
    assert(is_walk(input, active, r));
}

/// Converts a count to `u64`; every `usize` fits.
pub fn as_u64(value: usize, label: &str) -> (r: Result<u64>)
    ensures
        r == Ok::<u64, BackendError>(value as u64),
{
    Ok(value as u64)
}

/// The error for an overflowing receipt counter.
pub fn counter_overflow(label: &str) -> (e: BackendError)
    ensures
        e.code == ErrorCode::ResourceLimit,
        e.phase == "graph",
{
    BackendError::new(ErrorCode::ResourceLimit, "graph", "counter overflow")
}

/// The active coordinates form a finite set.
pub proof fn lemma_active_coordinates_finite(input: &CanonicalInput, a: Seq<bool>)
    ensures
        active_coordinates(input, a).finite(),
{
    let all = Seq::new(a.len(), |r: int| row_coordinate(input, r));
    vstd::seq_lib::seq_to_set_is_finite(all);
    assert(active_coordinates(input, a).subset_of(all.to_set())) by {
        assert forall|c: (u32, u32)| active_coordinates(input, a).contains(c) implies all.to_set().contains(c) by {
            let r = choose|r: int| 0 <= r < a.len() && a[r] && #[trigger] row_coordinate(input, r) == c;
            assert(all[r] == c);
        }
    }
    vstd::set_lib::lemma_len_subset(active_coordinates(input, a), all.to_set());
}

/// The active deletion units form a finite set.
pub proof fn lemma_active_deletions_finite(input: &CanonicalInput, a: Seq<bool>)
    ensures
        active_deletions(input, a).finite(),
        active_deletions(input, a).len() <= a.len(),
{
    let all = Seq::new(a.len(), |r: int| input.spec_deletion()[r]);
    vstd::seq_lib::seq_to_set_is_finite(all);
    assert(active_deletions(input, a).subset_of(all.to_set())) by {
        assert forall|d: u32| active_deletions(input, a).contains(d) implies all.to_set().contains(d) by {
            let r = choose|r: int| 0 <= r < a.len() && a[r] && #[trigger] input.spec_deletion()[r] == d;
            assert(all[r] == d);
        }
    }
    vstd::set_lib::lemma_len_subset(active_deletions(input, a), all.to_set());
    all.lemma_cardinality_of_set();
}

/// Every entry of `small` is set only where `large` is set.
pub open spec fn mask_within(small: Seq<bool>, large: Seq<bool>) -> bool {
    &&& small.len() == large.len()
    &&& forall|r: int| 0 <= r < small.len() && #[trigger] small[r] ==> large[r]
}

/// Fewer active rows give no more coordinates, deletion units, rows or mass.
pub proof fn lemma_mask_within(input: &CanonicalInput, small: Seq<bool>, large: Seq<bool>)
    requires
        mask_within(small, large),
        input.wf(),
        large.len() == input.spec_worker().len(),
    ensures
        active_coordinates(input, small).len() <= active_coordinates(input, large).len(),
        active_deletions(input, small).len() <= active_deletions(input, large).len(),
        count_true_spec(small) <= count_true_spec(large),
        active_mass_prefix(input, small, small.len() as int) <= active_mass_prefix(input, large, large.len() as int),
{
    lemma_active_coordinates_finite(input, large);
    lemma_active_deletions_finite(input, large);
    assert(active_coordinates(input, small).subset_of(active_coordinates(input, large))) by {
        assert forall|c: (u32, u32)| active_coordinates(input, small).contains(c) implies active_coordinates(input, large).contains(c) by {
            let r = choose|r: int| 0 <= r < small.len() && small[r] && #[trigger] row_coordinate(input, r) == c;
        }
    }
    assert(active_deletions(input, small).subset_of(active_deletions(input, large))) by {
        assert forall|d: u32| active_deletions(input, small).contains(d) implies active_deletions(input, large).contains(d) by {
            let r = choose|r: int| 0 <= r < small.len() && small[r] && #[trigger] input.spec_deletion()[r] == d;
        }
    }
    vstd::set_lib::lemma_len_subset(active_coordinates(input, small), active_coordinates(input, large));
    vstd::set_lib::lemma_len_subset(active_deletions(input, small), active_deletions(input, large));
    lemma_within_prefix(input, small, large, small.len() as int);
}

proof fn lemma_within_prefix(input: &CanonicalInput, small: Seq<bool>, large: Seq<bool>, k: int)
    requires
        mask_within(small, large),
        0 <= k <= small.len(),
    ensures
        count_prefix(small, k) <= count_prefix(large, k),
        active_mass_prefix(input, small, k) <= active_mass_prefix(input, large, k),
    decreases k,
{
    if k > 0 {
        lemma_within_prefix(input, small, large, k - 1);
    }
}

/// The active physical mass never exceeds the total.
pub proof fn lemma_active_mass_bounded(input: &CanonicalInput, a: Seq<bool>, k: int)
    requires
        input.wf(),
        0 <= k <= input.spec_worker().len(),
    ensures
        0 <= active_mass_prefix(input, a, k) <= crate::problem::mass_prefix(input.spec_frequency(), k),
    decreases k,
{
    if k > 0 {
        lemma_active_mass_bounded(input, a, k - 1);
    }
}

/// A worker with an active row has at least one distinct firm.
pub proof fn lemma_distinct_firms_positive(input: &CanonicalInput, a: Seq<bool>, r: int)
    requires
        0 <= r < a.len(),
        a[r],
    ensures
        distinct_firms(input, a, input.spec_worker()[r] as int) >= 1,
{
    let w = input.spec_worker()[r] as int;
    let set = active_coordinates(input, a);
    lemma_active_coordinates_finite(input, a);
    assert(set.contains(row_coordinate(input, r)));
    assert(coordinates_of(set, w).contains(row_coordinate(input, r)));
    vstd::set_lib::lemma_len_subset(coordinates_of(set, w), set);
    if coordinates_of(set, w).len() == 0 {
        assert(coordinates_of(set, w) =~= Set::empty());
    }
}

/// A worker with an active row has positive physical mass.
pub proof fn lemma_worker_mass_positive(input: &CanonicalInput, a: Seq<bool>, r: int, k: int)
    requires
        input.wf(),
        a.len() == input.spec_worker().len(),
        0 <= r < k <= a.len(),
        a[r],
    ensures
        worker_mass_prefix(input, a, input.spec_worker()[r] as int, k) >= 1,
    decreases k,
{
    if k - 1 > r {
        lemma_worker_mass_positive(input, a, r, k - 1);
    } else {
        lemma_worker_mass_bounded(input, a, input.spec_worker()[r] as int, k - 1);
    }
}

/// Counters that report a graph selection.
#[derive(Clone, Copy, Debug, PartialEq, Eq, Structural)]
pub struct GraphSelectionReceipt {
    pub input_rows: u64,
    pub retained_rows: u64,
    pub input_physical_mass: u64,
    pub retained_physical_mass: u64,
    pub initial_components: u64,
    pub maximum_components: u64,
    pub initial_component_rows: u64,
    pub mover_input_rows: u64,
    pub initial_deletion_edges: u64,
    pub retained_deletion_edges: u64,
    pub insufficient_workers_removed: u64,
    pub articulation_workers_removed: u64,
    pub bridge_units_removed: u64,
    pub bridge_rows_removed: u64,
    pub degree_iterations: u64,
    pub articulation_iterations: u64,
    pub bridge_iterations: u64,
    pub fixed_point_iterations: u64,
}

impl GraphSelectionReceipt {
    /// Every counter is zero.
    pub open spec fn is_zero(self) -> bool {
        self == GraphSelectionReceipt {
            input_rows: 0,
            retained_rows: 0,
            input_physical_mass: 0,
            retained_physical_mass: 0,
            initial_components: 0,
            maximum_components: 0,
            initial_component_rows: 0,
            mover_input_rows: 0,
            initial_deletion_edges: 0,
            retained_deletion_edges: 0,
            insufficient_workers_removed: 0,
            articulation_workers_removed: 0,
            bridge_units_removed: 0,
            bridge_rows_removed: 0,
            degree_iterations: 0,
            articulation_iterations: 0,
            bridge_iterations: 0,
            fixed_point_iterations: 0,
        }
    }

    /// The receipt with every counter zero.
    pub fn zero() -> (r: Self)
        ensures
            r.is_zero(),
    {
        GraphSelectionReceipt {
            input_rows: 0,
            retained_rows: 0,
            input_physical_mass: 0,
            retained_physical_mass: 0,
            initial_components: 0,
            maximum_components: 0,
            initial_component_rows: 0,
            mover_input_rows: 0,
            initial_deletion_edges: 0,
            retained_deletion_edges: 0,
            insufficient_workers_removed: 0,
            articulation_workers_removed: 0,
            bridge_units_removed: 0,
            bridge_rows_removed: 0,
            degree_iterations: 0,
            articulation_iterations: 0,
            bridge_iterations: 0,
            fixed_point_iterations: 0,
        }
    }
}

impl Default for GraphSelectionReceipt {
    fn default() -> (r: Self)
        ensures
            r.is_zero(),
    {
        Self::zero()
    }
}

/// The retained rows of a graph selection and its receipt.
#[derive(Clone, Debug, PartialEq, Eq)]
pub struct GraphSelection {
    pub active: Vec<bool>,
    pub receipt: GraphSelectionReceipt,
}

/// All active rows have workers in one connected component of the active graph.
pub open spec fn single_component(input: &CanonicalInput, a: Seq<bool>) -> bool {
    forall|p: int, q: int|
        0 <= p < a.len() && 0 <= q < a.len() && a[p] && a[q] ==> #[trigger] connected(
            input,
            a,
            input.spec_worker()[p] as int,
            #[trigger] input.spec_worker()[q] as int,
        )
}

/// Every worker with an active row is observed at two or more distinct firms.
pub open spec fn movers_only(input: &CanonicalInput, a: Seq<bool>) -> bool {
    forall|r: int| 0 <= r < a.len() && a[r] ==> distinct_firms(input, a, #[trigger] input.spec_worker()[r] as int) >= 2
}

/// Every worker with an active row carries two or more physical observations.
pub open spec fn no_physical_singletons(input: &CanonicalInput, a: Seq<bool>) -> bool {
    forall|r: int| 0 <= r < a.len() && a[r] ==> worker_mass(input, a, #[trigger] input.spec_worker()[r] as int) >= 2
}

/// The receipt reports the input and the retained rows as they are.
pub open spec fn receipt_reports(input: &CanonicalInput, a: Seq<bool>, r: GraphSelectionReceipt) -> bool {
    &&& r.input_rows == input.spec_worker().len()
    &&& r.input_physical_mass == input.spec_physical_total()
    &&& r.retained_rows == count_true_spec(a)
    &&& r.retained_rows >= 1
    &&& r.retained_physical_mass == active_mass_prefix(input, a, a.len() as int)
}

/// The counters of a receipt agree with each other: each fixed-point
/// iteration is one pruning pass, the row and mass counts only shrink, and
/// the component counts are positive with the maximum above the initial one.
pub open spec fn receipt_consistent(r: GraphSelectionReceipt) -> bool {
    &&& r.fixed_point_iterations == r.degree_iterations + r.articulation_iterations + r.bridge_iterations
    &&& r.retained_rows <= r.mover_input_rows
    &&& r.mover_input_rows <= r.initial_component_rows
    &&& r.initial_component_rows <= r.input_rows
    &&& r.retained_physical_mass <= r.input_physical_mass
    &&& 1 <= r.initial_components <= r.maximum_components
    &&& r.retained_deletion_edges <= r.initial_deletion_edges
}

/// The errors a graph selection can end with when nothing interrupts it.
pub open spec fn selection_error(e: BackendError) -> bool {
    ||| machine_error(e)
    ||| e.code == ErrorCode::GraphEmpty
    ||| e.code == ErrorCode::GraphUnidentified
    ||| e.code == ErrorCode::GraphCertificateFailed
    ||| e.code == ErrorCode::InternalInvariant
}

/// The larger of two counters.
fn max_u64(a: u64, b: u64) -> (r: u64)
    ensures
        r >= a,
        r >= b,
        r == a || r == b,
{
    if a < b {
        b
    } else {
        a
    }
}

/// Adds one to an iteration counter.
fn bump(counter: u64, label: &str) -> (r: Result<u64>)
    ensures
        r matches Ok(v) ==> v == counter + 1,
        r matches Err(e) ==> e.code == ErrorCode::ResourceLimit,
        counter < u64::MAX ==> r is Ok,
{
    match counter.checked_add(1) {
        Some(v) => Ok(v),
        None => Err(counter_overflow(label)),
    }
}

/// Selects the match-deletion estimation sample with the inert checker.
pub fn select_match_deletion_graph(input: &CanonicalInput) -> (r: Result<GraphSelection>)
    ensures
        r matches Ok(sel) ==> match_selection_certified(input, sel),
        input.spec_worker().len() == 0 ==> (r matches Err(e) && e.code == ErrorCode::GraphEmpty),
        r matches Err(e) ==> selection_error(e),
        match_certified_whole(input) ==> (r matches Ok(sel) ==> sel.active@ == all_rows(input)),
        match_certified_whole(input) ==> (r matches Err(e) ==> machine_error(e)),
        match_certified_whole(input) && within_machine_limits(input) ==> (r matches Ok(sel)
            && sel.receipt.fixed_point_iterations == 0 && sel.receipt.mover_input_rows
            == input.spec_worker().len()),
        0 < input.spec_worker().len() <= INTERRUPTIBLE_SORT_RUN && largest_component_tied(
            input,
            all_rows(input),
        ) ==> (r matches Err(e) && e.code == ErrorCode::GraphUnidentified),
        r matches Ok(sel) ==> exists|keep: Seq<bool>, w: int|
            keeps_largest_component(input, all_rows(input), keep, w) && mask_within(sel.active@, keep),
        r matches Ok(sel) ==> sel.active@ == match_fixed_point(input),
        r matches Ok(sel) ==> match_receipt_exact(input, sel.receipt),
        within_machine_limits(input) && match_proceeds(input) ==> r is Ok,
        within_machine_limits(input) ==> (r matches Err(e) ==> match_refusal(input, e.code)),
        r matches Ok(sel) ==> crate::graph::fixed::match_stable(input, sel.active@),
{
    let mut never = crate::interrupt::NeverInterrupt;
    select_match_deletion_graph_with_interrupt(input, &mut never)
}

/// Deactivates every active row whose worker is flagged.
fn remove_flagged_workers<I: InterruptCheck>(
    input: &CanonicalInput,
    active: &mut Vec<bool>,
    flags: &Vec<bool>,
    interrupt: &mut I,
    phase: &'static str,
) -> (r: Result<()>)
    requires
        old(active).len() == input.spec_worker().len(),
        flags.len() == input.spec_workers(),
    ensures
        final(active).len() == old(active).len(),
        mask_within(final(active)@, old(active)@),
        r is Ok ==> final(active)@ == Seq::new(
            old(active)@.len(),
            |q: int| old(active)@[q] && !flags@[input.spec_worker()[q] as int],
        ),
        old(interrupt).inert() ==> r is Ok && final(interrupt).inert(),
{
    proof {
        use_type_invariant(input);
    }
    let ghost inert0 = interrupt.inert();
    let ghost before = active@;
    let rows = active.len();
    let mut row: usize = 0;
    while row < rows
        invariant
            input.wf(),
            rows == input.spec_worker().len(),
            rows == before.len(),
            before == old(active)@,
            active.len() == rows,
            flags.len() == input.spec_workers(),
            row <= rows,
            forall|q: int| 0 <= q < row ==> #[trigger] active@[q] == (before[q] && !flags@[input.spec_worker()[q] as int]),
            forall|q: int| row <= q < rows ==> #[trigger] active@[q] == before[q],
            inert0 == old(interrupt).inert(),
            inert0 ==> interrupt.inert(),
        decreases rows - row,
    {
        match checkpoint_chunk(interrupt, row, phase) {
            Ok(()) => {},
            Err(e) => {
                return Err(e);
            },
        }
        if active[row] {
            let worker = input.worker_at(row) as usize;
            if flags[worker] {
                active.set(row, false);
            }
        }
        row = row + 1;
    }
    proof {
        assert(active@ =~= Seq::new(before.len(), |q: int| before[q] && !flags@[input.spec_worker()[q] as int]));
    }
    Ok(())
}

/// Deactivates every active row whose deletion unit is in `units`.
fn remove_units<I: InterruptCheck>(
    input: &CanonicalInput,
    active: &mut Vec<bool>,
    units: &BTreeSet<u32>,
    interrupt: &mut I,
    phase: &'static str,
) -> (r: Result<()>)
    requires
        old(active).len() == input.spec_worker().len(),
    ensures
        final(active).len() == old(active).len(),
        mask_within(final(active)@, old(active)@),
        r is Ok ==> final(active)@ == Seq::new(
            old(active)@.len(),
            |q: int| old(active)@[q] && !units@.contains(input.spec_deletion()[q]),
        ),
        old(interrupt).inert() ==> r is Ok && final(interrupt).inert(),
{
    proof {
        use_type_invariant(input);
    }
    let ghost inert0 = interrupt.inert();
    let ghost before = active@;
    let rows = active.len();
    let mut row: usize = 0;
    while row < rows
        invariant
            input.wf(),
            rows == input.spec_worker().len(),
            rows == before.len(),
            before == old(active)@,
            active.len() == rows,
            row <= rows,
            forall|q: int| 0 <= q < row ==> #[trigger] active@[q] == (before[q] && !units@.contains(input.spec_deletion()[q])),
            forall|q: int| row <= q < rows ==> #[trigger] active@[q] == before[q],
            inert0 == old(interrupt).inert(),
            inert0 ==> interrupt.inert(),
        decreases rows - row,
    {
        match checkpoint_chunk(interrupt, row, phase) {
            Ok(()) => {},
            Err(e) => {
                return Err(e);
            },
        }
        if active[row] && units.contains(&input.deletion_at(row)) {
            active.set(row, false);
        }
        row = row + 1;
    }
    proof {
        assert(active@ =~= Seq::new(before.len(), |q: int| before[q] && !units@.contains(input.spec_deletion()[q])));
    }
    Ok(())
}

/// The sample is small enough for every sort to run in one uninterrupted
/// pass, the fixed-point iteration bound is addressable, and the receipt's
/// removal counters, each at most one worker-plus-row count per round, fit
/// in `u64`.
pub open spec fn within_machine_limits(input: &CanonicalInput) -> bool {
    &&& input.spec_worker().len() <= INTERRUPTIBLE_SORT_RUN
    &&& input.spec_workers() + input.spec_worker().len() < usize::MAX
    &&& counters_fit(input)
}

/// A worker-plus-row count per round, over as many rounds as workers plus
/// rows plus two, fits in `u64`.
#[verifier::opaque]
pub open spec fn counters_fit(input: &CanonicalInput) -> bool {
    (input.spec_workers() + input.spec_worker().len() + 2) * (input.spec_workers()
        + input.spec_worker().len()) < u64::MAX
}

/// Counts the active rows whose deletion unit is in `units`.
fn count_unit_rows<I: InterruptCheck>(
    input: &CanonicalInput,
    active: &Vec<bool>,
    units: &BTreeSet<u32>,
    interrupt: &mut I,
    phase: &'static str,
) -> (r: Result<usize>)
    requires
        active.len() == input.spec_worker().len(),
    ensures
        r matches Ok(c) ==> c == count_true_spec(
            Seq::new(active@.len(), |q: int| active@[q] && units@.contains(input.spec_deletion()[q])),
        ),
        r matches Ok(c) ==> c <= active.len(),
        old(interrupt).inert() ==> r is Ok && final(interrupt).inert(),
{
    proof {
        use_type_invariant(input);
    }
    let ghost inert0 = interrupt.inert();
    let ghost flags = Seq::new(active@.len(), |q: int| active@[q] && units@.contains(input.spec_deletion()[q]));
    let rows = active.len();
    let mut count: usize = 0;
    let mut row: usize = 0;
    while row < rows
        invariant
            rows == active.len(),
            rows == input.spec_worker().len(),
            row <= rows,
            flags == Seq::new(active@.len(), |q: int| active@[q] && units@.contains(input.spec_deletion()[q])),
            count == count_prefix(flags, row as int),
            count <= row,
            inert0 == old(interrupt).inert(),
            inert0 ==> interrupt.inert(),
        decreases rows - row,
    {
        match checkpoint_chunk(interrupt, row, phase) {
            Ok(()) => {},
            Err(e) => {
                return Err(e);
            },
        }
        if active[row] && units.contains(&input.deletion_at(row)) {
            count = count + 1;
        }
        row = row + 1;
    }
    Ok(count)
}

/// The pruning counters of a receipt, in the order of `match_tally`.
pub open spec fn receipt_match_tally(r: GraphSelectionReceipt) -> (int, int, int, int, int, int, int) {
    (
        r.degree_iterations as int,
        r.articulation_iterations as int,
        r.bridge_iterations as int,
        r.insufficient_workers_removed as int,
        r.articulation_workers_removed as int,
        r.bridge_units_removed as int,
        r.bridge_rows_removed as int,
    )
}

/// The pruning counters of a receipt, in the order of `observation_tally`.
pub open spec fn receipt_observation_tally(r: GraphSelectionReceipt) -> (int, int, int, int) {
    (
        r.degree_iterations as int,
        r.articulation_iterations as int,
        r.insufficient_workers_removed as int,
        r.articulation_workers_removed as int,
    )
}

/// The receipt of a match-deletion selection counts what the fixed point did:
/// the components and rows of the whole sample, the movers, the deletion
/// units they start with, and the number of pruning rounds.
pub open spec fn match_receipt_exact(input: &CanonicalInput, r: GraphSelectionReceipt) -> bool {
    &&& r.initial_components == component_count(input, all_rows(input))
    &&& r.initial_component_rows == count_true_spec(largest_keep(input, all_rows(input)))
    &&& r.mover_input_rows == count_true_spec(
        crate::graph::fixed::mover_rows(input, largest_keep(input, all_rows(input))),
    )
    &&& r.initial_deletion_edges == active_deletions(input, match_start(input)).len()
    &&& r.fixed_point_iterations == match_rounds(input, match_start(input), (match_bound(input) + 1) as nat)
    &&& receipt_match_tally(r) == match_tally(input, match_start(input), (match_bound(input) + 1) as nat)
    &&& r.maximum_components == larger(
        larger(
            larger(
                component_count(input, all_rows(input)),
                component_count(input, crate::graph::fixed::mover_rows(input, largest_keep(input, all_rows(input)))),
            ),
            match_max_components(input, match_start(input), (match_bound(input) + 1) as nat),
        ),
        component_count(input, match_fixed_point(input)),
    )
}

/// The receipt of an observation-deletion selection counts the components
/// and rows of the whole sample, the target rows (stayers included), the
/// coordinates they start with, and the number of pruning rounds.
pub open spec fn observation_receipt_exact(input: &CanonicalInput, r: GraphSelectionReceipt) -> bool {
    &&& r.initial_components == component_count(input, all_rows(input))
    &&& r.initial_component_rows == count_true_spec(largest_keep(input, all_rows(input)))
    &&& r.mover_input_rows == count_true_spec(largest_keep(input, all_rows(input)))
    &&& r.initial_deletion_edges == active_coordinates(input, largest_keep(input, all_rows(input))).len()
    &&& r.fixed_point_iterations == observation_rounds(
        input,
        largest_keep(input, all_rows(input)),
        (input.spec_workers() + 2) as nat,
    )
    &&& receipt_observation_tally(r) == observation_tally(
        input,
        largest_keep(input, all_rows(input)),
        (input.spec_workers() + 2) as nat,
    )
    &&& r.maximum_components == larger(
        larger(
            component_count(input, all_rows(input)),
            observation_max_components(input, largest_keep(input, all_rows(input)), (input.spec_workers() + 2) as nat),
        ),
        component_count(input, observation_fixed_point(input)),
    )
}

/// The match receipt sorts the pruning rounds by the rule each one applied,
/// and counts what that rule removed: single-firm rounds and the workers they
/// drop, then cut rounds and their cut workers, then bridge rounds with their
/// bridge units and those units' rows, summed over the rounds of the fixed point.
pub proof fn law_match_receipt_rounds(input: &CanonicalInput, r: GraphSelectionReceipt)
    requires
        match_receipt_exact(input, r),
    ensures
        ({
            let a = match_start(input);
            let n = r.fixed_point_iterations as nat;
            &&& r.degree_iterations == match_round_total(input, a, n, single_firm_round(input))
            &&& r.articulation_iterations == match_round_total(input, a, n, cut_round(input))
            &&& r.bridge_iterations == match_round_total(input, a, n, bridge_round(input))
            &&& r.insufficient_workers_removed == match_round_total(input, a, n, single_firm_removed(input))
            &&& r.articulation_workers_removed == match_round_total(input, a, n, cut_removed(input))
            &&& r.bridge_units_removed == match_round_total(input, a, n, bridge_units_removed(input))
            &&& r.bridge_rows_removed == match_round_total(input, a, n, bridge_rows_removed(input))
        }),
{
    lemma_match_tally_rounds(input, match_start(input), (match_bound(input) + 1) as nat);
}

/// The observation receipt sorts the pruning rounds by the rule each one
/// applied: singleton rounds and the physical singletons they drop, then cut
/// rounds and their cut workers, summed over the rounds of the fixed point.
pub proof fn law_observation_receipt_rounds(input: &CanonicalInput, r: GraphSelectionReceipt)
    requires
        observation_receipt_exact(input, r),
    ensures
        ({
            let a = largest_keep(input, all_rows(input));
            let n = r.fixed_point_iterations as nat;
            &&& r.degree_iterations == observation_round_total(input, a, n, singleton_round(input))
            &&& r.articulation_iterations == observation_round_total(input, a, n, observation_cut_round(input))
            &&& r.insufficient_workers_removed == observation_round_total(input, a, n, singleton_removed(input))
            &&& r.articulation_workers_removed == observation_round_total(input, a, n, observation_cut_removed(input))
        }),
{
    lemma_observation_tally_rounds(input, largest_keep(input, all_rows(input)), (input.spec_workers() + 2) as nat);
}

/// The match receipt's maximum component count is the largest component count
/// seen: no sample that the selection looked at (the whole sample, the movers,
/// the sample each pruning round starts from, the final sample) has more
/// components, and one of them has exactly that many.
pub proof fn law_match_maximum_components(input: &CanonicalInput, r: GraphSelectionReceipt)
    requires
        match_receipt_exact(input, r),
    ensures
        ({
            let whole = component_count(input, all_rows(input));
            let movers = component_count(
                input,
                crate::graph::fixed::mover_rows(input, largest_keep(input, all_rows(input))),
            );
            let last = component_count(input, match_fixed_point(input));
            let m = r.maximum_components as int;
            &&& whole <= m && movers <= m && last <= m
            &&& forall|j: nat| j <= r.fixed_point_iterations ==> #[trigger] component_count(
                input,
                match_round_sample(input, match_start(input), j),
            ) <= m
            &&& m == whole || m == movers || m == last || exists|j: nat|
                j <= r.fixed_point_iterations && #[trigger] component_count(
                    input,
                    match_round_sample(input, match_start(input), j),
                ) == m
        }),
{
    lemma_match_max_components(input, match_start(input), (match_bound(input) + 1) as nat);
}

/// The observation receipt's maximum component count is the largest component
/// count seen: no sample the selection looked at (the whole sample, the sample
/// each pruning round starts from, the final sample) has more components, and
/// one of them has exactly that many.
pub proof fn law_observation_maximum_components(input: &CanonicalInput, r: GraphSelectionReceipt)
    requires
        observation_receipt_exact(input, r),
    ensures
        ({
            let whole = component_count(input, all_rows(input));
            let last = component_count(input, observation_fixed_point(input));
            let start = largest_keep(input, all_rows(input));
            let m = r.maximum_components as int;
            &&& whole <= m && last <= m
            &&& forall|j: nat| j <= r.fixed_point_iterations ==> #[trigger] component_count(
                input,
                observation_round_sample(input, start, j),
            ) <= m
            &&& m == whole || m == last || exists|j: nat|
                j <= r.fixed_point_iterations && #[trigger] component_count(
                    input,
                    observation_round_sample(input, start, j),
                ) == m
        }),
{
    lemma_observation_max_components(input, largest_keep(input, all_rows(input)), (input.spec_workers() + 2) as nat);
}

/// What a successful match-deletion selection guarantees.
pub open spec fn match_selection_certified(input: &CanonicalInput, sel: GraphSelection) -> bool {
    let a = sel.active@;
    &&& a.len() == input.spec_worker().len()
    &&& single_component(input, a)
    &&& movers_only(input, a)
    &&& !crate::graph::dfs::deletion_crosses(input, a)
    &&& forall|d: u32| active_deletions(input, a).contains(d) ==> #[trigger] crate::graph::dfs::unit_not_bridge(input, a, d)
    &&& forall|w: int| 0 <= w < input.spec_workers() ==> #[trigger] crate::graph::dfs::worker_not_cut(input, a, w)
    &&& receipt_reports(input, a, sel.receipt)
    &&& sel.receipt.retained_deletion_edges == active_deletions(input, a).len()
    &&& receipt_consistent(sel.receipt)
}

/// The leave-one-match-out sample: the largest component, restricted to
/// movers, pruned to a fixed point in which no worker is observed at a single
/// firm, no worker is a cut vertex, and no deletion unit is a bridge; then
/// certified again on the final sample.
#[verifier::rlimit(100)]
#[verifier::spinoff_prover]
pub fn select_match_deletion_graph_with_interrupt<I: InterruptCheck>(
    input: &CanonicalInput,
    interrupt: &mut I,
) -> (r: Result<GraphSelection>)
    ensures
        r matches Ok(sel) ==> match_selection_certified(input, sel),
        old(interrupt).inert() ==> final(interrupt).inert(),
        old(interrupt).inert() && input.spec_worker().len() == 0 ==> (r matches Err(e) && e.code
            == ErrorCode::GraphEmpty),
        old(interrupt).inert() ==> (r matches Err(e) ==> selection_error(e)),
        old(interrupt).inert() && match_certified_whole(input) ==> (r matches Ok(sel) ==> sel.active@
            == all_rows(input)),
        old(interrupt).inert() && match_certified_whole(input) ==> (r matches Err(e) ==> machine_error(e)),
        old(interrupt).inert() && match_certified_whole(input) && within_machine_limits(input) ==> (r matches Ok(
            sel,
        ) && sel.receipt.fixed_point_iterations == 0 && sel.receipt.mover_input_rows == input.spec_worker().len()),
        old(interrupt).inert() && 0 < input.spec_worker().len() <= INTERRUPTIBLE_SORT_RUN
            && largest_component_tied(input, all_rows(input)) ==> (r matches Err(e) && e.code
            == ErrorCode::GraphUnidentified),
        r matches Ok(sel) ==> exists|keep: Seq<bool>, w: int|
            keeps_largest_component(input, all_rows(input), keep, w) && mask_within(sel.active@, keep),
        r matches Ok(sel) ==> sel.active@ == match_fixed_point(input),
        r matches Ok(sel) ==> match_receipt_exact(input, sel.receipt),
        old(interrupt).inert() && within_machine_limits(input) && match_proceeds(input) ==> r is Ok,
        old(interrupt).inert() && within_machine_limits(input) ==> (r matches Err(e) ==> match_refusal(input, e.code)),
        r matches Ok(sel) ==> crate::graph::fixed::match_stable(input, sel.active@),
{
    proof {
        use_type_invariant(input);
    }
    let ghost inert0 = interrupt.inert();
    let ghost whole = inert0 && match_certified_whole(input);
    let ghost tied0 = inert0 && 0 < input.spec_worker().len() <= INTERRUPTIBLE_SORT_RUN
        && largest_component_tied(input, all_rows(input));
    let ghost limits = inert0 && within_machine_limits(input);
    let ghost untied = match_untied(input);
    let ghost nonempty = match_nonempty(input);
    let ghost settles = match_settles(input);
    proof {
        let whole_rows = all_rows(input);
        let movers0 = crate::graph::fixed::mover_rows(input, largest_keep(input, whole_rows));
        assert(untied ==> !largest_component_tied(input, whole_rows) && !largest_component_tied(input, movers0)
            && match_no_tie(input, match_start(input), (match_bound(input) + 1) as nat)) by {
            reveal(match_untied);
        }
        assert(nonempty ==> input.spec_worker().len() > 0 && count_true_spec(movers0) > 0
            && match_no_empty(input, match_start(input), (match_bound(input) + 1) as nat)) by {
            reveal(match_nonempty);
        }
        assert(settles ==> match_rounds(input, match_start(input), (match_bound(input) + 1) as nat)
            <= match_bound(input)) by {
            reveal(match_settles);
        }
    }
    interrupt.checkpoint("graph_entry")?;
    let rows = input.rows();
    if rows == 0 {
        return Err(BackendError::new(ErrorCode::GraphEmpty, "graph", "command sample is empty"));
    }
    let mut active: Vec<bool> = Vec::new();
    while active.len() < rows
        invariant
            active.len() <= rows,
            forall|q: int| 0 <= q < active.len() ==> #[trigger] active@[q],
        decreases rows - active.len(),
    {
        active.push(true);
    }
    proof {
        assert(count_prefix(active@, 0) == 0);
        assert(count_prefix(active@, 1) == 1);
        lemma_count_monotone(active@, 1, rows as int);
        assert(active@ =~= all_rows(input));
        if whole {
            lemma_whole_untied(input);
        }
    }
    let mut receipt = GraphSelectionReceipt::zero();
    receipt.input_rows = as_u64(rows, "input row count")?;
    receipt.input_physical_mass = input.physical_total();

    let initial = crate::graph::component::largest_component(input, &active, interrupt)?;
    proof {
        assert(!tied0);
    }
    receipt.initial_components = as_u64(initial.components, "component count")?;
    receipt.maximum_components = receipt.initial_components;
    receipt.initial_component_rows = as_u64(initial.retained_rows, "component row count")?;
    let ghost every_row = active@;
    intersect_active(&mut active, &initial.keep, interrupt)?;
    proof {
        assert(active@ =~= initial.keep@);
        lemma_mask_within(input, active@, every_row);
        lemma_count_prefix_bounds(initial.keep@, rows as int);
        let w0 = choose|w: int| crate::graph::component::keeps_largest_component(input, every_row, initial.keep@, w);
        lemma_largest_keep(input, every_row, initial.keep@, w0);
        if whole {
            let w = choose|w: int| crate::graph::component::keeps_largest_component(input, every_row, initial.keep@, w);
            lemma_whole_keeps(input, initial.keep@, w);
        }
    }

    let worker_firms = distinct_firm_counts(input, &active, interrupt)?;
    let ghost component_rows = active@;
    let mut row: usize = 0;
    while row < rows
        invariant
            input.wf(),
            rows == input.spec_worker().len(),
            active.len() == rows,
            worker_firms.len() == input.spec_workers(),
            row <= rows,
            mask_within(active@, component_rows),
            forall|q: int| row <= q < rows ==> #[trigger] active@[q] == component_rows[q],
            forall|w: int| 0 <= w < input.spec_workers() ==> #[trigger] worker_firms@[w] == distinct_firms(input, component_rows, w),
            forall|q: int| 0 <= q < row ==> #[trigger] active@[q] == (component_rows[q] && distinct_firms(
                input,
                component_rows,
                input.spec_worker()[q] as int,
            ) > 1),
            component_rows == largest_keep(input, all_rows(input)),
            whole == (inert0 && match_certified_whole(input)),
            whole ==> active@ == all_rows(input) && component_rows == all_rows(input),
            whole ==> forall|w: int| 0 <= w < input.spec_workers() ==> #[trigger] worker_firms@[w] == distinct_firms(input, all_rows(input), w),
            inert0 == old(interrupt).inert(),
            !(inert0 && 0 < input.spec_worker().len() <= INTERRUPTIBLE_SORT_RUN && largest_component_tied(input, all_rows(input))),
            inert0 ==> interrupt.inert(),
        decreases rows - row,
    {
        match checkpoint_chunk(interrupt, row, "graph_mover_filter") {
            Ok(()) => {},
            Err(e) => {
                return Err(e);
            },
        }
        if active[row] {
            let worker = input.worker_at(row) as usize;
            let keep = worker_firms[worker] > 1;
            proof {
                if whole {
                    assert(distinct_firms(input, all_rows(input), input.spec_worker()[row as int] as int) >= 2);
                }
            }
            active.set(row, keep);
            proof {
                if whole {
                    assert(active@ =~= all_rows(input));
                }
            }
        }
        row = row + 1;
    }
    let mover_rows = count_true(&active, interrupt, "graph_mover_count")?;
    receipt.mover_input_rows = as_u64(mover_rows, "mover row count")?;
    proof {
        lemma_mask_within(input, active@, component_rows);
        if whole {
            lemma_count_all(active@, rows as int);
            lemma_whole_untied(input);
        }
    }
    proof {
        assert(active@ =~= crate::graph::fixed::mover_rows(input, component_rows));
    }
    if mover_rows == 0 {
        return Err(BackendError::new(ErrorCode::GraphEmpty, "graph", "no observations remain in the mover target population"));
    }
    let ghost movers = active@;
    proof {
        assert(movers =~= crate::graph::fixed::mover_rows(input, component_rows));
    }

    let mover_component = crate::graph::component::largest_component(input, &active, interrupt)?;
    receipt.maximum_components = max_u64(receipt.maximum_components, as_u64(mover_component.components, "component count")?);
    let ghost before = active@;
    intersect_active(&mut active, &mover_component.keep, interrupt)?;
    proof {
        assert(active@ =~= mover_component.keep@);
        lemma_mask_within(input, active@, before);
        let w1 = choose|w: int| crate::graph::component::keeps_largest_component(input, before, mover_component.keep@, w);
        lemma_largest_keep(input, before, mover_component.keep@, w1);
        assert(active@ == match_start(input));
        if whole {
            let w = choose|w: int| crate::graph::component::keeps_largest_component(input, before, mover_component.keep@, w);
            lemma_whole_keeps(input, mover_component.keep@, w);
        }
    }

    let initial_ids = active_deletion_ids(input, &active, interrupt)?;
    let initial_edges = initial_ids.len();
    let ghost start = active@;
    receipt.initial_deletion_edges = as_u64(initial_edges, "deletion edge count")?;
    proof {
        lemma_active_deletions_finite(input, start);
    }
    let iteration_bound = match input.workers().checked_add(initial_edges) {
        Some(v) => match v.checked_add(1) {
            Some(w) => w,
            None => {
                return Err(BackendError::new(ErrorCode::ResourceLimit, "graph", "fixed-point iteration bound overflow"));
            },
        },
        None => {
            return Err(BackendError::new(ErrorCode::ResourceLimit, "graph", "fixed-point iteration bound overflow"));
        },
    };
    let iteration_bound = as_u64(iteration_bound, "fixed-point iteration bound")?;
    proof {
        assert(iteration_bound == match_bound(input));
    }

    proof {
        if limits {
            crate::graph::fixed::lemma_rounds_fit(input);
        }
        assert(receipt.maximum_components == larger(component_count(input, all_rows(input)), component_count(input, movers)));
        lemma_match_ledger_start(input, receipt.maximum_components as int, start, (iteration_bound + 1) as nat);
    }
    let ghost most = larger(receipt.maximum_components as int, match_max_components(input, start, (iteration_bound + 1) as nat));
    loop
        invariant_except_break
            match_iterate(input, active@, (iteration_bound + 1 - receipt.fixed_point_iterations) as nat)
                == match_iterate(input, start, (iteration_bound + 1) as nat),
            match_ledger(
                input,
                receipt_match_tally(receipt),
                receipt.maximum_components as int,
                active@,
                (iteration_bound + 1 - receipt.fixed_point_iterations) as nat,
                match_tally(input, start, (iteration_bound + 1) as nat),
                most,
            ),
            receipt.fixed_point_iterations + match_rounds(input, active@, (iteration_bound + 1
                - receipt.fixed_point_iterations) as nat) == match_rounds(input, start, (iteration_bound + 1) as nat),
            untied ==> match_no_tie(input, active@, (iteration_bound + 1 - receipt.fixed_point_iterations) as nat),
            nonempty ==> match_no_empty(input, active@, (iteration_bound + 1 - receipt.fixed_point_iterations) as nat),
        invariant
            most == larger(
                larger(component_count(input, all_rows(input)), component_count(input, movers)),
                match_max_components(input, start, (iteration_bound + 1) as nat),
            ),
            limits ==> input.spec_workers() + rows + 2 < u64::MAX,
            limits == (inert0 && within_machine_limits(input)),
            untied == match_untied(input),
            nonempty == match_nonempty(input),
            settles == match_settles(input),
            settles ==> match_rounds(input, start, (iteration_bound + 1) as nat) <= iteration_bound,
            iteration_bound <= input.spec_workers() + rows + 1,
            receipt.insufficient_workers_removed <= receipt.degree_iterations * (input.spec_workers() + rows),
            receipt.articulation_workers_removed <= receipt.articulation_iterations * (input.spec_workers() + rows),
            receipt.bridge_units_removed <= receipt.bridge_iterations * (input.spec_workers() + rows),
            receipt.bridge_rows_removed <= receipt.bridge_iterations * (input.spec_workers() + rows),
            input.wf(),
            rows == input.spec_worker().len(),
            rows > 0,
            active.len() == rows,
            start == match_start(input),
            iteration_bound == match_bound(input),
            receipt.initial_components == component_count(input, all_rows(input)),
            receipt.initial_component_rows == count_true_spec(largest_keep(input, all_rows(input))),
            mask_within(active@, start),
            mask_within(start, movers),
            receipt.input_rows == rows,
            receipt.input_physical_mass == input.spec_physical_total(),
            receipt.mover_input_rows == count_true_spec(movers),
            receipt.initial_component_rows <= receipt.input_rows,
            receipt.mover_input_rows <= receipt.initial_component_rows,
            receipt.initial_deletion_edges == active_deletions(input, start).len(),
            1 <= receipt.initial_components <= receipt.maximum_components,
            receipt.fixed_point_iterations == receipt.degree_iterations + receipt.articulation_iterations
                + receipt.bridge_iterations,
            receipt.fixed_point_iterations <= iteration_bound + 1,
            receipt.retained_rows == 0,
            whole == (inert0 && match_certified_whole(input)),
            whole ==> active@ == all_rows(input) && receipt.fixed_point_iterations == 0,
            inert0 == old(interrupt).inert(),
            !(inert0 && 0 < input.spec_worker().len() <= INTERRUPTIBLE_SORT_RUN && largest_component_tied(input, all_rows(input))),
            inert0 ==> interrupt.inert(),
        ensures
            active@ == match_iterate(input, start, (iteration_bound + 1) as nat),
            receipt.fixed_point_iterations == match_rounds(input, start, (iteration_bound + 1) as nat),
            receipt_match_tally(receipt) == match_tally(input, start, (iteration_bound + 1) as nat),
            receipt.maximum_components == most,
            match_settled(input, active@),
            exists|a0: Seq<bool>, w0: int|
                a0.len() == rows && #[trigger] keeps_largest_component(input, a0, active@, w0),
        decreases iteration_bound + 1 - receipt.fixed_point_iterations,
    {
        interrupt.checkpoint("graph_fixed_point")?;
        if receipt.fixed_point_iterations > iteration_bound {
            return Err(BackendError::new(
                ErrorCode::GraphCertificateFailed,
                "graph",
                "sample fixed-point pruning exceeded its finite iteration bound",
            ));
        }
        proof {
            if whole {
                lemma_whole_untied(input);
                lemma_count_all(active@, rows as int);
            }
        }
        let ghost fuel = (iteration_bound + 1 - receipt.fixed_point_iterations) as nat;
        proof {
            lemma_iterate_step(input, active@, fuel);
        }
        let ghost counted = receipt_match_tally(receipt);
        let ghost seen = receipt.maximum_components as int;
        let component = crate::graph::component::largest_component(input, &active, interrupt)?;
        receipt.maximum_components = max_u64(receipt.maximum_components, as_u64(component.components, "component count")?);
        let ghost before = active@;
        intersect_active(&mut active, &component.keep, interrupt)?;
        let ghost k = active@;
        proof {
            assert(active@ =~= component.keep@);
            let wk = choose|w: int| crate::graph::component::keeps_largest_component(input, before, component.keep@, w);
            lemma_largest_keep(input, before, component.keep@, wk);
            lemma_keep_idempotent(input, before, k, wk);
            let rk = choose|r: int| 0 <= r < k.len() && #[trigger] k[r];
            lemma_count_positive(k, rk);
            if crate::graph::dfs::deletion_crosses(input, k) {
                assert(mask_within(k, all_rows(input)));
                lemma_crosses_within(input, k, all_rows(input));
            }
            if whole {
                let w = choose|w: int| crate::graph::component::keeps_largest_component(input, before, component.keep@, w);
                lemma_whole_keeps(input, component.keep@, w);
                lemma_count_all(active@, rows as int);
            }
        }
        if count_true(&active, interrupt, "graph_active_count")? == 0 {
            return Err(BackendError::new(ErrorCode::GraphEmpty, "graph", "no component remains after fixed-point pruning"));
        }

        let worker_firms = distinct_firm_counts(input, &active, interrupt)?;
        let mut insufficient: Vec<bool> = Vec::new();
        let mut worker: usize = 0;
        while worker < worker_firms.len()
            invariant
                insufficient.len() == worker,
                worker <= worker_firms.len(),
                forall|k: int| 0 <= k < worker ==> #[trigger] insufficient@[k] == (worker_firms@[k] == 1),
                inert0 == old(interrupt).inert(),
                !(inert0 && 0 < input.spec_worker().len() <= INTERRUPTIBLE_SORT_RUN && largest_component_tied(input, all_rows(input))),
                inert0 ==> interrupt.inert(),
            decreases worker_firms.len() - worker,
        {
            match checkpoint_chunk(interrupt, worker, "graph_degree_scan") {
                Ok(()) => {},
                Err(e) => {
                    return Err(e);
                },
            }
            insufficient.push(worker_firms[worker] == 1);
            worker = worker + 1;
        }
        proof {
            if whole {
                assert forall|k: int| 0 <= k < insufficient.len() implies !#[trigger] insufficient@[k] by {
                    lemma_whole_no_single_firm(input, k);
                }
                lemma_count_none(insufficient@, insufficient.len() as int);
            }
        }
        let removed_workers = count_true(&insufficient, interrupt, "graph_degree_count")?;
        proof {
            assert forall|w: int| 0 <= w < input.spec_workers() implies #[trigger] insufficient@[w] == (distinct_firms(input, k, w) == 1) by {
                assert(worker_firms@[w] == distinct_firms(input, k, w));
            }
            if removed_workers > 0 {
                let w = lemma_count_prefix_witness(insufficient@, insufficient.len() as int);
                assert(distinct_firms(input, k, w) == 1);
                assert(has_single_firm_worker(input, k));
            } else if has_single_firm_worker(input, k) {
                let w = choose|w: int| 0 <= w < input.spec_workers() && #[trigger] distinct_firms(input, k, w) == 1;
                lemma_count_positive(insufficient@, w);
            }
        }
        if removed_workers > 0 {
            remove_flagged_workers(input, &mut active, &insufficient, interrupt, "graph_degree_prune")?;
            proof {
                lemma_single_prune(input, k, insufficient@, active@);
            }
            proof {
                lemma_count_prefix_bounds(insufficient@, insufficient.len() as int);
                lemma_counter_room(
                    receipt.insufficient_workers_removed as int,
                    removed_workers as int,
                    receipt.degree_iterations as int,
                    input,
                );
            }
            receipt.insufficient_workers_removed = match receipt.insufficient_workers_removed.checked_add(as_u64(removed_workers, "removed worker count")?) {
                Some(v) => v,
                None => {
                    return Err(counter_overflow("insufficient workers"));
                },
            };
            receipt.degree_iterations = bump(receipt.degree_iterations, "degree iterations")?;
            receipt.fixed_point_iterations = bump(receipt.fixed_point_iterations, "fixed-point iterations")?;
            proof {
                lemma_degree_tally(input, k, insufficient@, removed_workers as int);
                lemma_match_ledger_step(input, counted, seen, before, fuel, match_tally(input, start, (iteration_bound + 1) as nat), most);
            }
            continue;
        }

        let articulations = crate::graph::dfs::worker_articulations(input, &active, interrupt)?;
        proof {
            if whole {
                assert forall|k: int| 0 <= k < articulations.len() implies !#[trigger] articulations@[k] by {
                    assert(crate::graph::dfs::worker_not_cut(input, all_rows(input), k));
                }
                lemma_count_none(articulations@, articulations.len() as int);
            }
        }
        let articulation_count = count_true(&articulations, interrupt, "graph_articulation_count")?;
        proof {
            if articulation_count > 0 {
                let w = lemma_count_prefix_witness(articulations@, articulations.len() as int);
                assert(!crate::graph::dfs::worker_not_cut(input, k, w));
                assert(has_cut_worker(input, k));
            } else if has_cut_worker(input, k) {
                let w = choose|w: int| 0 <= w < input.spec_workers() && !#[trigger] crate::graph::dfs::worker_not_cut(input, k, w);
                assert(articulations@[w]);
                lemma_count_positive(articulations@, w);
            }
        }
        if articulation_count > 0 {
            remove_flagged_workers(input, &mut active, &articulations, interrupt, "graph_articulation_prune")?;
            proof {
                lemma_cut_prune(input, k, articulations@, active@);
            }
            proof {
                lemma_count_prefix_bounds(articulations@, articulations.len() as int);
                lemma_counter_room(
                    receipt.articulation_workers_removed as int,
                    articulation_count as int,
                    receipt.articulation_iterations as int,
                    input,
                );
            }
            receipt.articulation_workers_removed = match receipt.articulation_workers_removed.checked_add(as_u64(articulation_count, "articulation count")?) {
                Some(v) => v,
                None => {
                    return Err(counter_overflow("articulation workers"));
                },
            };
            receipt.articulation_iterations = bump(receipt.articulation_iterations, "articulation iterations")?;
            receipt.fixed_point_iterations = bump(receipt.fixed_point_iterations, "fixed-point iterations")?;
            proof {
                lemma_cut_tally(input, k, articulations@, articulation_count as int);
                lemma_match_ledger_step(input, counted, seen, before, fuel, match_tally(input, start, (iteration_bound + 1) as nat), most);
            }
            continue;
        }

        let bridges = crate::graph::dfs::deletion_bridges(input, &active, interrupt)?;
        proof {
            if whole && bridges.len() > 0 {
                let d = bridges@[0];
                assert(bridges@.contains(d));
                assert(active_deletions(input, active@).contains(d));
                assert(crate::graph::dfs::unit_not_bridge(input, active@, d));
                assert(false);
            }
        }
        proof {
            if bridges.len() == 0 && has_bridge_unit(input, k) {
                let d = choose|d: u32| active_deletions(input, k).contains(d) && !#[trigger] crate::graph::dfs::unit_not_bridge(input, k, d);
                assert(bridges@.contains(d));
            }
        }
        if bridges.len() == 0 {
            proof {
                lemma_match_ledger_done(input, counted, seen, before, fuel, match_tally(input, start, (iteration_bound + 1) as nat), most);
            }
            break;
        }
        let bridge_set = bridge_deletion_set(&bridges, interrupt)?;
        let removed_rows = count_unit_rows(input, &active, &bridge_set, interrupt, "graph_bridge_count")?;
        remove_units(input, &mut active, &bridge_set, interrupt, "graph_bridge_prune")?;
        proof {
            lemma_bridge_prune(input, k, bridges@, bridge_set@, active@);
        }
        proof {
            lemma_units_bound(input, k, bridges@);
            lemma_counter_room(
                receipt.bridge_units_removed as int,
                bridges.len() as int,
                receipt.bridge_iterations as int,
                input,
            );
            lemma_counter_room(
                receipt.bridge_rows_removed as int,
                removed_rows as int,
                receipt.bridge_iterations as int,
                input,
            );
        }
        receipt.bridge_units_removed = match receipt.bridge_units_removed.checked_add(as_u64(bridges.len(), "bridge count")?) {
            Some(v) => v,
            None => {
                return Err(counter_overflow("bridge units"));
            },
        };
        receipt.bridge_rows_removed = match receipt.bridge_rows_removed.checked_add(as_u64(removed_rows, "bridge row count")?) {
            Some(v) => v,
            None => {
                return Err(counter_overflow("bridge rows"));
            },
        };
        receipt.bridge_iterations = bump(receipt.bridge_iterations, "bridge iterations")?;
        receipt.fixed_point_iterations = bump(receipt.fixed_point_iterations, "fixed-point iterations")?;
        proof {
            lemma_bridge_step_tally(input, k, bridges@, bridge_set@, removed_rows as int);
            lemma_match_ledger_step(input, counted, seen, before, fuel, match_tally(input, start, (iteration_bound + 1) as nat), most);
        }
    }

    if receipt.fixed_point_iterations > iteration_bound {
        return Err(BackendError::new(
            ErrorCode::GraphCertificateFailed,
            "graph",
            "sample fixed-point pruning exceeded its finite iteration bound",
        ));
    }

    proof {
        if whole {
            lemma_whole_untied(input);
            lemma_count_all(active@, rows as int);
        }
    }
    proof {
        let (a0, w0) = choose|a0: Seq<bool>, w0: int|
            a0.len() == rows && #[trigger] keeps_largest_component(input, a0, active@, w0);
        lemma_keep_idempotent(input, a0, active@, w0);
        let rk = choose|r: int| 0 <= r < active@.len() && #[trigger] active@[r];
        lemma_count_positive(active@, rk);
    }
    let final_component = crate::graph::component::largest_component(input, &active, interrupt)?;
    receipt.maximum_components = max_u64(receipt.maximum_components, as_u64(final_component.components, "component count")?);
    let ghost pre_final = active@;
    intersect_active(&mut active, &final_component.keep, interrupt)?;
    proof {
        assert(active@ =~= final_component.keep@);
        let wf = choose|w: int| crate::graph::component::keeps_largest_component(input, pre_final, final_component.keep@, w);
        lemma_largest_keep(input, pre_final, final_component.keep@, wf);
        assert(active@ == match_fixed_point(input));
        assert(active@ == pre_final);
        assert(match_settled(input, active@));
        let rk = choose|r: int| 0 <= r < active@.len() && #[trigger] active@[r];
        lemma_count_positive(active@, rk);
        if crate::graph::dfs::deletion_crosses(input, active@) {
            lemma_crosses_within(input, active@, all_rows(input));
        }
        if whole {
            let w = choose|w: int| crate::graph::component::keeps_largest_component(input, pre_final, final_component.keep@, w);
            lemma_whole_keeps(input, final_component.keep@, w);
        }
    }

    let final_bridges = crate::graph::dfs::deletion_bridges(input, &active, interrupt)?;
    proof {
        if whole && final_bridges.len() > 0 {
            let d = final_bridges@[0];
            assert(final_bridges@.contains(d));
            assert(active_deletions(input, active@).contains(d));
            assert(crate::graph::dfs::unit_not_bridge(input, active@, d));
            assert(false);
        }
    }
    proof {
        if final_bridges.len() > 0 {
            let d = final_bridges@[0];
            assert(final_bridges@.contains(d));
            assert(active_deletions(input, active@).contains(d));
            assert(!crate::graph::dfs::unit_not_bridge(input, active@, d));
            assert(has_bridge_unit(input, active@));
        }
    }
    if final_bridges.len() != 0 {
        return Err(BackendError::new(
            ErrorCode::GraphCertificateFailed,
            "graph",
            "final retained deletion-unit multigraph still contains a bridge",
        ));
    }
    proof {
        assert forall|d: u32| active_deletions(input, active@).contains(d) implies #[trigger] crate::graph::dfs::unit_not_bridge(
            input,
            active@,
            d,
        ) by {
            assert(!final_bridges@.contains(d));
        }
    }
    let final_articulations = crate::graph::dfs::worker_articulations(input, &active, interrupt)?;
    proof {
        if whole {
            assert forall|k: int| 0 <= k < final_articulations.len() implies !#[trigger] final_articulations@[k] by {
                assert(crate::graph::dfs::worker_not_cut(input, all_rows(input), k));
            }
            lemma_count_none(final_articulations@, final_articulations.len() as int);
        }
    }
    proof {
        assert forall|k: int| 0 <= k < final_articulations.len() implies !#[trigger] final_articulations@[k] by {
            if final_articulations@[k] {
                assert(!crate::graph::dfs::worker_not_cut(input, active@, k));
                assert(has_cut_worker(input, active@));
            }
        }
        lemma_count_none(final_articulations@, final_articulations.len() as int);
    }
    if count_true(&final_articulations, interrupt, "graph_final_articulation_count")? > 0 {
        return Err(BackendError::new(
            ErrorCode::GraphCertificateFailed,
            "graph",
            "final retained graph still contains a worker articulation",
        ));
    }
    proof {
        assert forall|w: int| 0 <= w < input.spec_workers() implies #[trigger] crate::graph::dfs::worker_not_cut(
            input,
            active@,
            w,
        ) by {
            if final_articulations@[w] {
                lemma_count_positive(final_articulations@, w);
            }
        }
    }
    let final_worker_firms = distinct_firm_counts(input, &active, interrupt)?;
    proof {
        if whole {
            assert forall|w: int| 0 <= w < final_worker_firms.len() implies #[trigger] final_worker_firms@[w] != 1 by {
                lemma_whole_no_single_firm(input, w);
            }
        }
    }
    proof {
        assert forall|w: int| 0 <= w < final_worker_firms.len() implies #[trigger] final_worker_firms@[w] != 1 by {
            if final_worker_firms@[w] == 1 {
                assert(distinct_firms(input, active@, w) == 1);
                assert(has_single_firm_worker(input, active@));
            }
        }
    }
    let mut one_firm = false;
    let mut worker: usize = 0;
    while worker < final_worker_firms.len()
        invariant
            worker <= final_worker_firms.len(),
            !one_firm,
            forall|w: int| 0 <= w < final_worker_firms.len() ==> #[trigger] final_worker_firms@[w] != 1,
            !one_firm ==> forall|v: int| 0 <= v < worker ==> #[trigger] final_worker_firms@[v] != 1,
            whole == (inert0 && match_certified_whole(input)),
            whole ==> !one_firm,
            whole ==> forall|w: int| 0 <= w < final_worker_firms.len() ==> #[trigger] final_worker_firms@[w] != 1,
            inert0 == old(interrupt).inert(),
            !(inert0 && 0 < input.spec_worker().len() <= INTERRUPTIBLE_SORT_RUN && largest_component_tied(input, all_rows(input))),
            inert0 ==> interrupt.inert(),
        decreases final_worker_firms.len() - worker,
    {
        match checkpoint_chunk(interrupt, worker, "graph_final_degree_scan") {
            Ok(()) => {},
            Err(e) => {
                return Err(e);
            },
        }
        one_firm = one_firm || final_worker_firms[worker] == 1;
        worker = worker + 1;
    }
    if one_firm {
        return Err(BackendError::new(
            ErrorCode::GraphCertificateFailed,
            "graph",
            "final retained graph still contains a one-firm worker",
        ));
    }

    proof {
        if whole {
            lemma_count_all(active@, rows as int);
        }
    }
    let retained_rows = count_true(&active, interrupt, "graph_retained_count")?;
    if retained_rows == 0 {
        return Err(BackendError::new(ErrorCode::GraphEmpty, "graph", "no component remains after fixed-point graph pruning"));
    }
    receipt.retained_rows = as_u64(retained_rows, "retained row count")?;
    let mut retained_mass: u64 = 0;
    let mut row: usize = 0;
    while row < rows
        invariant
            input.wf(),
            rows == input.spec_worker().len(),
            active.len() == rows,
            row <= rows,
            retained_mass == active_mass_prefix(input, active@, row as int),
            inert0 == old(interrupt).inert(),
            !(inert0 && 0 < input.spec_worker().len() <= INTERRUPTIBLE_SORT_RUN && largest_component_tied(input, all_rows(input))),
            inert0 ==> interrupt.inert(),
        decreases rows - row,
    {
        match checkpoint_chunk(interrupt, row, "graph_retained_reconcile") {
            Ok(()) => {},
            Err(e) => {
                return Err(e);
            },
        }
        if active[row] {
            proof {
                lemma_active_mass_bounded(input, active@, row + 1);
                crate::problem::lemma_mass_prefix_monotone(input.spec_frequency(), row + 1, rows as int);
            }
            retained_mass = match retained_mass.checked_add(input.frequency_at(row)) {
                Some(v) => v,
                None => {
                    return Err(BackendError::new(ErrorCode::ResourceLimit, "graph", "retained physical mass overflow"));
                },
            };
        }
        row = row + 1;
    }
    receipt.retained_physical_mass = retained_mass;
    let retained_ids = active_deletion_ids(input, &active, interrupt)?;
    receipt.retained_deletion_edges = as_u64(retained_ids.len(), "retained deletion edges")?;

    interrupt.checkpoint("graph_final")?;
    let selection = GraphSelection { active, receipt };
    proof {
        let a = selection.active@;
        let w = choose|w: int| crate::graph::component::keeps_largest_component(input, pre_final, a, w);
        assert forall|p: int, q: int|
            0 <= p < a.len() && 0 <= q < a.len() && a[p] && a[q] implies #[trigger] connected(
                input,
                a,
                input.spec_worker()[p] as int,
                #[trigger] input.spec_worker()[q] as int,
            ) by {
            crate::graph::component::lemma_component_restriction(input, pre_final, a, w, p);
            crate::graph::component::lemma_component_restriction(input, pre_final, a, w, q);
            lemma_connected_symmetric(input, a, w, input.spec_worker()[p] as int);
            lemma_connected_transitive(input, a, input.spec_worker()[p] as int, w, input.spec_worker()[q] as int);
        }
        assert forall|r: int| 0 <= r < a.len() && a[r] implies distinct_firms(input, a, #[trigger] input.spec_worker()[r] as int) >= 2 by {
            lemma_distinct_firms_positive(input, a, r);
            let _ = final_worker_firms@[input.spec_worker()[r] as int];
        }
        assert(mask_within(a, movers)) by {
            assert forall|r: int| 0 <= r < a.len() && #[trigger] a[r] implies movers[r] by {
                assert(pre_final[r]);
                assert(start[r]);
            }
        }
        assert(mask_within(a, start)) by {
            assert forall|r: int| 0 <= r < a.len() && #[trigger] a[r] implies start[r] by {
                assert(pre_final[r]);
            }
        }
        lemma_mask_within(input, a, start);
        lemma_mask_within(input, a, movers);
        lemma_active_mass_bounded(input, a, rows as int);
        let rc = selection.receipt;
        assert(rc.fixed_point_iterations == rc.degree_iterations + rc.articulation_iterations + rc.bridge_iterations);
        assert(rc.retained_rows <= rc.mover_input_rows);
        assert(rc.mover_input_rows <= rc.initial_component_rows);
        assert(rc.initial_component_rows <= rc.input_rows);
        assert(rc.retained_physical_mass <= rc.input_physical_mass);
        assert(1 <= rc.initial_components <= rc.maximum_components);
        assert(rc.retained_deletion_edges <= rc.initial_deletion_edges);
        assert(receipt_consistent(selection.receipt));
    }
    Ok(selection)
}

/// Selects the observation-deletion estimation sample with the inert checker.
pub fn select_observation_deletion_graph(input: &CanonicalInput) -> (r: Result<GraphSelection>)
    ensures
        r matches Ok(sel) ==> observation_selection_certified(input, sel),
        input.spec_worker().len() == 0 ==> (r matches Err(e) && e.code == ErrorCode::GraphEmpty),
        r matches Err(e) ==> selection_error(e),
        observation_certified_whole(input) ==> (r matches Ok(sel) ==> sel.active@ == all_rows(input)),
        observation_certified_whole(input) ==> (r matches Err(e) ==> machine_error(e)),
        observation_certified_whole(input) && within_machine_limits(input) ==> (r matches Ok(sel)
            && sel.receipt.fixed_point_iterations == 0 && sel.receipt.mover_input_rows
            == input.spec_worker().len()),
        0 < input.spec_worker().len() <= INTERRUPTIBLE_SORT_RUN && largest_component_tied(
            input,
            all_rows(input),
        ) ==> (r matches Err(e) && e.code == ErrorCode::GraphUnidentified),
        r matches Ok(sel) ==> exists|keep: Seq<bool>, w: int|
            keeps_largest_component(input, all_rows(input), keep, w) && mask_within(sel.active@, keep),
        r matches Ok(sel) ==> sel.active@ == observation_fixed_point(input),
        r matches Ok(sel) ==> observation_receipt_exact(input, sel.receipt),
        within_machine_limits(input) && observation_proceeds(input) ==> r is Ok,
        within_machine_limits(input) ==> (r matches Err(e) ==> observation_refusal(input, e.code)),
        r matches Ok(sel) ==> crate::graph::fixed::observation_stable(input, sel.active@),
{
    let mut never = crate::interrupt::NeverInterrupt;
    select_observation_deletion_graph_with_interrupt(input, &mut never)
}

/// What a successful observation-deletion selection guarantees.
pub open spec fn observation_selection_certified(input: &CanonicalInput, sel: GraphSelection) -> bool {
    let a = sel.active@;
    &&& a.len() == input.spec_worker().len()
    &&& single_component(input, a)
    &&& no_physical_singletons(input, a)
    &&& forall|w: int| 0 <= w < input.spec_workers() ==> #[trigger] crate::graph::dfs::worker_not_cut(input, a, w)
    &&& receipt_reports(input, a, sel.receipt)
    &&& sel.receipt.retained_deletion_edges == active_coordinates(input, a).len()
    &&& receipt_consistent(sel.receipt)
    &&& sel.receipt.bridge_units_removed == 0
    &&& sel.receipt.bridge_rows_removed == 0
    &&& sel.receipt.bridge_iterations == 0
}

/// The leave-one-observation-out sample. Stayers remain in the target
/// population, and the deletion-rank gate removes workers with a single
/// physical observation rather than workers observed at a single firm.
/// Coordinate bridges are not deletion units here, so the fixed point ends
/// after the worker-articulation gate.
#[verifier::rlimit(100)]
#[verifier::spinoff_prover]
pub fn select_observation_deletion_graph_with_interrupt<I: InterruptCheck>(
    input: &CanonicalInput,
    interrupt: &mut I,
) -> (r: Result<GraphSelection>)
    ensures
        r matches Ok(sel) ==> observation_selection_certified(input, sel),
        old(interrupt).inert() ==> final(interrupt).inert(),
        old(interrupt).inert() && input.spec_worker().len() == 0 ==> (r matches Err(e) && e.code
            == ErrorCode::GraphEmpty),
        old(interrupt).inert() ==> (r matches Err(e) ==> selection_error(e)),
        old(interrupt).inert() && observation_certified_whole(input) ==> (r matches Ok(sel) ==> sel.active@
            == all_rows(input)),
        old(interrupt).inert() && observation_certified_whole(input) ==> (r matches Err(e) ==> machine_error(e)),
        old(interrupt).inert() && observation_certified_whole(input) && within_machine_limits(input) ==> (r matches Ok(
            sel,
        ) && sel.receipt.fixed_point_iterations == 0 && sel.receipt.mover_input_rows == input.spec_worker().len()),
        old(interrupt).inert() && 0 < input.spec_worker().len() <= INTERRUPTIBLE_SORT_RUN
            && largest_component_tied(input, all_rows(input)) ==> (r matches Err(e) && e.code
            == ErrorCode::GraphUnidentified),
        r matches Ok(sel) ==> exists|keep: Seq<bool>, w: int|
            keeps_largest_component(input, all_rows(input), keep, w) && mask_within(sel.active@, keep),
        r matches Ok(sel) ==> sel.active@ == observation_fixed_point(input),
        r matches Ok(sel) ==> observation_receipt_exact(input, sel.receipt),
        old(interrupt).inert() && within_machine_limits(input) && observation_proceeds(input) ==> r is Ok,
        old(interrupt).inert() && within_machine_limits(input) ==> (r matches Err(e) ==> observation_refusal(
            input,
            e.code,
        )),
        r matches Ok(sel) ==> crate::graph::fixed::observation_stable(input, sel.active@),
{
    proof {
        use_type_invariant(input);
    }
    let ghost inert0 = interrupt.inert();
    let ghost whole = inert0 && observation_certified_whole(input);
    let ghost limits = inert0 && within_machine_limits(input);
    let ghost untied = observation_untied(input);
    let ghost nonempty = observation_nonempty(input);
    let ghost settles = observation_settles(input);
    proof {
        let start0 = largest_keep(input, all_rows(input));
        assert(untied ==> !largest_component_tied(input, all_rows(input))
            && observation_no_tie(input, start0, (input.spec_workers() + 2) as nat)) by {
            reveal(observation_untied);
        }
        assert(nonempty ==> input.spec_worker().len() > 0
            && observation_no_empty(input, start0, (input.spec_workers() + 2) as nat)) by {
            reveal(observation_nonempty);
        }
        assert(settles ==> observation_rounds(input, start0, (input.spec_workers() + 2) as nat)
            <= input.spec_workers() + 1) by {
            reveal(observation_settles);
        }
    }
    interrupt.checkpoint("graph_observation_entry")?;
    let rows = input.rows();
    if rows == 0 {
        return Err(BackendError::new(ErrorCode::GraphEmpty, "graph", "command sample is empty"));
    }
    let mut active: Vec<bool> = Vec::new();
    while active.len() < rows
        invariant
            active.len() <= rows,
            forall|q: int| 0 <= q < active.len() ==> #[trigger] active@[q],
        decreases rows - active.len(),
    {
        active.push(true);
    }
    proof {
        assert(count_prefix(active@, 0) == 0);
        assert(count_prefix(active@, 1) == 1);
        lemma_count_monotone(active@, 1, rows as int);
        assert(active@ =~= all_rows(input));
        if whole {
            lemma_whole_untied(input);
        }
    }
    let mut receipt = GraphSelectionReceipt::zero();
    receipt.input_rows = as_u64(rows, "input row count")?;
    receipt.input_physical_mass = input.physical_total();

    let initial = crate::graph::component::largest_component(input, &active, interrupt)?;
    proof {
        assert(!(inert0 && 0 < input.spec_worker().len() <= INTERRUPTIBLE_SORT_RUN && largest_component_tied(input, all_rows(input))));
    }
    receipt.initial_components = as_u64(initial.components, "component count")?;
    receipt.maximum_components = receipt.initial_components;
    receipt.initial_component_rows = as_u64(initial.retained_rows, "component row count")?;
    let ghost every_row = active@;
    intersect_active(&mut active, &initial.keep, interrupt)?;
    proof {
        assert(active@ =~= initial.keep@);
        lemma_count_prefix_bounds(initial.keep@, rows as int);
        let w0 = choose|w: int| crate::graph::component::keeps_largest_component(input, every_row, initial.keep@, w);
        lemma_largest_keep(input, every_row, initial.keep@, w0);
        lemma_keep_idempotent(input, every_row, initial.keep@, w0);
        let r0 = choose|r: int| 0 <= r < initial.keep@.len() && #[trigger] initial.keep@[r];
        lemma_count_positive(initial.keep@, r0);
        if whole {
            let w = choose|w: int| crate::graph::component::keeps_largest_component(input, every_row, initial.keep@, w);
            lemma_whole_keeps(input, initial.keep@, w);
            lemma_count_all(active@, rows as int);
        }
    }
    receipt.mover_input_rows = as_u64(count_true(&active, interrupt, "graph_observation_initial_count")?, "observation target row count")?;
    let ghost start = active@;

    let initial_graph = coordinate_graph(input, &active, interrupt)?;
    receipt.initial_deletion_edges = as_u64(initial_graph.edges, "coordinate edge count")?;
    let iteration_bound = match input.workers().checked_add(1) {
        Some(v) => v,
        None => {
            return Err(counter_overflow("observation iteration bound"));
        },
    };
    let iteration_bound = as_u64(iteration_bound, "iteration bound")?;

    proof {
        if limits {
            crate::graph::fixed::lemma_rounds_fit(input);
        }
        lemma_observation_ledger_start(input, receipt.maximum_components as int, start, (iteration_bound + 1) as nat);
    }
    let ghost most = larger(receipt.maximum_components as int, observation_max_components(input, start, (iteration_bound + 1) as nat));
    loop
        invariant_except_break
            observation_iterate(input, active@, (iteration_bound + 1 - receipt.fixed_point_iterations) as nat)
                == observation_iterate(input, start, (iteration_bound + 1) as nat),
            untied ==> observation_no_tie(input, active@, (iteration_bound + 1 - receipt.fixed_point_iterations) as nat),
            nonempty ==> observation_no_empty(input, active@, (iteration_bound + 1 - receipt.fixed_point_iterations) as nat),
            receipt.fixed_point_iterations + observation_rounds(input, active@, (iteration_bound + 1
                - receipt.fixed_point_iterations) as nat) == observation_rounds(input, start, (iteration_bound + 1) as nat),
            observation_ledger(
                input,
                receipt_observation_tally(receipt),
                receipt.maximum_components as int,
                active@,
                (iteration_bound + 1 - receipt.fixed_point_iterations) as nat,
                observation_tally(input, start, (iteration_bound + 1) as nat),
                most,
            ),
        invariant
            most == larger(
                component_count(input, all_rows(input)),
                observation_max_components(input, start, (iteration_bound + 1) as nat),
            ),
            input.wf(),
            rows == input.spec_worker().len(),
            rows > 0,
            active.len() == rows,
            start == largest_keep(input, all_rows(input)),
            iteration_bound == input.spec_workers() + 1,
            limits ==> input.spec_workers() + rows + 2 < u64::MAX,
            limits == (inert0 && within_machine_limits(input)),
            untied == observation_untied(input),
            nonempty == observation_nonempty(input),
            settles == observation_settles(input),
            settles ==> observation_rounds(input, start, (iteration_bound + 1) as nat) <= iteration_bound,
            iteration_bound <= input.spec_workers() + rows + 1,
            receipt.insufficient_workers_removed <= receipt.degree_iterations * (input.spec_workers() + rows),
            receipt.articulation_workers_removed <= receipt.articulation_iterations * (input.spec_workers() + rows),
            receipt.initial_components == component_count(input, all_rows(input)),
            receipt.initial_component_rows == count_true_spec(largest_keep(input, all_rows(input))),
            mask_within(active@, start),
            receipt.input_rows == rows,
            receipt.input_physical_mass == input.spec_physical_total(),
            receipt.mover_input_rows == count_true_spec(start),
            receipt.initial_component_rows <= receipt.input_rows,
            receipt.mover_input_rows <= receipt.initial_component_rows,
            receipt.initial_deletion_edges == active_coordinates(input, start).len(),
            1 <= receipt.initial_components <= receipt.maximum_components,
            receipt.fixed_point_iterations == receipt.degree_iterations + receipt.articulation_iterations
                + receipt.bridge_iterations,
            receipt.bridge_iterations == 0,
            receipt.bridge_units_removed == 0,
            receipt.bridge_rows_removed == 0,
            receipt.fixed_point_iterations <= iteration_bound + 1,
            receipt.retained_rows == 0,
            whole == (inert0 && observation_certified_whole(input)),
            whole ==> active@ == all_rows(input) && receipt.fixed_point_iterations == 0,
            inert0 == old(interrupt).inert(),
            !(inert0 && 0 < input.spec_worker().len() <= INTERRUPTIBLE_SORT_RUN && largest_component_tied(input, all_rows(input))),
            inert0 ==> interrupt.inert(),
        ensures
            active@ == observation_iterate(input, start, (iteration_bound + 1) as nat),
            receipt.fixed_point_iterations == observation_rounds(input, start, (iteration_bound + 1) as nat),
            receipt_observation_tally(receipt) == observation_tally(input, start, (iteration_bound + 1) as nat),
            receipt.maximum_components == most,
            observation_settled(input, active@),
            exists|a0: Seq<bool>, w0: int|
                a0.len() == rows && #[trigger] keeps_largest_component(input, a0, active@, w0),
        decreases iteration_bound + 1 - receipt.fixed_point_iterations,
    {
        interrupt.checkpoint("graph_observation_fixed_point")?;
        if receipt.fixed_point_iterations > iteration_bound {
            return Err(BackendError::new(
                ErrorCode::GraphCertificateFailed,
                "graph",
                "observation-deletion pruning exceeded its finite iteration bound",
            ));
        }
        proof {
            if whole {
                lemma_whole_untied(input);
                lemma_count_all(active@, rows as int);
            }
        }
        let ghost fuel = (iteration_bound + 1 - receipt.fixed_point_iterations) as nat;
        proof {
            lemma_observation_step(input, active@, fuel);
        }
        let ghost counted = receipt_observation_tally(receipt);
        let ghost seen = receipt.maximum_components as int;
        let ghost before_component = active@;
        let component = crate::graph::component::largest_component(input, &active, interrupt)?;
        receipt.maximum_components = max_u64(receipt.maximum_components, as_u64(component.components, "component count")?);
        intersect_active(&mut active, &component.keep, interrupt)?;
        let ghost k = active@;
        proof {
            assert(active@ =~= component.keep@);
            let wk = choose|w: int| crate::graph::component::keeps_largest_component(input, before_component, component.keep@, w);
            lemma_largest_keep(input, before_component, component.keep@, wk);
            lemma_keep_idempotent(input, before_component, k, wk);
            let rk = choose|r: int| 0 <= r < k.len() && #[trigger] k[r];
            lemma_count_positive(k, rk);
            if whole {
                let w = choose|w: int| crate::graph::component::keeps_largest_component(input, before_component, component.keep@, w);
                lemma_whole_keeps(input, component.keep@, w);
                lemma_count_all(active@, rows as int);
            }
        }
        if count_true(&active, interrupt, "graph_observation_active_count")? == 0 {
            return Err(BackendError::new(ErrorCode::GraphEmpty, "graph", "no component remains after observation-deletion pruning"));
        }

        let physical = worker_physical_counts(input, &active, interrupt)?;
        let mut singleton: Vec<bool> = Vec::new();
        let mut worker: usize = 0;
        while worker < physical.len()
            invariant
                singleton.len() == worker,
                worker <= physical.len(),
                forall|k: int| 0 <= k < worker ==> #[trigger] singleton@[k] == (physical@[k] == 1),
                inert0 == old(interrupt).inert(),
                !(inert0 && 0 < input.spec_worker().len() <= INTERRUPTIBLE_SORT_RUN && largest_component_tied(input, all_rows(input))),
                inert0 ==> interrupt.inert(),
            decreases physical.len() - worker,
        {
            match checkpoint_chunk(interrupt, worker, "graph_observation_degree_scan") {
                Ok(()) => {},
                Err(e) => {
                    return Err(e);
                },
            }
            singleton.push(physical[worker] == 1);
            worker = worker + 1;
        }
        proof {
            if whole {
                assert forall|k: int| 0 <= k < singleton.len() implies !#[trigger] singleton@[k] by {
                    lemma_whole_no_singleton(input, k);
                }
                lemma_count_none(singleton@, singleton.len() as int);
            }
        }
        let removed = count_true(&singleton, interrupt, "graph_observation_degree_count")?;
        proof {
            assert(removed == count_true_spec(crate::graph::fixed::singleton_workers(input, k))) by {
                assert forall|w: int| 0 <= w < input.spec_workers() implies #[trigger] singleton@[w] == (worker_mass(input, k, w) == 1) by {
                    assert(physical@[w] == worker_mass(input, k, w));
                }
                assert(singleton@ =~= crate::graph::fixed::singleton_workers(input, k));
            }
            assert forall|w: int| 0 <= w < input.spec_workers() implies #[trigger] singleton@[w] == (worker_mass(input, k, w) == 1) by {
                assert(physical@[w] == worker_mass(input, k, w));
            }
            if removed > 0 {
                let w = lemma_count_prefix_witness(singleton@, singleton.len() as int);
                assert(worker_mass(input, k, w) == 1);
                assert(has_singleton_worker(input, k));
            } else if has_singleton_worker(input, k) {
                let w = choose|w: int| 0 <= w < input.spec_workers() && #[trigger] worker_mass(input, k, w) == 1;
                lemma_count_positive(singleton@, w);
            }
        }
        if removed > 0 {
            remove_flagged_workers(input, &mut active, &singleton, interrupt, "graph_observation_degree_prune")?;
            proof {
                lemma_singleton_prune(input, k, singleton@, active@);
            }
            proof {
                lemma_count_prefix_bounds(singleton@, singleton.len() as int);
                lemma_counter_room(
                    receipt.insufficient_workers_removed as int,
                    removed as int,
                    receipt.degree_iterations as int,
                    input,
                );
            }
            receipt.insufficient_workers_removed = match receipt.insufficient_workers_removed.checked_add(as_u64(removed, "removed worker count")?) {
                Some(v) => v,
                None => {
                    return Err(counter_overflow("insufficient workers"));
                },
            };
            receipt.degree_iterations = bump(receipt.degree_iterations, "degree iterations")?;
            receipt.fixed_point_iterations = bump(receipt.fixed_point_iterations, "fixed-point iterations")?;
            proof {
                lemma_observation_ledger_step(input, counted, seen, before_component, fuel, observation_tally(input, start, (iteration_bound + 1) as nat), most);
            }
            continue;
        }

        let articulations = crate::graph::dfs::worker_articulations(input, &active, interrupt)?;
        proof {
            if whole {
                assert forall|k: int| 0 <= k < articulations.len() implies !#[trigger] articulations@[k] by {
                    assert(crate::graph::dfs::worker_not_cut(input, all_rows(input), k));
                }
                lemma_count_none(articulations@, articulations.len() as int);
            }
        }
        let removed = count_true(&articulations, interrupt, "graph_observation_articulation_count")?;
        proof {
            assert(removed == count_true_spec(crate::graph::fixed::cut_workers(input, k))) by {
                assert(articulations@ =~= crate::graph::fixed::cut_workers(input, k));
            }
            if removed > 0 {
                let w = lemma_count_prefix_witness(articulations@, articulations.len() as int);
                assert(!crate::graph::dfs::worker_not_cut(input, k, w));
                assert(has_cut_worker(input, k));
            } else if has_cut_worker(input, k) {
                let w = choose|w: int| 0 <= w < input.spec_workers() && !#[trigger] crate::graph::dfs::worker_not_cut(input, k, w);
                assert(articulations@[w]);
                lemma_count_positive(articulations@, w);
            }
        }
        if removed == 0 {
            proof {
                lemma_observation_ledger_done(input, counted, seen, before_component, fuel, observation_tally(input, start, (iteration_bound + 1) as nat), most);
            }
            break;
        }
        remove_flagged_workers(input, &mut active, &articulations, interrupt, "graph_observation_articulation_prune")?;
        proof {
            lemma_observation_cut_prune(input, k, articulations@, active@);
        }
        proof {
            lemma_count_prefix_bounds(articulations@, articulations.len() as int);
            lemma_counter_room(
                receipt.articulation_workers_removed as int,
                removed as int,
                receipt.articulation_iterations as int,
                input,
            );
        }
        receipt.articulation_workers_removed = match receipt.articulation_workers_removed.checked_add(as_u64(removed, "articulation count")?) {
            Some(v) => v,
            None => {
                return Err(counter_overflow("articulation workers"));
            },
        };
        receipt.articulation_iterations = bump(receipt.articulation_iterations, "articulation iterations")?;
        receipt.fixed_point_iterations = bump(receipt.fixed_point_iterations, "fixed-point iterations")?;
        proof {
            lemma_observation_ledger_step(input, counted, seen, before_component, fuel, observation_tally(input, start, (iteration_bound + 1) as nat), most);
        }
    }

    proof {
        if whole {
            lemma_whole_untied(input);
            lemma_count_all(active@, rows as int);
        }
    }
    proof {
        let (a0, w0) = choose|a0: Seq<bool>, w0: int|
            a0.len() == rows && #[trigger] keeps_largest_component(input, a0, active@, w0);
        lemma_keep_idempotent(input, a0, active@, w0);
        let rk = choose|r: int| 0 <= r < active@.len() && #[trigger] active@[r];
        lemma_count_positive(active@, rk);
    }
    let final_component = crate::graph::component::largest_component(input, &active, interrupt)?;
    receipt.maximum_components = max_u64(receipt.maximum_components, as_u64(final_component.components, "component count")?);
    let ghost pre_final = active@;
    intersect_active(&mut active, &final_component.keep, interrupt)?;
    proof {
        assert(active@ =~= final_component.keep@);
        let wf = choose|w: int| crate::graph::component::keeps_largest_component(input, pre_final, final_component.keep@, w);
        lemma_largest_keep(input, pre_final, final_component.keep@, wf);
        assert(active@ == observation_fixed_point(input));
        assert(active@ == pre_final);
        assert(observation_settled(input, active@));
        let rk = choose|r: int| 0 <= r < active@.len() && #[trigger] active@[r];
        lemma_count_positive(active@, rk);
        if whole {
            let w = choose|w: int| crate::graph::component::keeps_largest_component(input, pre_final, final_component.keep@, w);
            lemma_whole_keeps(input, final_component.keep@, w);
            lemma_count_all(active@, rows as int);
        }
    }

    let final_physical = worker_physical_counts(input, &active, interrupt)?;
    proof {
        if whole {
            assert forall|w: int| 0 <= w < final_physical.len() implies #[trigger] final_physical@[w] != 1 by {
                lemma_whole_no_singleton(input, w);
            }
        }
    }
    proof {
        assert forall|w: int| 0 <= w < final_physical.len() implies #[trigger] final_physical@[w] != 1 by {
            if final_physical@[w] == 1 {
                assert(worker_mass(input, active@, w) == 1);
                assert(has_singleton_worker(input, active@));
            }
        }
    }
    let mut singleton_left = false;
    let mut worker: usize = 0;
    while worker < final_physical.len()
        invariant
            worker <= final_physical.len(),
            !singleton_left,
            forall|w: int| 0 <= w < final_physical.len() ==> #[trigger] final_physical@[w] != 1,
            !singleton_left ==> forall|v: int| 0 <= v < worker ==> #[trigger] final_physical@[v] != 1,
            whole ==> !singleton_left,
            whole ==> forall|w: int| 0 <= w < final_physical.len() ==> #[trigger] final_physical@[w] != 1,
        decreases final_physical.len() - worker,
    {
        if final_physical[worker] == 1 {
            singleton_left = true;
        }
        worker = worker + 1;
    }
    if singleton_left {
        return Err(BackendError::new(
            ErrorCode::GraphCertificateFailed,
            "graph",
            "final observation-deletion graph still contains a physical-singleton worker",
        ));
    }
    let final_articulations = crate::graph::dfs::worker_articulations(input, &active, interrupt)?;
    proof {
        if whole {
            assert forall|k: int| 0 <= k < final_articulations.len() implies !#[trigger] final_articulations@[k] by {
                assert(crate::graph::dfs::worker_not_cut(input, all_rows(input), k));
            }
            lemma_count_none(final_articulations@, final_articulations.len() as int);
        }
    }
    proof {
        assert forall|k: int| 0 <= k < final_articulations.len() implies !#[trigger] final_articulations@[k] by {
            if final_articulations@[k] {
                assert(!crate::graph::dfs::worker_not_cut(input, active@, k));
                assert(has_cut_worker(input, active@));
            }
        }
        lemma_count_none(final_articulations@, final_articulations.len() as int);
    }
    if count_true(&final_articulations, interrupt, "graph_observation_final_articulation_count")? > 0 {
        return Err(BackendError::new(
            ErrorCode::GraphCertificateFailed,
            "graph",
            "final observation-deletion graph still contains a worker articulation",
        ));
    }
    proof {
        assert forall|w: int| 0 <= w < input.spec_workers() implies #[trigger] crate::graph::dfs::worker_not_cut(
            input,
            active@,
            w,
        ) by {
            if final_articulations@[w] {
                lemma_count_positive(final_articulations@, w);
            }
        }
    }

    proof {
        if whole {
            lemma_count_all(active@, rows as int);
        }
    }
    let retained_rows = count_true(&active, interrupt, "graph_observation_retained_count")?;
    if retained_rows == 0 {
        return Err(BackendError::new(ErrorCode::GraphEmpty, "graph", "no component remains after observation-deletion graph pruning"));
    }
    receipt.retained_rows = as_u64(retained_rows, "retained row count")?;
    let mut retained_mass: u64 = 0;
    let mut row: usize = 0;
    while row < rows
        invariant
            input.wf(),
            rows == input.spec_worker().len(),
            active.len() == rows,
            row <= rows,
            retained_mass == active_mass_prefix(input, active@, row as int),
            inert0 == old(interrupt).inert(),
            !(inert0 && 0 < input.spec_worker().len() <= INTERRUPTIBLE_SORT_RUN && largest_component_tied(input, all_rows(input))),
            inert0 ==> interrupt.inert(),
        decreases rows - row,
    {
        match checkpoint_chunk(interrupt, row, "graph_observation_retained_reconcile") {
            Ok(()) => {},
            Err(e) => {
                return Err(e);
            },
        }
        if active[row] {
            proof {
                lemma_active_mass_bounded(input, active@, row + 1);
                crate::problem::lemma_mass_prefix_monotone(input.spec_frequency(), row + 1, rows as int);
            }
            retained_mass = match retained_mass.checked_add(input.frequency_at(row)) {
                Some(v) => v,
                None => {
                    return Err(counter_overflow("retained physical mass"));
                },
            };
        }
        row = row + 1;
    }
    receipt.retained_physical_mass = retained_mass;
    let retained_graph = coordinate_graph(input, &active, interrupt)?;
    receipt.retained_deletion_edges = as_u64(retained_graph.edges, "retained coordinate edges")?;
    interrupt.checkpoint("graph_observation_final")?;
    let selection = GraphSelection { active, receipt };
    proof {
        let a = selection.active@;
        let w = choose|w: int| crate::graph::component::keeps_largest_component(input, pre_final, a, w);
        assert forall|p: int, q: int|
            0 <= p < a.len() && 0 <= q < a.len() && a[p] && a[q] implies #[trigger] connected(
                input,
                a,
                input.spec_worker()[p] as int,
                #[trigger] input.spec_worker()[q] as int,
            ) by {
            crate::graph::component::lemma_component_restriction(input, pre_final, a, w, p);
            crate::graph::component::lemma_component_restriction(input, pre_final, a, w, q);
            lemma_connected_symmetric(input, a, w, input.spec_worker()[p] as int);
            lemma_connected_transitive(input, a, input.spec_worker()[p] as int, w, input.spec_worker()[q] as int);
        }
        assert forall|r: int| 0 <= r < a.len() && a[r] implies worker_mass(input, a, #[trigger] input.spec_worker()[r] as int) >= 2 by {
            lemma_worker_mass_positive(input, a, r, a.len() as int);
            let _ = final_physical@[input.spec_worker()[r] as int];
        }
        assert(mask_within(a, start)) by {
            assert forall|r: int| 0 <= r < a.len() && #[trigger] a[r] implies start[r] by {
                assert(pre_final[r]);
            }
        }
        lemma_mask_within(input, a, start);
        lemma_active_mass_bounded(input, a, rows as int);
        assert(receipt_consistent(selection.receipt));
    }
    Ok(selection)
}

/// A sequence with a true entry has a positive count.
proof fn lemma_count_positive(values: Seq<bool>, q: int)
    requires
        0 <= q < values.len(),
        values[q],
    ensures
        count_true_spec(values) >= 1,
{
    lemma_count_monotone(values, q, values.len() as int);
    lemma_count_monotone(values, q + 1, values.len() as int);
    lemma_count_monotone(values, 0, q);
}

proof fn lemma_count_monotone(values: Seq<bool>, a: int, b: int)
    requires
        0 <= a <= b <= values.len(),
    ensures
        count_prefix(values, a) <= count_prefix(values, b),
    decreases b - a,
{
    if a < b {
        lemma_count_monotone(values, a, b - 1);
    }
}

} // verus!
