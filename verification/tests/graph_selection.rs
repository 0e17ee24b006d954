use std::collections::BTreeMap;

use vckss_core::error::{BackendError, ErrorCode, Result};
use vckss_core::graph::dfs::{deletion_bridges, worker_articulations};
use vckss_core::graph::{
    bridge_deletion_set, distinct_firm_counts, maximum_component_rank,
    select_match_deletion_graph, select_observation_deletion_graph,
};
use vckss_core::interrupt::{InterruptCheck, NeverInterrupt};
use vckss_core::problem::CanonicalInput;

struct BreakOnPhase {
    phase: &'static str,
    hits: usize,
    stop_at: usize,
}

impl BreakOnPhase {
    fn new(phase: &'static str, stop_at: usize) -> Self {
        Self {
            phase,
            hits: 0,
            stop_at,
        }
    }
}

impl InterruptCheck for BreakOnPhase {
    fn checkpoint(&mut self, phase: &'static str) -> Result<()> {
        if phase == self.phase {
            self.hits += 1;
            if self.hits == self.stop_at {
                return Err(BackendError::new(
                    ErrorCode::UserBreak,
                    phase,
                    "injected large graph-pass break",
                ));
            }
        }
        Ok(())
    }
}

fn dense(ids: &[u64]) -> (Vec<u32>, usize) {
    let mut map = BTreeMap::new();
    for &id in ids {
        map.insert(id, 0_u32);
    }
    for (index, value) in map.values_mut().enumerate() {
        *value = u32::try_from(index).unwrap();
    }
    (ids.iter().map(|id| map[id]).collect(), map.len())
}

fn canonical_with_frequency(rows: &[(u64, u64, u64, u64)]) -> CanonicalInput {
    let (worker, workers) = dense(&rows.iter().map(|row| row.0).collect::<Vec<_>>());
    let (firm, firms) = dense(&rows.iter().map(|row| row.1).collect::<Vec<_>>());
    let (deletion, units) = dense(&rows.iter().map(|row| row.2).collect::<Vec<_>>());
    let frequency = rows.iter().map(|row| row.3).collect();
    CanonicalInput::from_dense(worker, firm, deletion, frequency, workers, firms, units)
        .expect("canonical fixture")
}

fn canonical(rows: &[(u64, u64, u64)]) -> CanonicalInput {
    let weighted = rows
        .iter()
        .map(|&(worker, firm, deletion)| (worker, firm, deletion, 1))
        .collect::<Vec<_>>();
    canonical_with_frequency(&weighted)
}

#[test]
fn complete_two_by_two_is_certified() {
    let input = canonical(&[(1, 1, 1), (1, 2, 2), (2, 1, 3), (2, 2, 4)]);
    let selection = select_match_deletion_graph(&input).expect("selection");
    assert_eq!(selection.active, vec![true; 4]);
    assert_eq!(selection.receipt.retained_deletion_edges, 4);
    assert_eq!(selection.receipt.fixed_point_iterations, 0);
}

#[test]
fn observation_deletion_retains_connected_stayers_with_multiple_copies() {
    let input = canonical_with_frequency(&[
        (1, 1, 1, 2),
        (2, 1, 2, 1),
        (2, 2, 3, 1),
        (3, 1, 4, 1),
        (3, 2, 5, 1),
    ]);
    let selection = select_observation_deletion_graph(&input).expect("selection");
    assert_eq!(selection.active, vec![true; 5]);
    assert_eq!(selection.receipt.mover_input_rows, 5);
    assert_eq!(selection.receipt.retained_physical_mass, 6);
    assert_eq!(selection.receipt.fixed_point_iterations, 0);
}

#[test]
fn observation_deletion_prunes_physical_singletons_to_a_fixed_point() {
    let input = canonical_with_frequency(&[
        (1, 1, 1, 1),
        (2, 1, 2, 1),
        (2, 2, 3, 1),
        (3, 1, 4, 1),
        (3, 2, 5, 1),
    ]);
    let selection = select_observation_deletion_graph(&input).expect("selection");
    assert_eq!(selection.active, vec![false, true, true, true, true]);
    assert_eq!(selection.receipt.insufficient_workers_removed, 1);
    assert_eq!(selection.receipt.degree_iterations, 1);
    assert_eq!(selection.receipt.fixed_point_iterations, 1);
}

#[test]
fn parallel_deletion_units_are_not_bridges() {
    let input = canonical(&[(1, 1, 1), (1, 1, 2), (1, 2, 3), (2, 1, 4), (2, 2, 5)]);
    let bridges = deletion_bridges(&input, &vec![true; input.rows()], &mut NeverInterrupt)
        .expect("bridges");
    assert!(bridges.is_empty());
}

#[test]
fn firm_count_precedes_physical_mass_in_component_rank() {
    let input = canonical_with_frequency(&[
        (1, 1, 1, 100),
        (1, 2, 2, 100),
        (2, 1, 3, 100),
        (2, 2, 4, 100),
        (3, 3, 5, 1),
        (3, 4, 6, 1),
        (3, 5, 7, 1),
        (4, 3, 8, 1),
        (4, 4, 9, 1),
        (4, 5, 10, 1),
    ]);
    let selection = select_match_deletion_graph(&input).expect("selection");
    assert_eq!(
        selection.active,
        vec![false, false, false, false, true, true, true, true, true, true]
    );
    assert_eq!(selection.receipt.retained_physical_mass, 6);
}

#[test]
fn tied_firm_count_and_physical_mass_fail_closed() {
    let input = canonical_with_frequency(&[
        (1, 1, 1, 3),
        (1, 2, 2, 1),
        (2, 1, 3, 1),
        (2, 2, 4, 1),
        (3, 3, 5, 1),
        (3, 4, 6, 1),
        (4, 3, 7, 2),
        (4, 4, 8, 2),
    ]);
    let error = select_match_deletion_graph(&input).expect_err("tie must fail");
    assert_eq!(error.code, ErrorCode::GraphUnidentified);
}

#[test]
fn cycle_has_no_worker_articulation() {
    let input = canonical(&[
        (1, 1, 1),
        (1, 2, 2),
        (2, 2, 3),
        (2, 3, 4),
        (3, 3, 5),
        (3, 1, 6),
    ]);
    let bad = worker_articulations(&input, &vec![true; input.rows()], &mut NeverInterrupt)
        .expect("articulations");
    assert_eq!(bad, vec![false, false, false]);
}

#[test]
fn long_graph_iterator_and_copy_passes_are_interruptible() {
    const ITEMS: usize = 9_001;

    let bridges = (0..ITEMS as u32).collect::<Vec<_>>();
    let mut interrupt = BreakOnPhase::new("graph_bridge_set", 2);
    let error = bridge_deletion_set(&bridges, &mut interrupt)
        .expect_err("bridge-set construction must break within bounded work");
    assert_eq!(error.code, ErrorCode::UserBreak);
    assert_eq!(interrupt.hits, 2);

    let firms = (0..ITEMS).collect::<Vec<_>>();
    let mass = (0..ITEMS as u64).collect::<Vec<_>>();
    let mut interrupt = BreakOnPhase::new("graph_component_max", 2);
    let error = maximum_component_rank(&firms, &mass, &mut interrupt)
        .expect_err("component maximum must break within bounded work");
    assert_eq!(error.code, ErrorCode::UserBreak);
    assert_eq!(interrupt.hits, 2);

    let rows = (0..ITEMS)
        .map(|row| (row as u64 + 1, row as u64 + 1, row as u64 + 1))
        .collect::<Vec<_>>();
    let input = canonical(&rows);
    let active = vec![true; ITEMS];

    let mut interrupt = BreakOnPhase::new("graph_distinct_firm_consume", 2);
    let error = distinct_firm_counts(&input, &active, &mut interrupt)
        .expect_err("coordinate consumption must break within bounded work");
    assert_eq!(error.code, ErrorCode::UserBreak);
    assert_eq!(interrupt.hits, 2);

    let mut interrupt = BreakOnPhase::new("graph_worker_articulation_copy", 2);
    let error = worker_articulations(&input, &active, &mut interrupt)
        .expect_err("worker-articulation copy must break within bounded work");
    assert_eq!(error.code, ErrorCode::UserBreak);
    assert_eq!(interrupt.hits, 2);
}

#[test]
fn tree_deletion_units_are_all_bridges() {
    let input = canonical(&[(1, 1, 1), (2, 1, 2), (2, 2, 3)]);
    let bridges = deletion_bridges(&input, &vec![true; input.rows()], &mut NeverInterrupt)
        .expect("bridges");
    assert_eq!(bridges, vec![0, 1, 2]);
}

#[test]
fn cycle_deletion_units_are_not_bridges() {
    let input = canonical(&[(1, 1, 1), (1, 2, 2), (2, 1, 3), (2, 2, 4)]);
    let bridges = deletion_bridges(&input, &vec![true; input.rows()], &mut NeverInterrupt)
        .expect("bridges");
    assert!(bridges.is_empty());
}

#[test]
fn pendant_deletion_unit_is_the_only_bridge() {
    let input = canonical(&[(1, 1, 1), (1, 2, 2), (2, 1, 3), (2, 2, 4), (2, 3, 5)]);
    let bridges = deletion_bridges(&input, &vec![true; input.rows()], &mut NeverInterrupt)
        .expect("bridges");
    assert_eq!(bridges, vec![4]);
}

#[test]
fn inactive_rows_leave_the_bridge_graph() {
    let input = canonical(&[(1, 1, 1), (1, 2, 2), (2, 1, 3), (2, 2, 4)]);
    let bridges = deletion_bridges(&input, &vec![true, true, true, false], &mut NeverInterrupt)
        .expect("bridges");
    assert_eq!(bridges, vec![0, 1, 2]);
}

#[test]
fn worker_joining_two_firms_alone_is_an_articulation() {
    let input = canonical(&[(1, 1, 1), (1, 2, 2), (2, 2, 3)]);
    let bad = worker_articulations(&input, &vec![true; input.rows()], &mut NeverInterrupt)
        .expect("articulations");
    assert_eq!(bad, vec![true, false]);
}

#[test]
fn worker_shared_by_two_cycles_is_an_articulation() {
    let input = canonical(&[
        (1, 1, 1),
        (1, 2, 2),
        (2, 1, 3),
        (2, 2, 4),
        (1, 3, 5),
        (1, 4, 6),
        (3, 3, 7),
        (3, 4, 8),
    ]);
    let bad = worker_articulations(&input, &vec![true; input.rows()], &mut NeverInterrupt)
        .expect("articulations");
    assert_eq!(bad, vec![true, false, false]);
    let bridges = deletion_bridges(&input, &vec![true; input.rows()], &mut NeverInterrupt)
        .expect("bridges");
    assert!(bridges.is_empty());
}
