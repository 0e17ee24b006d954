use std::time::{Duration, Instant};

use vckss_core::error::{ErrorCode, Result};
use vckss_core::interrupt::{CancellationToken, InterruptCheck};
use vckss_core::model_diagonal_queue::{
    poisoned, CallerInterrupt, DiagonalQueuePlan, QueueRecordSizes, WorkerInterrupt, PHASE,
    RUNTIME_BYTES_PER_WORKER, STACK_BYTES,
};

const SIZES: QueueRecordSizes = QueueRecordSizes {
    solve_header_bytes: 96,
    slot_bytes: 112,
    statistical_metadata_bytes: 640,
};

#[test]
fn diagonal_caller_polling_is_bounded_but_tokens_are_immediate() {
    struct Host(usize);
    impl InterruptCheck for Host {
        fn checkpoint(&mut self, _: &'static str) -> Result<()> {
            self.0 += 1;
            Ok(())
        }
    }
    let local = CancellationToken::new();
    let mut host = Host(0);
    let mut failure = None;
    let mut check = CallerInterrupt {
        host: &mut host,
        worker: WorkerInterrupt {
            local: &local,
            parent: None,
        },
        failure: &mut failure,
        next_poll: Instant::now() + Duration::from_secs(60),
    };
    for _ in 0..100 {
        check.checkpoint(PHASE).unwrap();
    }
    check.next_poll = Instant::now();
    check.checkpoint(PHASE).unwrap();
    check.next_poll = Instant::now() + Duration::from_secs(60);
    local.cancel();
    assert_eq!(
        check.checkpoint(PHASE).unwrap_err().code,
        ErrorCode::UserBreak
    );
    assert_eq!(host.0, 1);
    assert!(failure.is_none());
}

#[test]
fn parent_token_breaks_a_worker() {
    let local = CancellationToken::new();
    let parent = CancellationToken::new();
    let mut worker = WorkerInterrupt {
        local: &local,
        parent: Some(&parent),
    };
    assert!(worker.checkpoint(PHASE).is_ok());
    parent.cancel();
    let error = worker.checkpoint("phase").unwrap_err();
    assert_eq!(error.code, ErrorCode::UserBreak);
    assert_eq!(error.phase, "phase");
}

#[test]
fn queue_plan_envelope_is_the_documented_sum() {
    let plan = DiagonalQueuePlan::checked(14, 28, 0, 7, 64, 1234, SIZES).unwrap();
    let original = 14 + 28;
    let reduced = 28;
    let workspace = ((reduced * 16 + original * 16) * 8 + 1024) as u64;
    let output = (64 * (original * 16 + 96)) as u64;
    let metadata = (64 * 112 + 640) as u64;
    let runtime = (7 * RUNTIME_BYTES_PER_WORKER) as u64;
    let stack = (7 * STACK_BYTES) as u64;
    let incremental = 7 * workspace + output + metadata + runtime + stack;
    assert_eq!(plan.workers, 7);
    assert_eq!(plan.permitted_threads, 7);
    assert_eq!(plan.maximum_rhs, 64);
    assert_eq!(plan.workspace_bytes_per_worker, workspace);
    assert_eq!(plan.output_bytes, output);
    assert_eq!(plan.queue_metadata_bytes, metadata);
    assert_eq!(plan.runtime_allowance_bytes, runtime);
    assert_eq!(plan.stack_reservation_bytes, stack);
    assert_eq!(plan.incremental_peak_bytes, incremental);
    assert_eq!(plan.command_peak_bytes, incremental + 1234);

    let single = DiagonalQueuePlan::checked(14, 28, 0, 64, 1, 0, SIZES).unwrap();
    assert_eq!(single.workers, 1);
    assert_eq!(single.runtime_allowance_bytes, 0);
    assert_eq!(single.stack_reservation_bytes, 0);
}

#[test]
fn queue_plan_overflow_and_empty_capacity_are_typed() {
    for plan in [
        DiagonalQueuePlan::checked(usize::MAX, 1, 0, 7, 64, 0, SIZES),
        DiagonalQueuePlan::checked(14, 28, 0, 7, usize::MAX, 0, SIZES),
        DiagonalQueuePlan::checked(14, 28, 0, 7, 64, u64::MAX, SIZES),
    ] {
        assert_eq!(plan.unwrap_err().code, ErrorCode::ResourceLimit);
    }
    assert_eq!(
        DiagonalQueuePlan::checked(1, 1, 0, 0, 1, 0, SIZES).unwrap_err().code,
        ErrorCode::InvalidInput
    );
    assert_eq!(
        DiagonalQueuePlan::checked(1, 1, 0, 1, 0, 0, SIZES).unwrap_err().code,
        ErrorCode::InvalidInput
    );
    assert_eq!(poisoned().code, ErrorCode::ContextPoisoned);
}
