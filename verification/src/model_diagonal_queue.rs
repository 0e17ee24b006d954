//! Admission arithmetic and receipts for the isolated diagonal model-RHS
//! queue: the byte envelope that a batch of independent diagonal solves may
//! occupy before any worker starts.

use vstd::prelude::*;

use std::time::{Duration, Instant};

use crate::error::{BackendError, ErrorCode, Result};
use crate::interrupt::{CancellationToken, InterruptCheck};

verus! {

/// Phase name of every diagonal-queue error.
pub const PHASE: &'static str = "model_diagonal_queue";

/// Stack reserved for each owned worker thread.
pub const STACK_BYTES: usize = 2097152;

/// Conservative runtime heap allowance per worker; not a measured allocation.
pub const RUNTIME_BYTES_PER_WORKER: usize = 131072;

/// The byte envelope admitted for one diagonal queue.
#[derive(Clone, Copy, Debug, Eq, PartialEq, Structural)]
pub struct DiagonalQueuePlan {
    pub permitted_threads: usize,
    pub workers: usize,
    pub maximum_rhs: usize,
    pub workspace_bytes_per_worker: u64,
    pub output_bytes: u64,
    pub queue_metadata_bytes: u64,
    pub runtime_allowance_bytes: u64,
    pub stack_reservation_bytes: u64,
    pub incremental_peak_bytes: u64,
    pub command_peak_bytes: u64,
}

/// The sizes, in bytes, of the records that one queued right-hand side
/// retains: the solve header, the result slot, and the statistical metadata
/// of the whole queue.
#[derive(Clone, Copy, Debug, Eq, PartialEq, Structural)]
pub struct QueueRecordSizes {
    pub solve_header_bytes: usize,
    pub slot_bytes: usize,
    pub statistical_metadata_bytes: u64,
}

/// A byte count error of this phase.
fn resource(message: &str) -> (e: BackendError)
    ensures
        e.code == ErrorCode::ResourceLimit,
        e.phase == PHASE,
{
    BackendError::new(ErrorCode::ResourceLimit, PHASE, message)
}

/// Adds two byte counts.
fn add(left: usize, right: usize) -> (r: Result<usize>)
    ensures
        left + right <= usize::MAX ==> r == Ok::<usize, BackendError>((left + right) as usize),
        left + right > usize::MAX ==> (r matches Err(e) && e.code == ErrorCode::ResourceLimit),
{
    match left.checked_add(right) {
        Some(value) => Ok(value),
        None => Err(resource("byte-count addition overflow")),
    }
}

/// Multiplies two byte counts; an allocation size must not exceed `isize::MAX`.
fn mul(left: usize, right: usize) -> (r: Result<usize>)
    ensures
        left * right <= isize::MAX ==> r == Ok::<usize, BackendError>((left * right) as usize),
        left * right > isize::MAX ==> (r matches Err(e) && e.code == ErrorCode::ResourceLimit),
{
    match left.checked_mul(right) {
        Some(value) => {
            if value <= isize::MAX as usize {
                Ok(value)
            } else {
                Err(resource("allocation byte-count overflow"))
            }
        },
        None => {
            proof {
                assert(left * right > usize::MAX);
            }
            Err(resource("allocation byte-count overflow"))
        },
    }
}

/// The error for a poisoned result slot.
pub fn poisoned() -> (e: BackendError)
    ensures
        e.code == ErrorCode::ContextPoisoned,
        e.phase == PHASE,
{
    BackendError::new(ErrorCode::ContextPoisoned, PHASE, "diagonal result slot poisoned")
}

/// Scratch bytes of one worker: reduced PCG, recovery and the complete
/// worker-firm-control residual certification, summed conservatively.
pub open spec fn workspace_bytes(workers: int, firms: int, controls: int) -> int {
    ((firms + controls) * 16 + (workers + firms + controls) * 16) * 8 + 1024
}

/// Output bytes: each right-hand side keeps its full coefficient vector and a header.
pub open spec fn output_bytes(workers: int, firms: int, controls: int, rhs: int, sizes: QueueRecordSizes) -> int {
    rhs * ((workers + firms + controls) * 16 + sizes.solve_header_bytes)
}

/// Queue metadata bytes: one result slot per right-hand side plus the statistical metadata.
pub open spec fn metadata_bytes(rhs: int, sizes: QueueRecordSizes) -> int {
    rhs * sizes.slot_bytes + sizes.statistical_metadata_bytes
}

/// The number of workers that run: at most one per right-hand side.
pub open spec fn active_workers(threads: int, rhs: int) -> int {
    if threads <= rhs {
        threads
    } else {
        rhs
    }
}

/// Bytes that only owned worker threads need; a single worker runs on the caller.
pub open spec fn per_thread_bytes(workers: int, per_worker: int) -> int {
    if workers == 1 {
        0
    } else {
        workers * per_worker
    }
}

/// The queue's own peak: concurrent scratch, outputs, metadata, runtime and stacks.
pub open spec fn incremental_bytes(
    workers: int,
    firms: int,
    controls: int,
    threads: int,
    rhs: int,
    sizes: QueueRecordSizes,
) -> int {
    let t = active_workers(threads, rhs);
    t * workspace_bytes(workers, firms, controls) + output_bytes(workers, firms, controls, rhs, sizes)
        + metadata_bytes(rhs, sizes) + (per_thread_bytes(t, RUNTIME_BYTES_PER_WORKER as int)
        + per_thread_bytes(t, STACK_BYTES as int))
}

/// Every intermediate byte count fits: sums in `usize`, allocation products
/// in `isize`, and the command peak in `u64`.
pub open spec fn queue_plan_fits(
    workers: int,
    firms: int,
    controls: int,
    threads: int,
    rhs: int,
    other_live_bytes: int,
    sizes: QueueRecordSizes,
) -> bool {
    let original = workers + firms + controls;
    let reduced = firms + controls;
    let ws = workspace_bytes(workers, firms, controls);
    let out = output_bytes(workers, firms, controls, rhs, sizes);
    let meta = metadata_bytes(rhs, sizes);
    let t = active_workers(threads, rhs);
    let runtime = per_thread_bytes(t, RUNTIME_BYTES_PER_WORKER as int);
    let stack = per_thread_bytes(t, STACK_BYTES as int);
    &&& workers + firms <= usize::MAX
    &&& original <= usize::MAX
    &&& reduced <= usize::MAX
    &&& reduced * 16 <= isize::MAX
    &&& original * 16 <= isize::MAX
    &&& reduced * 16 + original * 16 <= usize::MAX
    &&& (reduced * 16 + original * 16) * 8 <= isize::MAX
    &&& ws <= usize::MAX
    &&& original * 16 + sizes.solve_header_bytes <= usize::MAX
    &&& out <= isize::MAX
    &&& sizes.statistical_metadata_bytes <= usize::MAX
    &&& rhs * sizes.slot_bytes <= isize::MAX
    &&& meta <= usize::MAX
    &&& runtime <= isize::MAX
    &&& stack <= isize::MAX
    &&& t * ws <= isize::MAX
    &&& t * ws + out <= usize::MAX
    &&& t * ws + out + meta <= usize::MAX
    &&& runtime + stack <= usize::MAX
    &&& incremental_bytes(workers, firms, controls, threads, rhs, sizes) <= usize::MAX
    &&& other_live_bytes + incremental_bytes(workers, firms, controls, threads, rhs, sizes) <= u64::MAX
}

impl DiagonalQueuePlan {
    /// `other_live_bytes` must include the prepared model, borrowed input
    /// buffers, any retained results from earlier calls, and every other
    /// caller-owned live allocation throughout the executor's use. The
    /// increment counts this executor's outputs, queue, runtime and
    /// concurrent scratch.
    #[verifier::rlimit(100)]
    #[verifier::spinoff_prover]
    pub fn checked(
        workers: usize,
        firms: usize,
        controls: usize,
        permitted_threads: usize,
        maximum_rhs: usize,
        other_live_bytes: u64,
        sizes: QueueRecordSizes,
    ) -> (r: Result<Self>)
        ensures
            permitted_threads == 0 || maximum_rhs == 0 ==> (r matches Err(e) && e.code
                == ErrorCode::InvalidInput),
            permitted_threads > 0 && maximum_rhs > 0 ==> (r is Ok <==> queue_plan_fits(
                workers as int,
                firms as int,
                controls as int,
                permitted_threads as int,
                maximum_rhs as int,
                other_live_bytes as int,
                sizes,
            )),
            permitted_threads > 0 && maximum_rhs > 0 ==> (r matches Err(e) ==> e.code
                == ErrorCode::ResourceLimit),
            r matches Ok(p) ==> queue_plan_describes(
                p,
                workers as int,
                firms as int,
                controls as int,
                permitted_threads as int,
                maximum_rhs as int,
                other_live_bytes as int,
                sizes,
            ),
    {
        if permitted_threads == 0 || maximum_rhs == 0 {
            return Err(BackendError::invalid(PHASE, "threads and RHS capacity must be positive"));
        }
        let threads = if permitted_threads < maximum_rhs {
            permitted_threads
        } else {
            maximum_rhs
        };
        let original = self::add(self::add(workers, firms)?, controls)?;
        let reduced = self::add(firms, controls)?;
        let workspace = self::add(self::mul(self::add(self::mul(reduced, 16)?, self::mul(original, 16)?)?, 8)?, 1024)?;
        let output = self::mul(maximum_rhs, self::add(self::mul(original, 16)?, sizes.solve_header_bytes)?)?;
        let statistical_metadata: usize = if sizes.statistical_metadata_bytes <= usize::MAX as u64 {
            sizes.statistical_metadata_bytes as usize
        } else {
            return Err(resource("statistical metadata size overflow"));
        };
        let metadata = self::add(self::mul(maximum_rhs, sizes.slot_bytes)?, statistical_metadata)?;
        let runtime = if threads == 1 {
            0
        } else {
            self::mul(threads, RUNTIME_BYTES_PER_WORKER)?
        };
        let stack = if threads == 1 {
            0
        } else {
            self::mul(threads, STACK_BYTES)?
        };
        let incremental = self::add(self::add(self::add(self::mul(threads, workspace)?, output)?, metadata)?, self::add(runtime, stack)?)?;
        let incremental = incremental as u64;
        let command_peak = match other_live_bytes.checked_add(incremental) {
            Some(value) => value,
            None => {
                return Err(resource("command peak overflow"));
            },
        };
        Ok(
            DiagonalQueuePlan {
                permitted_threads,
                workers: threads,
                maximum_rhs,
                workspace_bytes_per_worker: workspace as u64,
                output_bytes: output as u64,
                queue_metadata_bytes: metadata as u64,
                runtime_allowance_bytes: runtime as u64,
                stack_reservation_bytes: stack as u64,
                incremental_peak_bytes: incremental,
                command_peak_bytes: command_peak,
            },
        )
    }
}

/// The plan holds the byte counts of the envelope formulas.
pub open spec fn queue_plan_describes(
    p: DiagonalQueuePlan,
    workers: int,
    firms: int,
    controls: int,
    threads: int,
    rhs: int,
    other_live_bytes: int,
    sizes: QueueRecordSizes,
) -> bool {
    let t = active_workers(threads, rhs);
    &&& p.permitted_threads == threads
    &&& p.workers == t
    &&& p.maximum_rhs == rhs
    &&& p.workspace_bytes_per_worker == workspace_bytes(workers, firms, controls)
    &&& p.output_bytes == output_bytes(workers, firms, controls, rhs, sizes)
    &&& p.queue_metadata_bytes == metadata_bytes(rhs, sizes)
    &&& p.runtime_allowance_bytes == per_thread_bytes(t, RUNTIME_BYTES_PER_WORKER as int)
    &&& p.stack_reservation_bytes == per_thread_bytes(t, STACK_BYTES as int)
    &&& p.incremental_peak_bytes == incremental_bytes(workers, firms, controls, threads, rhs, sizes)
    &&& p.command_peak_bytes == other_live_bytes + incremental_bytes(
        workers,
        firms,
        controls,
        threads,
        rhs,
        sizes,
    )
}

/// Every coefficient the queue stores is counted: each right-hand side keeps
/// sixteen output bytes for every worker, firm and control besides its header,
/// and a worker's scratch holds 128 bytes for every worker and 256 for every
/// firm and control, which sit in both the reduced and the complete vector.
pub proof fn law_queue_counts_every_coefficient(
    p: DiagonalQueuePlan,
    workers: int,
    firms: int,
    controls: int,
    threads: int,
    rhs: int,
    other_live_bytes: int,
    sizes: QueueRecordSizes,
)
    requires
        queue_plan_describes(p, workers, firms, controls, threads, rhs, other_live_bytes, sizes),
    ensures
        p.output_bytes == rhs * (16 * workers + 16 * firms + 16 * controls + sizes.solve_header_bytes),
        p.workspace_bytes_per_worker == 128 * workers + 256 * firms + 256 * controls + 1024,
{
}

/// One more control costs every right-hand side sixteen output bytes and every
/// worker 256 scratch bytes, and the queue's peak rises by exactly that much
/// for the workers that run.
pub proof fn law_queue_one_more_control(
    p: DiagonalQueuePlan,
    q: DiagonalQueuePlan,
    workers: int,
    firms: int,
    controls: int,
    threads: int,
    rhs: int,
    other_live_bytes: int,
    sizes: QueueRecordSizes,
)
    requires
        queue_plan_describes(p, workers, firms, controls, threads, rhs, other_live_bytes, sizes),
        queue_plan_describes(q, workers, firms, controls + 1, threads, rhs, other_live_bytes, sizes),
    ensures
        q.output_bytes == p.output_bytes + 16 * rhs,
        q.workspace_bytes_per_worker == p.workspace_bytes_per_worker + 256,
        q.incremental_peak_bytes == p.incremental_peak_bytes + 256 * p.workers + 16 * rhs,
        q.command_peak_bytes == p.command_peak_bytes + 256 * p.workers + 16 * rhs,
{
    let x = (workers + firms + controls) * 16 + sizes.solve_header_bytes;
    assert(rhs * (x + 16) == rhs * x + 16 * rhs) by (nonlinear_arith);
    let t = active_workers(threads, rhs);
    let w = workspace_bytes(workers, firms, controls);
    assert(t * (w + 256) == t * w + 256 * t) by (nonlinear_arith);
}

/// What one diagonal batch call reports.
#[derive(Clone, Copy, Debug, Eq, PartialEq, Structural)]
pub struct DiagonalQueueReceipt {
    pub columns: usize,
    pub active_worker_limit: usize,
    pub maximum_active_workers: usize,
    pub retained_queue_metadata_bytes: u64,
}

/// Work accumulated by one diagonal queue over all its calls.
#[derive(Clone, Copy, Debug, Default, Eq, PartialEq, Structural)]
pub struct DiagonalQueueWorkReceipt {
    pub completed_rhs: usize,
    pub completed_batches: usize,
    pub parallel_batches: usize,
    pub maximum_active_workers: usize,
}

/// The standard library's monotonic clock reading, carried opaquely.
#[verifier::external_type_specification]
#[verifier::external_body]
pub struct ExInstant(Instant);

/// Reads the monotonic clock with `Instant::now`; nothing is promised of the reading.
#[verifier::external_body]
fn clock_now() -> (now: Instant) {
    Instant::now()
}

/// Compares two clock readings with `Instant`'s `>=`; the readings are opaque,
/// so nothing is promised of the answer.
#[verifier::external_body]
fn clock_reached(now: &Instant, deadline: &Instant) -> (reached: bool) {
    *now >= *deadline
}

/// `Duration::from_millis`; the duration is opaque.
#[verifier::external_body]
fn millis(count: u64) -> (d: Duration) {
    Duration::from_millis(count)
}

/// `Instant::checked_add`: the later reading, or `None` where it cannot be
/// represented. The reading is opaque; nothing more is promised.
#[verifier::external_body]
fn clock_after(now: &Instant, delay: Duration) -> (later: Option<Instant>) {
    now.checked_add(delay)
}

/// A worker's check: it breaks as soon as its own or its parent's token is cancelled.
pub struct WorkerInterrupt<'a> {
    pub local: &'a CancellationToken,
    pub parent: Option<&'a CancellationToken>,
}

impl<'a> InterruptCheck for WorkerInterrupt<'a> {
    open spec fn checkpoint_outcome(&self, after: &Self, phase: &'static str, r: Result<()>) -> bool {
        &&& *after == *self
        &&& r matches Err(e) ==> e.code == ErrorCode::UserBreak && e.phase == phase
    }

    fn checkpoint(&mut self, phase: &'static str) -> (r: Result<()>)
        ensures
            *final(self) == *old(self),
            r matches Err(e) ==> e.code == ErrorCode::UserBreak && e.phase == phase,
    {
        let parent_cancelled = match self.parent {
            Some(parent) => parent.is_cancelled(),
            None => false,
        };
        if self.local.is_cancelled() || parent_cancelled {
            Err(BackendError::new(ErrorCode::UserBreak, phase, "diagonal solve cancelled"))
        } else {
            Ok(())
        }
    }
}

/// The caller's check while it runs a worker's share: tokens are read at
/// every checkpoint, the host at most once per millisecond. A host failure
/// cancels the workers and is kept in `failure`.
pub struct CallerInterrupt<'a, H: InterruptCheck> {
    pub host: &'a mut H,
    pub worker: WorkerInterrupt<'a>,
    pub failure: &'a mut Option<BackendError>,
    pub next_poll: Instant,
}

impl<'a, H: InterruptCheck> InterruptCheck for CallerInterrupt<'a, H> {
    open spec fn checkpoint_outcome(&self, after: &Self, phase: &'static str, r: Result<()>) -> bool {
        &&& after.worker == self.worker
        &&& r is Ok ==> *after.failure == *self.failure
        &&& r matches Err(e) ==> (e.code == ErrorCode::UserBreak && e.phase == phase && *after.failure
            == *self.failure) || *after.failure == Some(e)
        &&& *after.host == *self.host || exists|rh: Result<()>|
            (*self.host).checkpoint_outcome(&*after.host, phase, rh) && (rh matches Err(_) ==> r == rh)
    }

    fn checkpoint(&mut self, phase: &'static str) -> (r: Result<()>)
        ensures
            final(self).worker == old(self).worker,
            r is Ok ==> *final(self).failure == *old(self).failure,
            r matches Err(e) ==> (e.code == ErrorCode::UserBreak && e.phase == phase && *final(self).failure
                == *old(self).failure) || *final(self).failure == Some(e),
            *final(self).host == *old(self).host || exists|rh: Result<()>|
                (*old(self).host).checkpoint_outcome(&*final(self).host, phase, rh) && (rh matches Err(_) ==> r == rh),
    {
        match self.worker.checkpoint(phase) {
            Ok(()) => {},
            Err(e) => {
                return Err(e);
            },
        }
        let now = clock_now();
        if clock_reached(&now, &self.next_poll) {
            self.next_poll = match clock_after(&now, millis(1)) {
                Some(later) => later,
                None => now,
            };
            match self.host.checkpoint(phase) {
                Ok(()) => {},
                Err(error) => {
                    self.worker.local.cancel();
                    *self.failure = Some(error.duplicate());
                    return Err(error);
                },
            }
        }
        Ok(())
    }
}

} // verus!
