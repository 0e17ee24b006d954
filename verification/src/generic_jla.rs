//! Integer bookkeeping of the generic JLA estimator: typed errors, fallible
//! vectors, checked byte forecasts, deletion-group indexes and the receipts
//! that report execution.

pub mod spectrum_batches;

use vstd::prelude::*;
use vstd::string::*;

use crate::allocation::reserve_exact;
use crate::error::{BackendError, ErrorCode, Result};
use crate::interrupt::{checkpoint_chunk, InterruptCheck};
use crate::model_diagonal_queue::{DiagonalQueuePlan, DiagonalQueueWorkReceipt};

verus! {

/// Phase name of the estimator's own errors.
pub const GENERIC_JLA_PHASE: &'static str = "generic_jla";

/// The phase at which a run's memory peaks.
#[derive(Clone, Copy, Debug, Eq, PartialEq, Structural)]
pub enum GenericJlaMemoryPeakPhase {
    Canonicalization,
    SolverSetup,
    Fit,
    Geometry,
    Leverage,
    Target,
    Projection,
    ComponentInference,
    Maker,
    Result,
}

/// Forecast peak memory of a run and its contributions.
#[derive(Clone, Copy, Debug, Eq, PartialEq, Structural)]
pub struct GenericJlaMemoryReceipt {
    pub peak_bytes: u64,
    pub peak_phase: GenericJlaMemoryPeakPhase,
    pub setup_peak_bytes: u64,
    pub shared_cmg_persistent_bytes: u64,
    pub full_control_block_persistent_bytes: u64,
    pub setup_transient_bytes: u64,
    pub cmg_preconditioner_workspace_bytes: u64,
    pub cmg_aggregated_cell_capacity_bytes: u64,
    pub cmg_group_index_bytes: u64,
    pub cmg_hybrid_graph_bytes: u64,
    pub retained_nq_bytes: u64,
    pub retained_q2_bytes: u64,
    pub projection_peak_bytes: u64,
    /// Conservative incremental peak of the private oracle-variance
    /// component-inference attachment; zero for every public generation.
    pub component_inference_peak_bytes: u64,
}

/// Threads requested and used by a run.
#[derive(Clone, Copy, Debug, Eq, PartialEq, Structural)]
pub struct GenericJlaThreadReceipt {
    pub requested: usize,
    pub used: usize,
    pub parallel_regions: usize,
}

/// The admitted plan and the accumulated work of a diagonal queue.
#[derive(Clone, Copy, Debug, Eq, PartialEq, Structural)]
pub struct GenericDiagonalQueueReceipt {
    pub plan: DiagonalQueuePlan,
    pub work: DiagonalQueueWorkReceipt,
}

/// Right-hand sides solved by the direct attachments, by purpose.
#[derive(Clone, Copy, Debug, Eq, PartialEq, Structural)]
pub struct GenericDirectAttachmentReceipt {
    pub fit_rhs: usize,
    pub control_projection_rhs: usize,
    pub point_probe_rhs: usize,
    pub projection_rhs: usize,
    pub component_rhs: usize,
    pub gram_rhs: usize,
    pub logical_rhs: usize,
    pub control_refinement_rhs: u64,
}

/// The estimator phase a right-hand side belongs to.
#[derive(Clone, Copy, Debug, Eq, PartialEq, Structural)]
pub enum GenericJlaRhsPhase {
    ControlProjection,
    FullJointFit,
    FixedOffsetWorkingFit,
    Leverage,
    Target,
    Projection,
}

/// The block of the model a right-hand side addresses.
#[derive(Clone, Copy, Debug, Eq, PartialEq, Structural)]
pub enum GenericJlaRhsSide {
    Joint,
    Worker,
    Firm,
}

/// An invalid-input error of the estimator.
pub fn invalid(message: &str) -> (e: BackendError)
    ensures
        e.code == ErrorCode::InvalidInput,
        e.phase == GENERIC_JLA_PHASE,
        e.message@ == message@,
{
    BackendError::invalid(GENERIC_JLA_PHASE, message)
}

/// A resource-limit error of the estimator.
pub fn resource(message: &str) -> (e: BackendError)
    ensures
        e.code == ErrorCode::ResourceLimit,
        e.phase == GENERIC_JLA_PHASE,
        e.message@ == message@,
{
    BackendError::new(ErrorCode::ResourceLimit, GENERIC_JLA_PHASE, message)
}

/// A non-finite correction error of the estimator.
pub fn nonfinite(message: &str) -> (e: BackendError)
    ensures
        e.code == ErrorCode::CorrectionNonFinite,
        e.phase == GENERIC_JLA_PHASE,
        e.message@ == message@,
{
    BackendError::new(ErrorCode::CorrectionNonFinite, GENERIC_JLA_PHASE, message)
}

/// A non-estimable deletion error of the estimator.
pub fn nonestimable(message: &str) -> (e: BackendError)
    ensures
        e.code == ErrorCode::NonestimableDeletion,
        e.phase == GENERIC_JLA_PHASE,
        e.message@ == message@,
{
    BackendError::new(ErrorCode::NonestimableDeletion, GENERIC_JLA_PHASE, message)
}

/// Keeps a user break as it is; any other failure becomes `code` with `message`.
pub fn preserve_break(error: BackendError, code: ErrorCode, message: &'static str) -> (e: BackendError)
    ensures
        error.code == ErrorCode::UserBreak ==> e == error,
        error.code != ErrorCode::UserBreak ==> e.code == code && e.phase == GENERIC_JLA_PHASE
            && e.message@ == message@,
{
    if error.code == ErrorCode::UserBreak {
        error
    } else {
        BackendError::new(code, GENERIC_JLA_PHASE, message)
    }
}

/// `length` clones of `value`, allocated fallibly.
pub fn repeated<T: Clone, I: InterruptCheck>(
    length: usize,
    value: T,
    label: &str,
    interrupt: &mut I,
    phase: &'static str,
) -> (r: Result<Vec<T>>)
    ensures
        r matches Ok(v) ==> v.len() == length && forall|i: int| 0 <= i < length ==> cloned::<T>(value, #[trigger] v@[i]),
        old(interrupt).inert() ==> final(interrupt).inert(),
        old(interrupt).inert() ==> (r matches Err(e) ==> e.code == ErrorCode::AllocationFailed),
        vstd::layout::size_of::<T>() > 0 && length > isize::MAX ==> r is Err,
{
    let ghost inert0 = interrupt.inert();
    let mut output: Vec<T> = Vec::new();
    reserve_exact(&mut output, length, phase, label)?;
    let mut index: usize = 0;
    while index < length
        invariant
            index <= length,
            output.len() == index,
            forall|i: int| 0 <= i < index ==> cloned::<T>(value, #[trigger] output@[i]),
            inert0 == old(interrupt).inert(),
            inert0 ==> interrupt.inert(),
        decreases length - index,
    {
        match checkpoint_chunk(interrupt, index, phase) {
            Ok(()) => {},
            Err(e) => {
                return Err(e);
            },
        }
        output.push(value.clone());
        index = index + 1;
    }
    Ok(output)
}

/// The indices `0..length`, allocated fallibly.
pub fn index_vector<I: InterruptCheck>(length: usize, interrupt: &mut I, phase: &'static str) -> (r: Result<Vec<usize>>)
    ensures
        r matches Ok(v) ==> v.len() == length && forall|i: int| 0 <= i < length ==> #[trigger] v@[i] == i,
        old(interrupt).inert() ==> final(interrupt).inert(),
        old(interrupt).inert() ==> (r matches Err(e) ==> e.code == ErrorCode::AllocationFailed),
{
    let ghost inert0 = interrupt.inert();
    let mut output: Vec<usize> = Vec::new();
    reserve_exact(&mut output, length, phase, "generic JLA index vector")?;
    let mut index: usize = 0;
    while index < length
        invariant
            index <= length,
            output.len() == index,
            forall|i: int| 0 <= i < index ==> #[trigger] output@[i] == i,
            inert0 == old(interrupt).inert(),
            inert0 ==> interrupt.inert(),
        decreases length - index,
    {
        match checkpoint_chunk(interrupt, index, phase) {
            Ok(()) => {},
            Err(e) => {
                return Err(e);
            },
        }
        output.push(index);
        index = index + 1;
    }
    Ok(output)
}

/// The product of the first `k` factors.
pub open spec fn product_prefix(factors: Seq<u64>, k: int) -> int
    decreases k,
{
    if k <= 0 {
        1
    } else {
        product_prefix(factors, k - 1) * factors[k - 1]
    }
}

/// The sum of the first `k` values.
pub open spec fn sum_prefix(values: Seq<u64>, k: int) -> int
    decreases k,
{
    if k <= 0 {
        0
    } else {
        sum_prefix(values, k - 1) + values[k - 1]
    }
}

/// Every partial product fits in `u64`.
pub open spec fn products_fit(factors: Seq<u64>) -> bool {
    forall|k: int| 0 <= k <= factors.len() ==> #[trigger] product_prefix(factors, k) <= u64::MAX
}

/// Every partial sum fits in `u64`.
pub open spec fn sums_fit(values: Seq<u64>) -> bool {
    forall|k: int| 0 <= k <= values.len() ==> #[trigger] sum_prefix(values, k) <= u64::MAX
}

proof fn lemma_product_prefix_nonneg(factors: Seq<u64>, k: int)
    ensures
        product_prefix(factors, k) >= 0,
    decreases k,
{
    if k > 0 {
        lemma_product_prefix_nonneg(factors, k - 1);
        vstd::arithmetic::mul::lemma_mul_nonnegative(product_prefix(factors, k - 1), factors[k - 1] as int);
    }
}

proof fn lemma_sum_prefix_monotone(values: Seq<u64>, a: int, b: int)
    requires
        0 <= a <= b <= values.len(),
    ensures
        sum_prefix(values, a) <= sum_prefix(values, b),
    decreases b - a,
{
    if a < b {
        lemma_sum_prefix_monotone(values, a, b - 1);
    }
}

/// The product of a memory forecast's factors, failing on overflow.
pub fn checked_product(factors: &[u64], label: &'static str) -> (r: Result<u64>)
    ensures
        r is Ok <==> products_fit(factors@),
        r matches Ok(v) ==> v == product_prefix(factors@, factors@.len() as int),
        r matches Err(e) ==> e.code == ErrorCode::ResourceLimit,
{
    let mut value: u64 = 1;
    let mut index: usize = 0;
    while index < factors.len()
        invariant
            index <= factors.len(),
            value == product_prefix(factors@, index as int),
            forall|k: int| 0 <= k <= index ==> #[trigger] product_prefix(factors@, k) <= u64::MAX,
        decreases factors.len() - index,
    {
        proof {
            lemma_product_prefix_nonneg(factors@, index as int);
        }
        value = match value.checked_mul(factors[index]) {
            Some(v) => v,
            None => {
                proof {
                    assert(product_prefix(factors@, index + 1) > u64::MAX);
                }
                let mut message = String::from_str(label);
                message.append(" memory forecast overflow");
                return Err(BackendError { code: ErrorCode::ResourceLimit, phase: GENERIC_JLA_PHASE, message });
            },
        };
        index = index + 1;
    }
    Ok(value)
}

/// The sum of a memory forecast's terms, failing on overflow.
pub fn checked_sum(values: &[u64]) -> (r: Result<u64>)
    ensures
        r is Ok <==> sums_fit(values@),
        r is Ok <==> sum_prefix(values@, values@.len() as int) <= u64::MAX,
        r matches Ok(v) ==> v == sum_prefix(values@, values@.len() as int),
        r matches Err(e) ==> e.code == ErrorCode::ResourceLimit,
{
    let mut total: u64 = 0;
    let mut index: usize = 0;
    while index < values.len()
        invariant
            index <= values.len(),
            total == sum_prefix(values@, index as int),
            forall|k: int| 0 <= k <= index ==> #[trigger] sum_prefix(values@, k) <= u64::MAX,
        decreases values.len() - index,
    {
        total = match total.checked_add(values[index]) {
            Some(v) => v,
            None => {
                proof {
                    lemma_sum_prefix_monotone(values@, index + 1, values@.len() as int);
                }
                return Err(resource("generic-JLA memory forecast overflow"));
            },
        };
        index = index + 1;
    }
    proof {
        assert forall|k: int| 0 <= k <= values@.len() implies #[trigger] sum_prefix(values@, k) <= u64::MAX by {
            lemma_sum_prefix_monotone(values@, k, values@.len() as int);
        }
    }
    Ok(total)
}

/// Refuses a peak forecast above the declared limit.
pub fn admit_memory(forecast: u64, limit: u64) -> (r: Result<()>)
    ensures
        r is Ok <==> forecast <= limit,
        r matches Err(e) ==> e.code == ErrorCode::ResourceLimit && e.phase == "generic_jla_memory",
{
    if forecast > limit {
        return Err(BackendError::new(
            ErrorCode::ResourceLimit,
            "generic_jla_memory",
            "generic-JLA peak forecast exceeds the declared limit",
        ));
    }
    Ok(())
}

/// The forecast of the first table entry for `width`.
pub fn lookup_batch_forecast(forecasts: &[(usize, u64)], width: usize) -> (r: Result<u64>)
    ensures
        r is Ok <==> exists|i: int| 0 <= i < forecasts@.len() && (#[trigger] forecasts@[i]).0 == width,
        r matches Ok(bytes) ==> exists|i: int|
            0 <= i < forecasts@.len() && (#[trigger] forecasts@[i]).0 == width && forecasts@[i].1 == bytes
                && forall|j: int| 0 <= j < i ==> (#[trigger] forecasts@[j]).0 != width,
        r matches Err(e) ==> e.code == ErrorCode::InternalInvariant,
{
    let mut index: usize = 0;
    while index < forecasts.len()
        invariant
            index <= forecasts.len(),
            forall|j: int| 0 <= j < index ==> (#[trigger] forecasts@[j]).0 != width,
        decreases forecasts.len() - index,
    {
        if forecasts[index].0 == width {
            return Ok(forecasts[index].1);
        }
        index = index + 1;
    }
    Err(BackendError::internal(
        "generic_jla_plan",
        "batch planner requested a width outside the precomputed forecast table",
    ))
}

/// Rows grouped by deletion unit, in compressed sparse form: the rows of
/// group `g` are `items[ptr[g]..ptr[g + 1]]`.
#[derive(Clone, Debug)]
pub struct DeletionIndex {
    pub ptr: Vec<u64>,
    pub items: Vec<u64>,
}

/// Facts about the deletion groups that memory forecasts use.
#[derive(Clone, Copy, Debug, Eq, PartialEq, Structural)]
pub struct MemoryFacts {
    pub maximum_deletion_block: u64,
}

/// The pointers never decrease.
pub open spec fn pointers_ordered(ptr: Seq<u64>) -> bool {
    forall|g: int| 0 <= g < ptr.len() - 1 ==> #[trigger] ptr[g] <= ptr[g + 1]
}

/// The largest group width.
pub fn memory_facts<I: InterruptCheck>(index: &DeletionIndex, interrupt: &mut I) -> (r: Result<MemoryFacts>)
    ensures
        r is Ok ==> pointers_ordered(index.ptr@),
        r matches Ok(f) ==> (forall|g: int| 0 <= g < index.ptr@.len() - 1 ==> #[trigger] index.ptr@[g + 1] - index.ptr@[g]
            <= f.maximum_deletion_block),
        r matches Ok(f) ==> (f.maximum_deletion_block == 0 || exists|g: int| 0 <= g < index.ptr@.len() - 1
            && #[trigger] index.ptr@[g + 1] - index.ptr@[g] == f.maximum_deletion_block),
        old(interrupt).inert() ==> final(interrupt).inert(),
        old(interrupt).inert() ==> (r is Ok <==> pointers_ordered(index.ptr@)),
        old(interrupt).inert() ==> (r matches Err(e) ==> e.code == ErrorCode::ResourceLimit),
{
    let ghost inert0 = interrupt.inert();
    let mut maximum_deletion_block: u64 = 0;
    let groups = if index.ptr.len() == 0 {
        0
    } else {
        index.ptr.len() - 1
    };
    let mut group: usize = 0;
    while group < groups
        invariant
            groups == if index.ptr@.len() == 0 { 0 } else { index.ptr@.len() - 1 },
            group <= groups,
            forall|g: int| 0 <= g < group ==> #[trigger] index.ptr@[g] <= index.ptr@[g + 1],
            forall|g: int| 0 <= g < group ==> #[trigger] index.ptr@[g + 1] - index.ptr@[g] <= maximum_deletion_block,
            maximum_deletion_block == 0 || exists|g: int| 0 <= g < group && #[trigger] index.ptr@[g + 1]
                - index.ptr@[g] == maximum_deletion_block,
            inert0 == old(interrupt).inert(),
            inert0 ==> interrupt.inert(),
        decreases groups - group,
    {
        match checkpoint_chunk(interrupt, group, "generic_jla_memory_blocks") {
            Ok(()) => {},
            Err(e) => {
                return Err(e);
            },
        }
        let begin = index.ptr[group];
        let end = index.ptr[group + 1];
        if end < begin {
            return Err(resource("deletion-group pointers are reversed"));
        }
        let width = end - begin;
        if width > maximum_deletion_block {
            maximum_deletion_block = width;
        }
        group = group + 1;
    }
    Ok(MemoryFacts { maximum_deletion_block })
}

/// The rows of one deletion group.
pub fn group_rows<I: InterruptCheck>(
    index: &DeletionIndex,
    group: usize,
    interrupt: &mut I,
    phase: &'static str,
) -> (r: Result<Vec<usize>>)
    requires
        group + 1 < index.ptr.len(),
    ensures
        r matches Ok(rows) ==> {
            let begin = index.ptr@[group as int] as int;
            let end = index.ptr@[group + 1] as int;
            &&& begin <= end <= index.items@.len()
            &&& rows.len() == end - begin
            &&& forall|k: int| 0 <= k < rows.len() ==> #[trigger] rows@[k] == index.items@[begin + k]
        },
        old(interrupt).inert() ==> final(interrupt).inert(),
        old(interrupt).inert() && index.ptr@[group as int] <= index.ptr@[group + 1] <= index.items@.len()
            ==> (r matches Err(e) ==> e.code == ErrorCode::AllocationFailed || e.code == ErrorCode::ResourceLimit),
        index.ptr@[group + 1] < index.ptr@[group as int] ==> (r matches Err(e) && e.code == ErrorCode::InternalInvariant),
        index.ptr@[group as int] <= index.ptr@[group + 1] && index.ptr@[group + 1] > index.items@.len()
            ==> (r matches Err(e) && e.code == ErrorCode::ResourceLimit),
{
    let ghost inert0 = interrupt.inert();
    let begin = index.ptr[group];
    let end = index.ptr[group + 1];
    if end < begin {
        return Err(BackendError::internal(phase, "deletion-group pointers are reversed"));
    }
    if end > index.items.len() as u64 {
        return Err(resource("deletion-group offset is not addressable"));
    }
    let begin = begin as usize;
    let end = end as usize;
    let length = end - begin;
    let mut output: Vec<usize> = Vec::new();
    reserve_exact(&mut output, length, phase, "generic JLA deletion-group rows")?;
    let mut local: usize = 0;
    while local < length
        invariant
            begin + length == end,
            end == index.ptr@[group + 1],
            end <= index.items@.len(),
            index.ptr@[group as int] <= index.ptr@[group + 1],
            local <= length,
            output.len() == local,
            forall|k: int| 0 <= k < local ==> #[trigger] output@[k] == index.items@[begin + k],
            inert0 == old(interrupt).inert(),
            inert0 ==> interrupt.inert(),
        decreases length - local,
    {
        match checkpoint_chunk(interrupt, local, phase) {
            Ok(()) => {},
            Err(e) => {
                return Err(e);
            },
        }
        let row = index.items[begin + local];
        if row > usize::MAX as u64 {
            return Err(resource("deletion-group row is not addressable"));
        }
        output.push(row as usize);
        local = local + 1;
    }
    Ok(output)
}

/// Position plus one of the last occurrence of `row` among the first `k`
/// entries of `order`, or zero when it does not occur.
pub open spec fn last_rank(order: Seq<usize>, row: int, k: int) -> int
    decreases k,
{
    if k <= 0 {
        0
    } else if order[k - 1] == row {
        k
    } else {
        last_rank(order, row, k - 1)
    }
}

/// One-based ranks of the rows in `order`: row `order[p]` gets rank `p + 1`.
pub fn row_ranks(order: &[usize]) -> (ranks: Vec<u64>)
    requires
        forall|p: int| 0 <= p < order@.len() ==> #[trigger] order@[p] < order@.len(),
    ensures
        ranks.len() == order@.len(),
        forall|r: int| 0 <= r < ranks.len() ==> #[trigger] ranks@[r] == last_rank(order@, r, order@.len() as int),
{
    let n = order.len();
    let mut ranks: Vec<u64> = Vec::new();
    while ranks.len() < n
        invariant
            ranks.len() <= n,
            forall|r: int| 0 <= r < ranks.len() ==> #[trigger] ranks@[r] == 0,
        decreases n - ranks.len(),
    {
        ranks.push(0);
    }
    let mut position: usize = 0;
    while position < n
        invariant
            n == order@.len(),
            forall|p: int| 0 <= p < n ==> #[trigger] order@[p] < n,
            ranks.len() == n,
            position <= n,
            forall|r: int| 0 <= r < n ==> #[trigger] ranks@[r] == last_rank(order@, r, position as int),
        decreases n - position,
    {
        let row = order[position];
        ranks.set(row, position as u64 + 1);
        position = position + 1;
    }
    ranks
}

} // verus!
