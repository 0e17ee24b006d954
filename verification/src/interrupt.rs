//! Cooperative interruption for long-running native calculations.
//!
//! The numerical core never calls a host SDK. Its caller supplies a
//! synchronous checker; the inert checker leaves every calculation unchanged.

use std::sync::atomic::AtomicBool;
use std::sync::Arc;

use vstd::prelude::*;

use crate::error::{BackendError, ErrorCode, Result};
use crate::sort::{
    decides, from_std_ordering, precedence_of, sort_by_precedence, sorts, total_preorder, Precedence,
};

verus! {

/// Maximum amount of ordinary scalar loop work between bounded checkpoints.
pub const INTERRUPT_CHECK_CHUNK: usize = 4096;

/// Maximum uninterrupted standard-library sort run. Each run is followed by
/// checked deterministic merge passes, so break latency stays bounded.
pub const INTERRUPTIBLE_SORT_RUN: usize = 262144;

/// Caller-owned synchronous interruption check.
pub trait InterruptCheck {
    /// The checker never interrupts: every checkpoint succeeds and it stays
    /// inert. Only checkers that promise so override this.
    open spec fn inert(&self) -> bool {
        false
    }

    /// What one checkpoint may do: the checker's state after it, and its result.
    /// A checker that says nothing of it leaves every outcome possible.
    open spec fn checkpoint_outcome(&self, after: &Self, phase: &'static str, r: Result<()>) -> bool {
        true
    }

    fn checkpoint(&mut self, phase: &'static str) -> (r: Result<()>)
        ensures
            old(self).inert() ==> r is Ok && final(self).inert(),
            old(self).checkpoint_outcome(&*final(self), phase, r),
    ;

    /// The token this checker shares with the workers it runs; by default none.
    fn cancellation_token(&self) -> (r: Option<CancellationToken>)
        default_ensures
            r is None,
    {
        None
    }
}

/// Inert checker used by every entry point without a host.
#[derive(Debug, Default)]
pub struct NeverInterrupt;

impl InterruptCheck for NeverInterrupt {
    open spec fn inert(&self) -> bool {
        true
    }

    open spec fn checkpoint_outcome(&self, after: &Self, phase: &'static str, r: Result<()>) -> bool {
        r is Ok && *after == *self
    }

    fn checkpoint(&mut self, phase: &'static str) -> (r: Result<()>) {
        Ok(())
    }
}

/// Thread-safe cancellation state shared by one caller-thread coordinator and
/// every native worker participating in the owned solve.
#[derive(Clone, Debug)]
pub struct CancellationToken {
    cancelled: Arc<AtomicBool>,
}

impl CancellationToken {
    /// A fresh token that is not cancelled.
    pub fn new() -> (r: Self) {
        CancellationToken { cancelled: Arc::new(AtomicBool::new(false)) }
    }

    /// Marks the token, and every clone of it, cancelled.
    pub fn cancel(&self) {
        self.cancelled.store(true, core::sync::atomic::Ordering::Release);
    }

    /// Reads the shared flag.
    pub fn is_cancelled(&self) -> (r: bool) {
        self.cancelled.load(core::sync::atomic::Ordering::Acquire)
    }

    /// The shared atomic flag itself.
    pub fn atomic_flag(&self) -> (r: &AtomicBool)
        ensures
            *r == self.flag(),
    {
        &self.cancelled
    }

    /// The atomic flag this token and all its clones share.
    pub closed spec fn flag(&self) -> AtomicBool {
        *self.cancelled
    }
}

impl Default for CancellationToken {
    fn default() -> (r: Self) {
        Self::new()
    }
}

/// Worker-safe checker backed only by a [`CancellationToken`].
#[derive(Clone, Debug)]
pub struct CancellationInterrupt {
    token: CancellationToken,
}

impl CancellationInterrupt {
    /// The token this checker reads.
    pub closed spec fn held_token(&self) -> CancellationToken {
        self.token
    }

    pub fn new(token: CancellationToken) -> (r: Self)
        ensures
            r.held_token() == token,
    {
        CancellationInterrupt { token }
    }

    pub fn token(&self) -> (r: &CancellationToken)
        ensures
            *r == self.held_token(),
    {
        &self.token
    }
}

impl InterruptCheck for CancellationInterrupt {
    open spec fn inert(&self) -> bool {
        false
    }

    open spec fn checkpoint_outcome(&self, after: &Self, phase: &'static str, r: Result<()>) -> bool {
        &&& *after == *self
        &&& r matches Err(e) ==> e.code == ErrorCode::UserBreak && e.phase == phase
    }

    fn checkpoint(&mut self, phase: &'static str) -> (r: Result<()>)
        ensures
            *final(self) == *old(self),
            r matches Err(e) ==> e.code == ErrorCode::UserBreak && e.phase == phase,
    {
        if self.token.is_cancelled() {
            Err(BackendError::new(ErrorCode::UserBreak, phase, "user requested interruption"))
        } else {
            Ok(())
        }
    }

    fn cancellation_token(&self) -> (r: Option<CancellationToken>)
        ensures
            r == Some(self.held_token()),
    {
        Some(CancellationToken { cancelled: share_flag(&self.token.cancelled) })
    }
}

/// Clones the `Arc` that holds a token's flag with `Arc::clone`, which gives
/// another pointer to the same allocation: the clone holds the very same flag.
#[verifier::external_body]
fn share_flag(flag: &Arc<AtomicBool>) -> (shared: Arc<AtomicBool>)
    ensures
        shared == *flag,
{
    flag.clone()
}

/// Checks at the beginning of each bounded chunk: the checker runs exactly
/// when `index` is a multiple of the chunk size.
pub fn checkpoint_chunk<I: InterruptCheck>(
    interrupt: &mut I,
    index: usize,
    phase: &'static str,
) -> (r: Result<()>)
    ensures
        index % INTERRUPT_CHECK_CHUNK != 0 ==> r is Ok && *final(interrupt) == *old(interrupt),
        index % INTERRUPT_CHECK_CHUNK == 0 ==> old(interrupt).checkpoint_outcome(&*final(interrupt), phase, r),
        old(interrupt).inert() ==> r is Ok && final(interrupt).inert(),
{
    if index % INTERRUPT_CHECK_CHUNK == 0 {
        interrupt.checkpoint(phase)
    } else {
        Ok(())
    }
}

/// `e` is what a checkpoint of `phase` refused with, one that left the checker as `after`.
pub open spec fn refused_at<I: InterruptCheck>(after: &I, phase: &'static str, e: BackendError) -> bool {
    exists|before: I| #[trigger] before.checkpoint_outcome(after, phase, Err(e))
}

/// `compare` may be called on any pair and answers as the total preorder `le`
/// prescribes: `Less` when strictly below, `Equal` when tied, `Greater` otherwise.
pub open spec fn comparator_orders<T, F: Fn(&T, &T) -> core::cmp::Ordering>(
    compare: &F,
    le: spec_fn(T, T) -> bool,
) -> bool {
    &&& total_preorder(le)
    &&& forall|a: &T, b: &T| #[trigger] compare.requires((a, b))
    &&& forall|a: &T, b: &T, o: core::cmp::Ordering| #[trigger]
        compare.ensures((a, b), o) ==> {
            &&& (o == core::cmp::Ordering::Greater <==> !le(*a, *b))
            &&& (o == core::cmp::Ordering::Equal <==> le(*a, *b) && le(*b, *a))
        }
}

/// `compare` is a total-order comparator in the standard library's sense.
pub open spec fn is_total_order<T, F: Fn(&T, &T) -> core::cmp::Ordering>(compare: &F) -> bool {
    exists|le: spec_fn(T, T) -> bool| comparator_orders(compare, le)
}

/// The total preorder that a total-order comparator decides.
pub open spec fn comparator_preorder<T, F: Fn(&T, &T) -> core::cmp::Ordering>(
    compare: &F,
) -> spec_fn(T, T) -> bool {
    choose|le: spec_fn(T, T) -> bool| comparator_orders(compare, le)
}

/// Deterministic stable chunked sort whose run boundaries and merge copies are
/// cooperatively interruptible. Equal elements retain input order, as with
/// `slice::sort_by`.
pub fn stable_sort_by_with_interrupt<T: Copy, F: Fn(&T, &T) -> core::cmp::Ordering, I: InterruptCheck>(
    values: &mut Vec<T>,
    compare: F,
    interrupt: &mut I,
    phase: &'static str,
) -> (r: Result<()>)
    requires
        is_total_order(&compare),
    ensures
        final(values).len() == old(values).len(),
        r is Ok ==> exists|pos: Seq<int>| sorts(comparator_preorder(&compare), true, final(values)@, old(values)@, pos),
        old(interrupt).inert() ==> final(interrupt).inert(),
        old(interrupt).inert() && old(values).len() <= INTERRUPTIBLE_SORT_RUN ==> r is Ok,
        r matches Err(e) ==> !old(interrupt).inert() || (e.phase == phase && (e.code == ErrorCode::ResourceLimit || e.code == ErrorCode::AllocationFailed)),
        r matches Err(e) ==> refused_at(&*final(interrupt), phase, e) || (e.phase == phase && (e.code == ErrorCode::ResourceLimit || e.code == ErrorCode::AllocationFailed)),
{
    let ghost le = comparator_preorder(&compare);
    let compare_ref = &compare;
    let order = |a: &T, b: &T| -> (p: Precedence)
        requires
            comparator_orders(compare_ref, comparator_preorder(compare_ref)),
        ensures
            p == precedence_of(
                comparator_preorder(compare_ref)(*a, *b),
                comparator_preorder(compare_ref)(*b, *a),
            ),
        { from_std_ordering(compare_ref(a, b)) };
    proof {
        assert forall|a: &T, b: &T| #[trigger] order.requires((a, b)) by {}
        assert(decides(order, le));
    }
    sort_by_precedence(values, &order, true, interrupt, phase, Ghost(le))
}

/// Deterministic chunked unstable sort with checked deterministic merge passes.
pub fn unstable_sort_by_with_interrupt<T: Copy, F: Fn(&T, &T) -> core::cmp::Ordering, I: InterruptCheck>(
    values: &mut Vec<T>,
    compare: F,
    interrupt: &mut I,
    phase: &'static str,
) -> (r: Result<()>)
    requires
        is_total_order(&compare),
    ensures
        final(values).len() == old(values).len(),
        r is Ok ==> exists|pos: Seq<int>| sorts(comparator_preorder(&compare), false, final(values)@, old(values)@, pos),
        old(interrupt).inert() ==> final(interrupt).inert(),
        old(interrupt).inert() && old(values).len() <= INTERRUPTIBLE_SORT_RUN ==> r is Ok,
        r matches Err(e) ==> !old(interrupt).inert() || (e.phase == phase && (e.code == ErrorCode::ResourceLimit || e.code == ErrorCode::AllocationFailed)),
        r matches Err(e) ==> refused_at(&*final(interrupt), phase, e) || (e.phase == phase && (e.code == ErrorCode::ResourceLimit || e.code == ErrorCode::AllocationFailed)),
{
    let ghost le = comparator_preorder(&compare);
    let compare_ref = &compare;
    let order = |a: &T, b: &T| -> (p: Precedence)
        requires
            comparator_orders(compare_ref, comparator_preorder(compare_ref)),
        ensures
            p == precedence_of(
                comparator_preorder(compare_ref)(*a, *b),
                comparator_preorder(compare_ref)(*b, *a),
            ),
        { from_std_ordering(compare_ref(a, b)) };
    proof {
        assert forall|a: &T, b: &T| #[trigger] order.requires((a, b)) by {}
        assert(decides(order, le));
    }
    sort_by_precedence(values, &order, false, interrupt, phase, Ghost(le))
}

} // verus!
