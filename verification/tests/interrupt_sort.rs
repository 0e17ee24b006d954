use vckss_core::error::{BackendError, ErrorCode, Result};
use vckss_core::interrupt::{
    checkpoint_chunk, stable_sort_by_with_interrupt, unstable_sort_by_with_interrupt,
    CancellationInterrupt, CancellationToken, InterruptCheck, NeverInterrupt,
    INTERRUPTIBLE_SORT_RUN,
};
use vckss_core::sort::fallible_sort_buffer;

struct BreakAfter {
    calls: usize,
    stop: usize,
}

impl InterruptCheck for BreakAfter {
    fn checkpoint(&mut self, phase: &'static str) -> Result<()> {
        self.calls += 1;
        if self.calls == self.stop {
            Err(BackendError::new(ErrorCode::UserBreak, phase, "injected sort break"))
        } else {
            Ok(())
        }
    }
}

#[test]
fn cancellable_large_sorts_match_legacy_order_and_break_inside_work() {
    let length = INTERRUPTIBLE_SORT_RUN * 2 + 9_003;
    let mut stable = (0..length)
        .rev()
        .map(|index| (index % 17, index))
        .collect::<Vec<_>>();
    let mut expected_stable = stable.clone();
    expected_stable.sort_by_key(|value| value.0);
    stable_sort_by_with_interrupt(
        &mut stable,
        |left: &(usize, usize), right: &(usize, usize)| left.0.cmp(&right.0),
        &mut NeverInterrupt,
        "stable_sort_test",
    )
    .expect("stable sort");
    assert_eq!(stable, expected_stable);

    let mut unstable = (0..u64::try_from(length).unwrap())
        .rev()
        .collect::<Vec<_>>();
    let mut expected_unstable = unstable.clone();
    expected_unstable.sort_unstable();
    unstable_sort_by_with_interrupt(
        &mut unstable,
        Ord::cmp,
        &mut NeverInterrupt,
        "unstable_sort_test",
    )
    .expect("unstable sort");
    assert_eq!(unstable, expected_unstable);

    let mut interrupted = (0..u64::try_from(length).unwrap())
        .rev()
        .collect::<Vec<_>>();
    let mut breaker = BreakAfter { calls: 0, stop: 4 };
    let error = unstable_sort_by_with_interrupt(
        &mut interrupted,
        Ord::cmp,
        &mut breaker,
        "unstable_sort_test",
    )
    .expect_err("sort must be interruptible between optimized runs");
    assert_eq!(error.code, ErrorCode::UserBreak);
    assert_eq!(breaker.calls, 4);
}

#[test]
fn stable_sort_buffer_overflow_is_typed_before_allocation() {
    let error = fallible_sort_buffer::<u64>(usize::MAX, "sort_overflow")
        .expect_err("byte-size overflow");
    assert_eq!(error.code, ErrorCode::ResourceLimit);
    assert_eq!(error.phase, "sort_overflow");
}

#[test]
fn small_stable_sort_keeps_ties_in_input_order() {
    let mut values = vec![(3, 0), (1, 1), (3, 2), (1, 3), (2, 4)];
    stable_sort_by_with_interrupt(
        &mut values,
        |a: &(u32, u32), b: &(u32, u32)| a.0.cmp(&b.0),
        &mut NeverInterrupt,
        "small",
    )
    .unwrap();
    assert_eq!(values, vec![(1, 1), (1, 3), (2, 4), (3, 0), (3, 2)]);
}

#[test]
fn single_element_sort_still_checks_once() {
    let mut values = vec![5_u64];
    let mut breaker = BreakAfter { calls: 0, stop: 1 };
    let error = stable_sort_by_with_interrupt(&mut values, Ord::cmp, &mut breaker, "one")
        .unwrap_err();
    assert_eq!(error.code, ErrorCode::UserBreak);
    assert_eq!(error.phase, "one");
    assert_eq!(values, vec![5]);
}

#[test]
fn cancellation_token_breaks_checkpoints() {
    let token = CancellationToken::new();
    let mut check = CancellationInterrupt::new(token.clone());
    assert!(check.checkpoint("phase").is_ok());
    assert!(!check.token().is_cancelled());
    token.cancel();
    assert!(check.token().is_cancelled());
    assert!(check.cancellation_token().unwrap().is_cancelled());
    let error = check.checkpoint("after_cancel").unwrap_err();
    assert_eq!(error.code, ErrorCode::UserBreak);
    assert_eq!(error.phase, "after_cancel");
    assert!(token.atomic_flag().load(std::sync::atomic::Ordering::Acquire));
    assert!(NeverInterrupt.cancellation_token().is_none());
}

#[test]
fn checkpoint_chunk_only_checks_on_chunk_boundaries() {
    let mut breaker = BreakAfter { calls: 0, stop: 1 };
    assert!(checkpoint_chunk(&mut breaker, 1, "chunk").is_ok());
    assert!(checkpoint_chunk(&mut breaker, 4095, "chunk").is_ok());
    assert_eq!(breaker.calls, 0);
    assert!(checkpoint_chunk(&mut breaker, 4096, "chunk").is_err());
    assert_eq!(breaker.calls, 1);
}
