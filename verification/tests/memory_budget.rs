use vckss_core::error::ErrorCode;
use vckss_core::memory::{MemoryBudget, MemoryCheck};

#[test]
fn absence_and_advisory_budgets_do_not_reject() {
    let omitted = MemoryBudget::Unspecified;
    assert_eq!(omitted.limit(4 << 30), None);
    assert!(omitted.fits(u64::MAX, 1));
    assert!(omitted.admit_forecast(u64::MAX, 0, "test").is_ok());
    for check in [MemoryCheck::Warn, MemoryCheck::Off] {
        let budget = MemoryBudget::Explicit { bytes: 1, check };
        assert!(!budget.fits(2, 100));
        assert!(!budget.rejects(2, 100));
    }
}

#[test]
fn explicit_and_legacy_strict_boundaries_are_preserved() {
    for budget in [
        MemoryBudget::Legacy,
        MemoryBudget::Explicit {
            bytes: 10,
            check: MemoryCheck::Error,
        },
    ] {
        assert!(budget.admit_forecast(10, 10, "test").is_ok());
        assert_eq!(
            budget.admit_forecast(11, 10, "test").unwrap_err().code,
            ErrorCode::ResourceLimit
        );
    }
    assert!(MemoryBudget::Explicit {
        bytes: 0,
        check: MemoryCheck::Off
    }
    .validate(10)
    .is_err());
}

#[test]
fn zero_budget_is_invalid_before_forecasting() {
    let budget = MemoryBudget::Explicit {
        bytes: 0,
        check: MemoryCheck::Error,
    };
    let error = budget.admit_forecast(0, 10, "phase").unwrap_err();
    assert_eq!(error.code, ErrorCode::InvalidInput);
    assert_eq!(error.phase, "memory_budget");
    assert_eq!(MemoryBudget::Legacy.validate(0).unwrap_err().code, ErrorCode::InvalidInput);
    assert!(MemoryBudget::Unspecified.validate(0).is_ok());
}

#[test]
fn hard_and_receipt_limits_follow_the_check_mode() {
    assert_eq!(MemoryBudget::Legacy.hard_limit(7), Some(7));
    assert_eq!(MemoryBudget::Unspecified.hard_limit(7), None);
    let warn = MemoryBudget::Explicit { bytes: 5, check: MemoryCheck::Warn };
    assert_eq!(warn.hard_limit(7), None);
    assert_eq!(warn.receipt_limit(7), 5);
    assert_eq!(MemoryBudget::Unspecified.receipt_limit(7), 0);
    assert_eq!(MemoryBudget::Legacy.receipt_limit(7), 7);
    assert_eq!(MemoryBudget::Legacy.check(), MemoryCheck::Error);
    assert_eq!(MemoryBudget::Unspecified.check(), MemoryCheck::Off);
    assert_eq!(MemoryBudget::default(), MemoryBudget::Legacy);
}
