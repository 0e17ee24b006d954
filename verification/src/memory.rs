//! Optional command budgets, separate from forecasts and allocation failures.

use vstd::prelude::*;

use crate::error::{BackendError, ErrorCode, Result};

verus! {

/// How a declared budget is enforced.
#[derive(Clone, Copy, Debug, Default, PartialEq, Eq, Structural)]
pub enum MemoryCheck {
    #[default]
    Error,
    Warn,
    Off,
}

/// Legacy entrypoints retain their explicitly supplied numeric limit. New
/// callers represent an omitted budget with `Unspecified`, never a large cap.
#[derive(Clone, Copy, Debug, Default, PartialEq, Eq, Structural)]
pub enum MemoryBudget {
    #[default]
    Legacy,
    Unspecified,
    Explicit { bytes: u64, check: MemoryCheck },
}

impl MemoryBudget {
    /// The budget's byte limit: the legacy wire value, none, or the explicit bytes.
    #[verifier::allow_in_spec]
    pub fn limit(self, legacy_limit: u64) -> Option<u64>
        returns
            (match self {
                MemoryBudget::Legacy => Some(legacy_limit),
                MemoryBudget::Unspecified => None,
                MemoryBudget::Explicit { bytes, .. } => Some(bytes),
            }),
    {
        match self {
            MemoryBudget::Legacy => Some(legacy_limit),
            MemoryBudget::Unspecified => None,
            MemoryBudget::Explicit { bytes, .. } => Some(bytes),
        }
    }

    /// The enforcement mode: legacy budgets are strict, absent ones are off.
    #[verifier::allow_in_spec]
    pub fn check(self) -> MemoryCheck
        returns
            (match self {
                MemoryBudget::Legacy => MemoryCheck::Error,
                MemoryBudget::Unspecified => MemoryCheck::Off,
                MemoryBudget::Explicit { check, .. } => check,
            }),
    {
        match self {
            MemoryBudget::Legacy => MemoryCheck::Error,
            MemoryBudget::Unspecified => MemoryCheck::Off,
            MemoryBudget::Explicit { check, .. } => check,
        }
    }

    /// Whether a forecast stays within the limit (always, without a limit).
    #[verifier::allow_in_spec]
    pub fn fits(self, forecast: u64, legacy_limit: u64) -> bool
        returns
            (match self.limit(legacy_limit) {
                None => true,
                Some(limit) => forecast <= limit,
            }),
    {
        match self.limit(legacy_limit) {
            None => true,
            Some(limit) => forecast <= limit,
        }
    }

    /// Whether a strict budget refuses the forecast.
    #[verifier::allow_in_spec]
    pub fn rejects(self, forecast: u64, legacy_limit: u64) -> bool
        returns
            self.check() == MemoryCheck::Error && !self.fits(forecast, legacy_limit),
    {
        let strict = match self.check() {
            MemoryCheck::Error => true,
            _ => false,
        };
        strict && !self.fits(forecast, legacy_limit)
    }

    /// A declared limit of zero bytes is invalid.
    pub fn validate(self, legacy_limit: u64) -> (r: Result<()>)
        ensures
            r is Ok <==> self.limit(legacy_limit) != Some(0u64),
            r matches Err(e) ==> e.code == ErrorCode::InvalidInput && e.phase == "memory_budget",
    {
        if self.limit(legacy_limit) == Some(0u64) {
            return Err(
                BackendError::invalid("memory_budget", "an explicit memory budget must be positive"),
            );
        }
        Ok(())
    }

    /// Validates the budget, then refuses a forecast that a strict budget exceeds.
    pub fn admit_forecast(self, forecast: u64, legacy_limit: u64, phase: &'static str) -> (r: Result<()>)
        ensures
            r is Ok <==> self.limit(legacy_limit) != Some(0u64) && !self.rejects(
                forecast,
                legacy_limit,
            ),
            r matches Err(e) ==> {
                if self.limit(legacy_limit) == Some(0u64) {
                    e.code == ErrorCode::InvalidInput && e.phase == "memory_budget"
                } else {
                    e.code == ErrorCode::ResourceLimit && e.phase == phase
                }
            },
    {
        self.validate(legacy_limit)?;
        if self.rejects(forecast, legacy_limit) {
            return Err(
                BackendError::new(
                    ErrorCode::ResourceLimit,
                    phase,
                    "allocation forecast exceeds the declared budget",
                ),
            );
        }
        Ok(())
    }

    /// The limit that is enforced, if any.
    pub fn hard_limit(self, legacy_limit: u64) -> (r: Option<u64>)
        ensures
            r == (if self.check() == MemoryCheck::Error {
                self.limit(legacy_limit)
            } else {
                None
            }),
    {
        match self.check() {
            MemoryCheck::Error => self.limit(legacy_limit),
            _ => None,
        }
    }

    /// The legacy receipt field: the limit, or zero when no budget exists.
    pub fn receipt_limit(self, legacy_limit: u64) -> (r: u64)
        ensures
            r == (match self.limit(legacy_limit) {
                Some(limit) => limit,
                None => 0,
            }),
    {
        match self.limit(legacy_limit) {
            Some(limit) => limit,
            None => 0,
        }
    }
}

/// An omitted budget admits every forecast.
pub proof fn lemma_unspecified_never_rejects(forecast: u64, legacy_limit: u64)
    ensures
        !MemoryBudget::Unspecified.rejects(forecast, legacy_limit),
        MemoryBudget::Unspecified.fits(forecast, legacy_limit),
        MemoryBudget::Unspecified.limit(legacy_limit) is None,
{
}

/// An advisory or disabled explicit budget never refuses a forecast, even one it does not fit.
pub proof fn lemma_advisory_never_rejects(bytes: u64, check: MemoryCheck, forecast: u64, legacy_limit: u64)
    requires
        check != MemoryCheck::Error,
    ensures
        !(MemoryBudget::Explicit { bytes, check }).rejects(forecast, legacy_limit),
{
}

/// A strict budget (legacy or explicit with `Error`) and a positive limit admit a
/// forecast exactly when it is at most the limit: the boundary itself is admitted.
pub proof fn lemma_strict_boundary(budget: MemoryBudget, forecast: u64, legacy_limit: u64)
    requires
        budget.check() == MemoryCheck::Error,
        budget.limit(legacy_limit) is Some,
        budget.limit(legacy_limit) != Some(0u64),
    ensures
        budget.rejects(forecast, legacy_limit) <==> forecast > budget.limit(legacy_limit)->0,
{
}

/// Fitting is downward closed: a smaller forecast fits whenever a larger one does.
pub proof fn lemma_fits_monotone(budget: MemoryBudget, small: u64, large: u64, legacy_limit: u64)
    requires
        small <= large,
        budget.fits(large, legacy_limit),
    ensures
        budget.fits(small, legacy_limit),
        !budget.rejects(small, legacy_limit),
{
}

/// A budget rejects only forecasts above its hard limit, and has a hard limit
/// whenever it rejects anything.
pub proof fn lemma_rejects_iff_above_hard_limit(budget: MemoryBudget, forecast: u64, legacy_limit: u64)
    ensures
        budget.rejects(forecast, legacy_limit) <==> (budget.check() == MemoryCheck::Error
            && budget.limit(legacy_limit) is Some && forecast > budget.limit(legacy_limit)->0),
{
}

} // verus!
