//! Typed backend errors.

use vstd::prelude::*;
use vstd::string::*;

verus! {

/// Error classes reported by the backend.
#[derive(Clone, Copy, Debug, PartialEq, Eq, Structural)]
pub enum ErrorCode {
    InvalidInput,
    InternalInvariant,
    ResourceLimit,
    AllocationFailed,
    UserBreak,
    UnsupportedFeature,
    GraphEmpty,
    GraphCertificateFailed,
    GraphUnidentified,
    ContextPoisoned,
    Panic,
    RngContractFailed,
    CorrectionNonFinite,
    NonestimableDeletion,
}

/// A classified failure with the phase that raised it.
#[derive(Clone, Debug)]
pub struct BackendError {
    pub code: ErrorCode,
    pub phase: &'static str,
    pub message: String,
}

/// Result type used throughout the backend.
pub type Result<T> = core::result::Result<T, BackendError>;

impl BackendError {
    pub fn new(code: ErrorCode, phase: &'static str, message: &str) -> (e: BackendError)
        ensures
            e.code == code,
            e.phase == phase,
            e.message@ == message@,
    {
        BackendError { code, phase, message: String::from_str(message) }
    }

    pub fn invalid(phase: &'static str, message: &str) -> (e: BackendError)
        ensures
            e.code == ErrorCode::InvalidInput,
            e.phase == phase,
            e.message@ == message@,
    {
        Self::new(ErrorCode::InvalidInput, phase, message)
    }

    /// A copy of this error, field for field.
    pub fn duplicate(&self) -> (e: BackendError)
        ensures
            e == *self,
    {
        BackendError { code: self.code, phase: self.phase, message: self.message.clone() }
    }

    pub fn internal(phase: &'static str, message: &str) -> (e: BackendError)
        ensures
            e.code == ErrorCode::InternalInvariant,
            e.phase == phase,
            e.message@ == message@,
    {
        Self::new(ErrorCode::InternalInvariant, phase, message)
    }
}

} // verus!
