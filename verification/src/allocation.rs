//! Fallible allocation: capacity failures become typed errors instead of aborts.

use vstd::prelude::*;

use crate::error::{BackendError, ErrorCode, Result};

verus! {

/// Calls `Vec::try_reserve_exact`; reports whether the reservation succeeded.
/// A reservation never changes the vector's elements. As documented, it fails
/// when the capacity overflows: when the length plus `additional` exceeds
/// `usize`, or, for an element type that takes space, when the capacity would
/// exceed `isize::MAX` bytes. Whether the allocator grants any other request
/// is not stated.
#[verifier::external_body]
fn try_reserve_exact_std<T>(values: &mut Vec<T>, additional: usize) -> (ok: bool)
    ensures
        final(values)@ == old(values)@,
        old(values).len() + additional > usize::MAX ==> !ok,
        vstd::layout::size_of::<T>() > 0 && old(values).len() + additional > isize::MAX ==> !ok,
{
    values.try_reserve_exact(additional).is_ok()
}

/// Reserves room for `additional` more elements, or fails with `AllocationFailed`.
pub fn reserve_exact<T>(
    values: &mut Vec<T>,
    additional: usize,
    phase: &'static str,
    label: &str,
) -> (r: Result<()>)
    ensures
        final(values)@ == old(values)@,
        r matches Err(e) ==> e.code == ErrorCode::AllocationFailed && e.phase == phase,
        old(values).len() + additional > usize::MAX ==> r is Err,
        vstd::layout::size_of::<T>() > 0 && old(values).len() + additional > isize::MAX ==> r is Err,
{
    if try_reserve_exact_std(values, additional) {
        Ok(())
    } else {
        Err(BackendError::new(ErrorCode::AllocationFailed, phase, label))
    }
}

} // verus!
