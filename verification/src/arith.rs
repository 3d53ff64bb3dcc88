//! Overflow-aware address arithmetic.

use crate::error::ProcessError;
use vstd::prelude::*;

verus! {

/// Adds an offset to an address and reports `Overflow` when the sum is not an address.
pub fn safe_add(a: usize, b: usize) -> (r: Result<usize, ProcessError>)
    ensures
        a + b <= usize::MAX ==> r == Ok::<usize, ProcessError>((a + b) as usize),
        a + b > usize::MAX ==> r == Err::<usize, ProcessError>(ProcessError::Overflow),
{
    match a.checked_add(b) {
        Some(sum) => Ok(sum),
        None => Err(ProcessError::Overflow),
    }
}

/// Subtracts an offset from an address and reports `Overflow` when the offset exceeds it.
pub fn safe_sub(a: usize, b: usize) -> (r: Result<usize, ProcessError>)
    ensures
        b <= a ==> r == Ok::<usize, ProcessError>((a - b) as usize),
        b > a ==> r == Err::<usize, ProcessError>(ProcessError::Overflow),
{
    match a.checked_sub(b) {
        Some(diff) => Ok(diff),
        None => Err(ProcessError::Overflow),
    }
}

} // verus!
