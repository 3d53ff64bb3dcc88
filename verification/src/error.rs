//! The ways in which an operation of this library can fail.

use vstd::prelude::*;

verus! {

/// Failure of a scan, of a pattern's syntax or of an access to the inspected process.
#[derive(Debug)]
pub enum ProcessError {
    /// The named module is not loaded in the inspected process.
    ModuleNotFound,
    /// Memory at the given address could not be read.
    ReadMemoryFail(usize),
    /// Memory information at the given address could not be queried.
    QueryMemoryFail(usize),
    /// No running process carries the given name.
    ProcessNotFound(String),
    /// The file mapping with the given name could not be created.
    CreateFileMapping(String),
    /// A token of a textual pattern is not two bytes long.
    InvalidPattern,
    /// A two-byte token of a textual pattern is neither the wildcard nor two hex digits.
    InvalidHexString,
    /// An address computation left the range of addresses.
    Overflow,
}

} // verus!
