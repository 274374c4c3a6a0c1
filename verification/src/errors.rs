//! The error kinds that repository and engine operations surface.

use vstd::prelude::*;

verus! {

/// Why a block operation failed.
///
/// `NotFound` is returned where a caller unconditionally expects a row to be
/// present and it is not. `DecodeError` means a stored row's identifier,
/// timestamp or content payload failed to parse. `StorageError` means the
/// table cannot take another row. `ContractViolation` means a caller handed
/// in an argument outside the documented range, such as an out-of-range
/// target position for a reorder.
#[derive(Clone, Copy, Debug, PartialEq, Eq, Structural)]
pub enum BlockError {
    NotFound,
    DecodeError,
    StorageError,
    ContractViolation,
}

} // verus!
