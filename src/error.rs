//! Errors reported by a session.

use vstd::prelude::*;

verus! {

/// Errors of opening a session.
#[derive(Debug, PartialEq, Eq, Structural)]
#[non_exhaustive]
pub enum FwCfgError {
    /// The signature item did not read as `QEMU`.
    InvalidSignature,
}

/// Errors of writing a file.
#[derive(Debug, PartialEq, Eq, Structural)]
#[non_exhaustive]
pub enum FwCfgWriteError {
    /// The device offers no DMA interface, which writing needs.
    DmaNotAvailable,
    /// The device reported an error during a DMA transfer.
    DmaFailed,
}

} // verus!
