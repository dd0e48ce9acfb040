//! The ways in which a call across the boundary can fail.

use vstd::prelude::*;

verus! {

/// Why a guest export could not be run to its end.
#[derive(Clone, Copy, Debug, PartialEq, Eq, Structural)]
pub enum CallError {
    /// The guest has no export of that name.
    MissingExport,
    /// The guest trapped while it ran the export.
    Trap,
}

/// Why a value could not be moved across the boundary.
#[derive(Clone, Copy, Debug, PartialEq, Eq, Structural)]
pub enum AbiError {
    /// A guest export was missing or trapped.
    Call(CallError),
    /// The payload and its header are more than a 32-bit size can name.
    SizeLimitExceeded,
    /// A buffer does not lie within the guest's memory.
    OutOfBounds,
    /// The guest could not reserve the memory asked for.
    OutOfMemory,
    /// An export returned nothing where its signature declares a value.
    MissingResult,
    /// The number of arguments is not the number of declared parameters.
    ArityMismatch,
}

} // verus!
