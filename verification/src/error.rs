//! Error kinds reported by the library.

use vstd::prelude::*;

verus! {

/// Everything that can go wrong in this library. All failures are
/// deterministic functions of the inputs and abort the operation with the
/// container left unchanged.
#[derive(Clone, Debug, PartialEq)]
pub enum StruqtureError {
    /// An inserted product names a spin index at or above the declared bound
    /// of a capacity-bounded container.
    CapacityViolation { index: usize, number_spins: usize },
    /// Arithmetic between containers whose declared bounds do not fit
    /// together.
    IncompatibleOperands,
    /// A sparse-matrix request named a basis dimension that does not match
    /// the declared spin count.
    DimensionMismatch { expected: usize, found: usize },
    /// A readable-format token could not be parsed; carries the offending
    /// token.
    MalformedToken { token: String },
    /// Serialized data stamped with a schema major version newer than this
    /// library supports.
    UnsupportedSchemaVersion { major: u32 },
}

} // verus!
