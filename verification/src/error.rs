//! Error taxonomy for parsing and applying IPS patches.

use vstd::prelude::*;

verus! {

/// The record field that a parser was reading when the patch buffer ran out.
#[derive(Clone, Copy, Debug, PartialEq, Eq, Structural)]
pub enum PatchField {
    /// The 3-byte big-endian record offset.
    Offset,
    /// The 2-byte big-endian size field.
    Size,
    /// The 2-byte big-endian run length of a run-length record.
    RleLength,
    /// The single fill byte of a run-length record.
    RleValue,
    /// The `size`-byte payload of a literal record.
    Data,
    /// The 3-byte `EOF` terminator (or the start of a further record).
    EofMarker,
}

/// Everything that can go wrong while parsing or applying a patch.
///
/// Every error is terminal for the whole operation: there is no partial
/// success and no recovery.
#[derive(Clone, Copy, Debug, PartialEq, Eq, Structural)]
pub enum IpsError {
    /// The patch buffer does not begin with the 5-byte `PATCH` magic.
    MalformedHeader,
    /// The patch buffer ended while `field` was still expected: only
    /// `have` of the `need` bytes of the field were present.
    TruncatedRecord { field: PatchField, have: usize, need: usize },
    /// A non-append record's target range `[offset, offset + size)`
    /// reaches past the original input buffer.
    OutOfBounds { offset: usize, size: usize },
    /// The supplied patch location is not a usable filesystem path.
    InvalidPath,
}

} // verus!
