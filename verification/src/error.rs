use vstd::prelude::*;

verus! {

/// Errors reported by the bounds-checked decode paths.
///
/// Encoding into an in-memory sink never fails, so there is no encode
/// counterpart.
#[derive(Clone, Copy, Debug, PartialEq, Eq, Structural)]
pub enum DecodeError {
    /// The input ended in the middle of a value.
    Truncated,
    /// A field key carried an unsupported wire type or field number, or
    /// a value arrived with the wrong wire type for its field.
    InvalidWireType,
    /// A string field held bytes that are not valid UTF-8.
    InvalidUtf8,
    /// A length prefix (or an over-long variable-width integer) exceeds the
    /// remaining input or the address space.
    LengthOverflow,
    /// A structure terminator was missing, or a frame closed with bytes left
    /// over.
    MismatchedStructureEnd,
}

} // verus!
