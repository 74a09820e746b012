use vstd::prelude::*;

verus! {

/// Why a frame, or a piece of text, could not be decoded.
#[derive(Debug, Clone, Copy, PartialEq, Eq, Structural)]
pub enum DecodeError {
    /// Fewer bytes remain than a field or a declared count requires.
    Truncated,
    /// An invalid length byte, a pointer whose target is not strictly before
    /// the pointer itself, a label that is not UTF-8, a name over the length
    /// cap (which also ends pointer loops through labels), or presentation
    /// text that holds no name.
    MalformedName,
    /// A resource record whose type has no payload decoder. Its declared
    /// payload length was still honoured: `next_record` is the offset in the
    /// frame just past the record, where the next record starts.
    UnsupportedType { code: u16, next_record: usize },
    /// A payload whose declared length differs from the length its type needs.
    RdataLengthMismatch,
}

} // verus!
