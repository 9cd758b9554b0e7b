use vstd::prelude::*;

verus! {

/// What went wrong while encoding or decoding.
#[derive(Debug, Clone, Copy, PartialEq, Eq, Structural)]
pub enum ErrorKind {
    /// The buffer ends before a field that it declares.
    TruncatedInput,
    /// A label length byte has exactly one of its two high bits set.
    MalformedName,
    /// Following compression pointers took more hops than allowed.
    PointerLoop,
    /// A label of a name to encode is longer than 63 bytes.
    LabelTooLong,
    /// The data of a record to encode is longer than 65535 bytes.
    RdataTooLarge,
    /// The bytes of a decoded name are not valid UTF-8.
    InvalidUtf8,
}

/// The part of a message that a decoder was reading when it failed.
#[derive(Debug, Clone, Copy, PartialEq, Eq, Structural)]
pub enum Phase {
    Header,
    Name,
    Question,
    Record,
}

/// A decoding failure: where in the message it happened and why.
#[derive(Debug, Clone, Copy, PartialEq, Eq, Structural)]
pub struct DecodeError {
    pub phase: Phase,
    pub kind: ErrorKind,
    /// Offset into the buffer of the byte whose reading failed.
    pub offset: usize,
}

impl DecodeError {
    pub open spec fn at(phase: Phase, kind: ErrorKind, offset: int) -> DecodeError {
        DecodeError { phase, kind, offset: offset as usize }
    }
}

} // verus!
