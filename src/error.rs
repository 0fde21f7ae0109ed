use vstd::prelude::*;

verus! {

/// Every way a read, a decode or the framer can fail.
#[derive(Debug, Clone, Copy, PartialEq, Eq, Structural)]
pub enum BufferError {
    /// Fewer bytes remain than the requested read needs.
    Truncated,
    /// A VarInt whose first five bytes all carry the continuation bit.
    VarIntTooLarge,
    /// A VarLong whose first ten bytes all carry the continuation bit.
    VarLongTooLarge,
    /// A string whose declared or actual byte length exceeds the allowed maximum.
    StringTooLarge,
    /// String bytes that are not valid UTF-8.
    InvalidUtf8,
    /// A frame whose declared length exceeds the configured ceiling.
    FrameTooLarge,
}

} // verus!
