use vstd::prelude::*;

verus! {

/// Every way a decode can fail.  Decoding is all-or-nothing: the first error
/// aborts the whole decode and no partial summary is returned.
#[derive(Clone, Copy, Debug, PartialEq, Eq, Structural)]
pub enum DecodeError {
    /// The first four bytes are not the WASM magic number.
    BadMagic,
    /// The four version bytes name a version other than 1.
    UnsupportedVersion,
    /// A read asked for more bytes than remain.
    UnexpectedEof,
    /// A LEB128 varint whose continuation bit never clears within the
    /// maximum byte width.
    MalformedVarint,
    /// A LEB128 varint whose decoded magnitude exceeds the target range.
    Overflow,
    /// A name whose bytes are not valid UTF-8.
    InvalidUtf8,
    /// A section record declares more bytes than remain in the buffer.
    TruncatedSection,
    /// A byte that does not match a recognized value type encoding.
    InvalidValueType,
    /// An export kind byte that does not match a recognized export kind.
    InvalidExportKind,
    /// A section decoder finished its declared entries away from the end of
    /// its slice, or met a descriptor tag that leaves the rest unframeable.
    SectionLengthMismatch,
    /// A function declaration references a type index at or past the end of
    /// the type table; found by the cross-reference pass after decoding.
    DanglingTypeIndex { function_index: usize, type_index: u32 },
}

} // verus!
