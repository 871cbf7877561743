//! The ways in which decoding can fail.
use vstd::prelude::*;

verus! {

/// What went wrong. Every failure ends the decode session: no partial image
/// is ever handed out.
#[derive(Clone, Copy, Debug, PartialEq, Eq, Structural)]
pub enum ErrorKind {
    /// The stream does not open with the start-of-image marker.
    MissingStartOfImage,
    /// A segment declares more payload bytes than the stream still holds.
    TruncatedSegment,
    /// A segment's contents contradict its declared length or break a
    /// structural rule (table size, component count, sampling factors).
    MalformedSegment,
    /// A scan selects a Huffman table slot that no earlier segment defined.
    UndefinedHuffmanTable,
    /// Sixteen bits were read without reaching a code of the table.
    InvalidHuffmanCode,
    /// The entropy-coded data describes an impossible block.
    MalformedScanData,
    /// The stream uses a feature outside baseline, single-scan, 8-bit JPEG.
    UnsupportedEncoding,
    /// The stream ended where more data was required.
    UnexpectedEndOfStream,
    /// The byte source itself failed. The decoder works on bytes already in
    /// memory and never reports this; it is here for callers that fill the
    /// buffer from a fallible source and want one error vocabulary.
    IoError,
}

/// A failure together with the byte offset of the marker whose segment was
/// being processed when it was detected.
#[derive(Clone, Copy, Debug, PartialEq, Eq, Structural)]
pub struct DecodeError {
    pub kind: ErrorKind,
    pub offset: usize,
}

/// The outcome of parsing a run of items, given the items already parsed
/// and the outcome for the rest of the run.
pub open spec fn prepend<T>(done: Seq<T>, rest: Result<Seq<T>, ErrorKind>) -> Result<
    Seq<T>,
    ErrorKind,
> {
    match rest {
        Ok(more) => Ok(done + more),
        Err(e) => Err(e),
    }
}

} // verus!
