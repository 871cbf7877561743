//! The markers that delimit the segments of a stream, and what each of them
//! calls for in each state of the segment parser.
use crate::error::ErrorKind;
use vstd::prelude::*;

verus! {

/// Start of image.
pub const SOI: u16 = 0xFFD8;

/// End of image.
pub const EOI: u16 = 0xFFD9;

/// Define quantization tables.
pub const DQT: u16 = 0xFFDB;

/// Define Huffman tables.
pub const DHT: u16 = 0xFFC4;

/// Start of a baseline frame.
pub const SOF0: u16 = 0xFFC0;

/// Start of scan.
pub const SOS: u16 = 0xFFDA;

/// Where the segment parser stands.
#[derive(Clone, Copy, Debug, PartialEq, Eq, Structural)]
pub enum ParserState {
    /// Nothing has been read; the stream must open with `SOI`.
    AwaitingSoi,
    /// Between segments; a marker comes next.
    ParsingSegments,
    /// A scan header has been read; entropy-coded data comes next.
    InScan,
    /// `EOI` has been read; nothing more is looked at.
    Done,
}

/// What a marker calls for.
#[derive(Clone, Copy, Debug, PartialEq, Eq, Structural)]
pub enum Action {
    /// The image starts: go on to the segments.
    Begin,
    /// The image ends.
    Finish,
    /// A segment of quantization tables follows.
    Quantization,
    /// A segment of Huffman tables follows.
    Huffman,
    /// A baseline frame header follows.
    Frame,
    /// A scan header follows, and after it the entropy-coded data.
    Scan,
    /// A segment of no concern follows; it is passed over by its length.
    Skip,
    /// The marker is not looked at.
    Ignore,
    /// The marker cannot be accepted here.
    Fail(ErrorKind),
}

/// Whether the two bytes are a marker that opens a segment: 0xFF and then
/// anything but zero.
pub open spec fn is_marker(marker: u16) -> bool {
    marker / 256 == 0xFF && marker % 256 != 0
}

/// What `marker` calls for in `state`.
///
/// Before anything else only `SOI` is accepted. Between segments, and for
/// the marker that ends the entropy-coded data of a scan, the table, frame
/// and scan markers open their segments and `EOI` ends the image; every
/// start-of-frame marker other than the baseline one, 0xFFC1 to 0xFFCF
/// without `DHT`, is unsupported; a second `SOI` and two bytes that are no
/// marker are malformed; any other marker opens a segment that is passed
/// over. After `EOI` nothing is looked at.
pub open spec fn classify_spec(state: ParserState, marker: u16) -> Action {
    match state {
        ParserState::AwaitingSoi => if marker == SOI {
            Action::Begin
        } else {
            Action::Fail(ErrorKind::MissingStartOfImage)
        },
        ParserState::Done => Action::Ignore,
        _ => if marker == EOI {
            Action::Finish
        } else if marker == DQT {
            Action::Quantization
        } else if marker == DHT {
            Action::Huffman
        } else if marker == SOF0 {
            Action::Frame
        } else if marker == SOS {
            Action::Scan
        } else if 0xFFC1 <= marker <= 0xFFCF {
            Action::Fail(ErrorKind::UnsupportedEncoding)
        } else if marker == SOI || !is_marker(marker) {
            Action::Fail(ErrorKind::MalformedSegment)
        } else {
            Action::Skip
        },
    }
}

/// What `marker` calls for in `state`.
pub fn classify(state: ParserState, marker: u16) -> (a: Action)
    ensures
        a == classify_spec(state, marker),
{
    match state {
        ParserState::AwaitingSoi => {
            if marker == SOI {
                Action::Begin
            } else {
                Action::Fail(ErrorKind::MissingStartOfImage)
            }
        },
        ParserState::Done => Action::Ignore,
        _ => {
            if marker == EOI {
                Action::Finish
            } else if marker == DQT {
                Action::Quantization
            } else if marker == DHT {
                Action::Huffman
            } else if marker == SOF0 {
                Action::Frame
            } else if marker == SOS {
                Action::Scan
            } else if 0xFFC1 <= marker && marker <= 0xFFCF {
                Action::Fail(ErrorKind::UnsupportedEncoding)
            } else if marker == SOI || marker / 256 != 0xFF || marker % 256 == 0 {
                Action::Fail(ErrorKind::MalformedSegment)
            } else {
                Action::Skip
            }
        },
    }
}

} // verus!
