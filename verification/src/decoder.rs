//! The decode session: a state machine that walks the markers of a stream,
//! gathers tables and headers, decodes the scan, and ends with the image.
use crate::error::{DecodeError, ErrorKind};
use crate::frame::{parse_sof, parse_sof_spec, parse_sos, parse_sos_spec, ScanComponent};
use crate::huffman::{parse_dht, parse_dht_spec};
use crate::image::{Image, ImageView};
use crate::marker::{classify, classify_spec, Action, ParserState};
use crate::model::{FrameModel, ModelSpec};
use crate::quant::{dqt_payload, dqt_segment, parse_dqt, parse_dqt_spec, QuantSpec};
use crate::raster::{assemble, assemble_result};
use crate::reader::{lemma_entropy_end_bounds, u16_at, ByteReader};
use crate::scan::{decode_scan, decode_scan_spec};
use vstd::prelude::*;

verus! {

/// A failure and the offset of the marker whose segment was being processed
/// when it was detected.
pub struct Failure {
    pub kind: ErrorKind,
    pub offset: int,
}

/// The state of a decode session.
pub struct SessionSpec {
    /// Where the segment parser stands.
    pub state: ParserState,
    /// The offset of the next byte to look at.
    pub pos: int,
    /// The offset of the marker of the scan under way.
    pub marker: int,
    /// The tables and the frame header gathered so far.
    pub model: ModelSpec,
    /// The components of the scan under way.
    pub scan: Seq<ScanComponent>,
    /// The image, once the scan has been decoded.
    pub image: Option<ImageView>,
}

impl SessionSpec {
    /// The session before anything has been read.
    pub open spec fn start() -> SessionSpec {
        SessionSpec {
            state: ParserState::AwaitingSoi,
            pos: 0,
            marker: 0,
            model: ModelSpec::empty(),
            scan: Seq::empty(),
            image: None,
        }
    }
}

/// The payload of the segment whose marker stands at `pos`. The two bytes
/// after the marker give the segment's length, themselves included. The
/// stream ending inside them is an unexpected end; a length below 2 is
/// malformed; a length that reaches past the stream's end is a truncated
/// segment.
pub open spec fn segment_payload(bytes: Seq<u8>, pos: int) -> Result<Seq<u8>, ErrorKind> {
    match u16_at(bytes, pos + 2) {
        None => Err(ErrorKind::UnexpectedEndOfStream),
        Some(length) => if length < 2 {
            Err(ErrorKind::MalformedSegment)
        } else if pos + 2 + length > bytes.len() {
            Err(ErrorKind::TruncatedSegment)
        } else {
            Ok(bytes.subrange(pos + 4, pos + 2 + length))
        },
    }
}

/// What a segment does to the session. Tables take their slots, a frame
/// header replaces any earlier one, a scan header starts the scan, and a
/// segment of no concern changes nothing. A scan header after a scan has
/// been decoded is unsupported.
pub open spec fn apply_segment(s: SessionSpec, action: Action, payload: Seq<u8>) -> Result<
    SessionSpec,
    ErrorKind,
> {
    match action {
        Action::Quantization => match parse_dqt_spec(payload) {
            Err(e) => Err(e),
            Ok(tables) => Ok(SessionSpec { model: s.model.with_quants(tables), ..s }),
        },
        Action::Huffman => match parse_dht_spec(payload) {
            Err(e) => Err(e),
            Ok(definitions) => Ok(SessionSpec { model: s.model.with_huffmans(definitions), ..s }),
        },
        Action::Frame => match parse_sof_spec(payload) {
            Err(e) => Err(e),
            Ok(frame) => Ok(SessionSpec { model: s.model.with_frame(frame), ..s }),
        },
        Action::Scan => if s.image is Some {
            Err(ErrorKind::UnsupportedEncoding)
        } else {
            match parse_sos_spec(payload) {
                Err(e) => Err(e),
                Ok(components) => Ok(
                    SessionSpec { state: ParserState::InScan, marker: s.pos, scan: components, ..s },
                ),
            }
        },
        _ => Ok(s),
    }
}

/// One step of the session at a marker: the marker is read and classified,
/// and what it calls for is done. The end of the image before any scan has
/// been decoded is unsupported.
pub open spec fn marker_step(bytes: Seq<u8>, s: SessionSpec) -> Result<SessionSpec, Failure> {
    match u16_at(bytes, s.pos) {
        None => Err(Failure { kind: ErrorKind::UnexpectedEndOfStream, offset: s.pos }),
        Some(marker) => match classify_spec(s.state, marker) {
            Action::Fail(kind) => Err(Failure { kind, offset: s.pos }),
            Action::Ignore => Ok(s),
            Action::Begin => Ok(
                SessionSpec { state: ParserState::ParsingSegments, pos: s.pos + 2, ..s },
            ),
            Action::Finish => if s.image is None {
                Err(Failure { kind: ErrorKind::UnsupportedEncoding, offset: s.pos })
            } else {
                Ok(SessionSpec { state: ParserState::Done, pos: s.pos + 2, ..s })
            },
            action => match segment_payload(bytes, s.pos) {
                Err(kind) => Err(Failure { kind, offset: s.pos }),
                Ok(payload) => match apply_segment(s, action, payload) {
                    Err(kind) => Err(Failure { kind, offset: s.pos }),
                    Ok(next) => Ok(SessionSpec { pos: s.pos + 4 + payload.len(), ..next }),
                },
            },
        },
    }
}

/// One step of the session inside a scan: the entropy-coded data is decoded
/// up to the marker that ends it, the image is built, and the session is
/// back between segments, at that marker.
pub open spec fn scan_step(bytes: Seq<u8>, s: SessionSpec) -> Result<SessionSpec, Failure> {
    match decode_scan_spec(s.model, s.scan, bytes, s.pos) {
        Err(kind) => Err(Failure { kind, offset: s.marker }),
        Ok((samples, end)) => match assemble_result(s.model.frame->0, samples) {
            Err(kind) => Err(Failure { kind, offset: s.marker }),
            Ok(image) => Ok(
                SessionSpec {
                    state: ParserState::ParsingSegments,
                    pos: end,
                    image: Some(image),
                    ..s
                },
            ),
        },
    }
}

/// One step of the session.
pub open spec fn step_spec(bytes: Seq<u8>, s: SessionSpec) -> Result<SessionSpec, Failure> {
    match s.state {
        ParserState::Done => Ok(s),
        ParserState::InScan => scan_step(bytes, s),
        _ => marker_step(bytes, s),
    }
}

/// Every step that succeeds moves forward in the stream, or leaves a scan
/// at least.
pub proof fn lemma_step_progress(bytes: Seq<u8>, s: SessionSpec)
    requires
        0 <= s.pos <= bytes.len(),
        s.state != ParserState::Done,
    ensures
        step_spec(bytes, s) matches Ok(next) ==> s.pos <= next.pos <= bytes.len() && (s.pos
            < next.pos || (s.state == ParserState::InScan && next.state
            != ParserState::InScan)),
{
    if s.state == ParserState::InScan {
        lemma_entropy_end_bounds(bytes, s.pos);
    }
}

/// The outcome of a session that goes on from state `s`: the image that it
/// holds when it reaches the end of the image, or the first failure.
pub open spec fn run_spec(bytes: Seq<u8>, s: SessionSpec) -> Result<ImageView, Failure>
    decreases
            bytes.len() - s.pos,
            (if s.state == ParserState::InScan {
                1int
            } else {
                0int
            }),
    when 0 <= s.pos <= bytes.len()
{
    if s.state == ParserState::Done {
        match s.image {
            Some(image) => Ok(image),
            None => Err(Failure { kind: ErrorKind::UnsupportedEncoding, offset: s.pos }),
        }
    } else {
        match step_spec(bytes, s) {
            Err(failure) => Err(failure),
            Ok(next) => {
                proof {
                    lemma_step_progress(bytes, s);
                }
                run_spec(bytes, next)
            },
        }
    }
}

/// What decoding a stream yields: the image, or the failure that ended the
/// session.
pub open spec fn decode_spec(bytes: Seq<u8>) -> Result<ImageView, Failure> {
    run_spec(bytes, SessionSpec::start())
}

/// A stream that does not open with the start-of-image marker is turned
/// down at its first byte.
pub proof fn lemma_missing_start(bytes: Seq<u8>)
    requires
        bytes.len() >= 2,
        u16_at(bytes, 0) != Some(crate::marker::SOI),
    ensures
        decode_spec(bytes) == Err::<ImageView, Failure>(
            Failure { kind: ErrorKind::MissingStartOfImage, offset: 0 },
        ),
{
}

/// The end of the image before any scan has been decoded yields no image:
/// whatever tables and headers came before, the stream is unsupported, and
/// the failure points at the end-of-image marker.
pub proof fn lemma_end_without_scan(bytes: Seq<u8>, s: SessionSpec)
    requires
        0 <= s.pos <= bytes.len(),
        s.state == ParserState::ParsingSegments,
        s.image is None,
        u16_at(bytes, s.pos) == Some(crate::marker::EOI),
    ensures
        run_spec(bytes, s) == Err::<ImageView, Failure>(
            Failure { kind: ErrorKind::UnsupportedEncoding, offset: s.pos },
        ),
{
}

/// A failure ends the session: the outcome of the whole run is the failure
/// of the step that failed.
pub proof fn lemma_failure_is_final(bytes: Seq<u8>, s: SessionSpec)
    requires
        0 <= s.pos <= bytes.len(),
        s.state != ParserState::Done,
        step_spec(bytes, s) is Err,
    ensures
        run_spec(bytes, s) == Err::<ImageView, Failure>(step_spec(bytes, s)->Err_0),
{
}

/// Reading inverts writing, for whole segments: wherever between segments
/// the segment written for a list of well-formed quantization tables
/// stands, one step reads it entirely and leaves exactly those tables in
/// the model, each in its slot, later ones over earlier ones.
pub proof fn lemma_dqt_segment_is_read_back(bytes: Seq<u8>, s: SessionSpec, tables: Seq<QuantSpec>)
    requires
        s.state == ParserState::ParsingSegments,
        0 <= s.pos,
        forall|i: int| 0 <= i < tables.len() ==> (#[trigger] tables[i]).wf(),
        dqt_payload(tables).len() + 2 <= 0xFFFF,
        s.pos + dqt_segment(tables).len() <= bytes.len(),
        bytes.subrange(s.pos, s.pos + dqt_segment(tables).len()) == dqt_segment(tables),
    ensures
        marker_step(bytes, s) == Ok::<SessionSpec, Failure>(
            SessionSpec {
                pos: s.pos + dqt_segment(tables).len(),
                model: s.model.with_quants(tables),
                ..s
            },
        ),
{
    let segment = dqt_segment(tables);
    let payload = dqt_payload(tables);
    let length = payload.len() + 2;
    let held = bytes.subrange(s.pos, s.pos + segment.len());
    let head = seq![0xFFu8, 0xDBu8, (length / 256) as u8, (length % 256) as u8];
    assert(segment == head + payload);
    assert(segment.len() == 4 + payload.len());
    assert(held[0] == bytes[s.pos] && held[0] == head[0]);
    assert(held[1] == bytes[s.pos + 1] && held[1] == head[1]);
    assert(held[2] == bytes[s.pos + 2] && held[2] == head[2]);
    assert(held[3] == bytes[s.pos + 3] && held[3] == head[3]);
    assert(u16_at(bytes, s.pos) == Some(crate::marker::DQT));
    assert(u16_at(bytes, s.pos + 2) == Some(length as u16));
    assert forall|i: int| 0 <= i < payload.len() implies bytes[s.pos + 4 + i] == payload[i] by {
        assert(held[4 + i] == bytes[s.pos + 4 + i]);
        assert(segment[4 + i] == payload[i]);
    }
    assert(bytes.subrange(s.pos + 4, s.pos + 2 + length) =~= payload);
    crate::quant::lemma_dqt_round_trip(tables);
}

/// What holds of every session: a frame header that has been read is well
/// formed, and so is an image that has been decoded.
pub open spec fn session_wf(s: SessionSpec) -> bool {
    &&& s.model.frame matches Some(frame) ==> frame.wf()
    &&& s.image matches Some(image) ==> image.wf()
}

/// A step keeps the session well formed.
pub proof fn lemma_step_keeps_wf(bytes: Seq<u8>, s: SessionSpec)
    requires
        session_wf(s),
    ensures
        step_spec(bytes, s) matches Ok(next) ==> session_wf(next),
{
    match step_spec(bytes, s) {
        Err(_) => {},
        Ok(next) => {
            if s.state == ParserState::InScan {
                let frame = s.model.frame->0;
                assert(frame.width * frame.height * frame.components.len() > 0) by (nonlinear_arith)
                    requires
                        frame.width > 0,
                        frame.height > 0,
                        frame.components.len() > 0,
                ;
            } else if s.state != ParserState::Done {
                let marker = u16_at(bytes, s.pos)->0;
                let payload = segment_payload(bytes, s.pos);
                match classify_spec(s.state, marker) {
                    Action::Quantization => {
                        crate::model::lemma_tables_keep_frame(
                            s.model,
                            parse_dqt_spec(payload->Ok_0)->Ok_0,
                            Seq::empty(),
                        );
                    },
                    Action::Huffman => {
                        crate::model::lemma_tables_keep_frame(
                            s.model,
                            Seq::empty(),
                            parse_dht_spec(payload->Ok_0)->Ok_0,
                        );
                    },
                    _ => {},
                }
            }
        },
    }
}

/// A session that starts well formed ends with a well-formed image, if it
/// ends with an image at all.
pub proof fn lemma_run_yields_wf(bytes: Seq<u8>, s: SessionSpec)
    requires
        0 <= s.pos <= bytes.len(),
        session_wf(s),
    ensures
        run_spec(bytes, s) matches Ok(image) ==> image.wf(),
    decreases
            bytes.len() - s.pos,
            (if s.state == ParserState::InScan {
                1int
            } else {
                0int
            }),
{
    if s.state != ParserState::Done {
        match step_spec(bytes, s) {
            Err(_) => {},
            Ok(next) => {
                lemma_step_progress(bytes, s);
                lemma_step_keeps_wf(bytes, s);
                lemma_run_yields_wf(bytes, next);
            },
        }
    }
}

/// No partial image ever comes out: whatever the stream, an image that
/// decoding yields has positive dimensions and exactly one sample for every
/// pixel and channel.
pub proof fn lemma_decoded_image_wf(bytes: Seq<u8>)
    ensures
        decode_spec(bytes) matches Ok(image) ==> image.wf(),
{
    lemma_run_yields_wf(bytes, SessionSpec::start());
}

/// What a failure of a step can be: never a failure of the byte source,
/// a missing start of image only where the stream opens, and always with an
/// offset inside the stream.
pub open spec fn is_session_failure(s: SessionSpec, failure: Failure) -> bool {
    &&& failure.kind != ErrorKind::IoError
    &&& failure.kind == ErrorKind::MissingStartOfImage ==> s.state == ParserState::AwaitingSoi
        && failure.offset == s.pos
    &&& failure.offset == s.pos || (s.state == ParserState::InScan && failure.offset == s.marker)
}

/// A step fails only in the ways of a session.
pub proof fn lemma_step_failure(bytes: Seq<u8>, s: SessionSpec)
    ensures
        step_spec(bytes, s) matches Err(failure) ==> is_session_failure(s, failure),
        step_spec(bytes, s) matches Ok(next) ==> (next.state == ParserState::InScan ==> (s.state
            == ParserState::InScan && next.marker == s.marker) || next.marker == s.pos),
{
    if s.state == ParserState::InScan {
        crate::scan::lemma_bind_failure(s.model, s.scan);
        match crate::scan::bind_scan(s.model, s.scan) {
            Err(_) => {},
            Ok(plan) => {
                crate::scan::lemma_decode_blocks_failure(
                    plan,
                    crate::scan::initial_state(crate::reader::entropy_bits(bytes, s.pos)),
                    0,
                    0,
                    s.model.frame->0.block_count() as nat,
                );
            },
        }
    } else if s.state != ParserState::Done {
        match segment_payload(bytes, s.pos) {
            Err(_) => {},
            Ok(payload) => {
                crate::quant::lemma_parse_dqt_failure(payload);
                crate::huffman::lemma_parse_dht_failure(payload);
            },
        }
    }
}

/// A session whose scan marker, if it is inside a scan, lies before its
/// position fails only with offsets inside the stream, never with a failure
/// of the byte source, and with a missing start of image only at the very
/// start.
pub proof fn lemma_run_failure(bytes: Seq<u8>, s: SessionSpec)
    requires
        0 <= s.pos <= bytes.len(),
        s.state == ParserState::InScan ==> 0 <= s.marker <= s.pos,
    ensures
        run_spec(bytes, s) matches Err(failure) ==> failure.kind != ErrorKind::IoError && 0
            <= failure.offset <= bytes.len() && (failure.kind == ErrorKind::MissingStartOfImage
            ==> s.state == ParserState::AwaitingSoi && failure.offset == s.pos),
    decreases
            bytes.len() - s.pos,
            (if s.state == ParserState::InScan {
                1int
            } else {
                0int
            }),
{
    if s.state != ParserState::Done {
        lemma_step_failure(bytes, s);
        match step_spec(bytes, s) {
            Err(_) => {},
            Ok(next) => {
                lemma_step_progress(bytes, s);
                lemma_run_failure(bytes, next);
            },
        }
    }
}

/// Decoding never reports a failure of the byte source; it reports a
/// missing start of image only at offset 0; and the offset of whatever it
/// reports lies inside the stream.
pub proof fn lemma_decode_failure(bytes: Seq<u8>)
    ensures
        decode_spec(bytes) matches Err(failure) ==> failure.kind != ErrorKind::IoError && 0
            <= failure.offset <= bytes.len() && (failure.kind == ErrorKind::MissingStartOfImage
            ==> failure.offset == 0),
{
    lemma_run_failure(bytes, SessionSpec::start());
}

/// A decode session over a stream held in memory.
pub struct Decoder<'a> {
    reader: ByteReader<'a>,
    state: ParserState,
    marker: usize,
    model: FrameModel,
    scan: Vec<ScanComponent>,
    image: Option<Image>,
}

impl<'a> View for Decoder<'a> {
    type V = SessionSpec;

    closed spec fn view(&self) -> SessionSpec {
        SessionSpec {
            state: self.state,
            pos: self.reader.offset(),
            marker: self.marker as int,
            model: self.model@,
            scan: self.scan@,
            image: match self.image {
                Some(image) => Some(image@),
                None => None,
            },
        }
    }
}

/// Whether an error reports the given failure.
pub open spec fn reports(error: DecodeError, failure: Failure) -> bool {
    error.kind == failure.kind && error.offset == failure.offset
}

impl<'a> Decoder<'a> {
    /// The bytes of the stream.
    pub closed spec fn bytes(&self) -> Seq<u8> {
        self.reader.bytes()
    }

    /// A session at the start of `data`.
    pub fn new(data: &'a [u8]) -> (d: Self)
        ensures
            d.bytes() == data@,
            d@ == SessionSpec::start(),
    {
        Decoder {
            reader: ByteReader::new(data),
            state: ParserState::AwaitingSoi,
            marker: 0,
            model: FrameModel::new(),
            scan: Vec::new(),
            image: None,
        }
    }

    /// Where the segment parser stands.
    pub fn state(&self) -> (s: ParserState)
        ensures
            s == self@.state,
    {
        self.state
    }

    /// The offset of the next byte to look at.
    pub fn position(&self) -> (p: usize)
        ensures
            p == self@.pos,
            p <= self.bytes().len(),
    {
        self.reader.position()
    }

    /// The tables and the frame header gathered so far.
    pub fn model(&self) -> (m: &FrameModel)
        ensures
            m@ == self@.model,
    {
        &self.model
    }

    /// Reads the length of the segment whose marker has just been read,
    /// and then its payload.
    fn payload(&mut self) -> (r: Result<&'a [u8], ErrorKind>)
        ensures
            final(self).bytes() == old(self).bytes(),
            final(self).state == old(self).state,
            final(self).marker == old(self).marker,
            final(self).model == old(self).model,
            final(self).scan == old(self).scan,
            final(self).image == old(self).image,
            match segment_payload(old(self).bytes(), old(self)@.pos - 2) {
                Ok(payload) => r matches Ok(p) && p@ == payload
                    && final(self)@.pos == old(self)@.pos + 2 + payload.len(),
                Err(e) => r matches Err(f) && f == e,
            },
    {
        let length = match self.reader.read_u16_big_endian() {
            None => {
                return Err(ErrorKind::UnexpectedEndOfStream);
            },
            Some(length) => length as usize,
        };
        if length < 2 {
            return Err(ErrorKind::MalformedSegment);
        }
        match self.reader.take(length - 2) {
            None => Err(ErrorKind::TruncatedSegment),
            Some(payload) => Ok(payload),
        }
    }

    /// Does to the session what the segment with the given payload calls
    /// for. `at` is the offset of the segment's marker.
    fn apply(&mut self, action: Action, payload: &[u8], at: usize) -> (r: Result<(), ErrorKind>)
        ensures
            final(self).reader == old(self).reader,
            match apply_segment(
                SessionSpec { pos: at as int, ..old(self)@ },
                action,
                payload@,
            ) {
                Ok(next) => r is Ok && final(self)@ == (SessionSpec { pos: old(self)@.pos, ..next }),
                Err(e) => r == Err::<(), ErrorKind>(e),
            },
    {
        match action {
            Action::Quantization => {
                let tables = match parse_dqt(payload) {
                    Err(e) => {
                        return Err(e);
                    },
                    Ok(tables) => tables,
                };
                self.model.set_quants(&tables);
                Ok(())
            },
            Action::Huffman => {
                let definitions = match parse_dht(payload) {
                    Err(e) => {
                        return Err(e);
                    },
                    Ok(definitions) => definitions,
                };
                self.model.set_huffmans(definitions);
                Ok(())
            },
            Action::Frame => {
                let frame = match parse_sof(payload) {
                    Err(e) => {
                        return Err(e);
                    },
                    Ok(frame) => frame,
                };
                self.model.set_frame(frame);
                Ok(())
            },
            Action::Scan => {
                if self.image.is_some() {
                    return Err(ErrorKind::UnsupportedEncoding);
                }
                let components = match parse_sos(payload) {
                    Err(e) => {
                        return Err(e);
                    },
                    Ok(components) => components,
                };
                self.scan = components;
                self.marker = at;
                self.state = ParserState::InScan;
                Ok(())
            },
            _ => Ok(()),
        }
    }

    /// One step at a marker.
    fn step_marker(&mut self) -> (r: Result<(), DecodeError>)
        ensures
            final(self).bytes() == old(self).bytes(),
            match marker_step(old(self).bytes(), old(self)@) {
                Ok(next) => r is Ok && final(self)@ == next,
                Err(failure) => r matches Err(e) && reports(e, failure),
            },
    {
        let at = self.reader.position();
        let marker = match self.reader.read_u16_big_endian() {
            None => {
                return Err(DecodeError { kind: ErrorKind::UnexpectedEndOfStream, offset: at });
            },
            Some(marker) => marker,
        };
        match classify(self.state, marker) {
            Action::Fail(kind) => Err(DecodeError { kind, offset: at }),
            Action::Ignore => {
                let _ = self.reader.seek(at);
                Ok(())
            },
            Action::Begin => {
                self.state = ParserState::ParsingSegments;
                Ok(())
            },
            Action::Finish => {
                if self.image.is_none() {
                    return Err(DecodeError { kind: ErrorKind::UnsupportedEncoding, offset: at });
                }
                self.state = ParserState::Done;
                Ok(())
            },
            action => {
                let payload = match self.payload() {
                    Err(kind) => {
                        return Err(DecodeError { kind, offset: at });
                    },
                    Ok(payload) => payload,
                };
                match self.apply(action, payload, at) {
                    Err(kind) => Err(DecodeError { kind, offset: at }),
                    Ok(_) => Ok(()),
                }
            },
        }
    }

    /// One step inside a scan.
    fn step_scan(&mut self) -> (r: Result<(), DecodeError>)
        ensures
            final(self).bytes() == old(self).bytes(),
            match scan_step(old(self).bytes(), old(self)@) {
                Ok(next) => r is Ok && final(self)@ == next,
                Err(failure) => r matches Err(e) && reports(e, failure),
            },
    {
        let (samples, end) = match decode_scan(
            &self.model,
            &self.scan,
            self.reader.data(),
            self.reader.position(),
        ) {
            Err(kind) => {
                return Err(DecodeError { kind, offset: self.marker });
            },
            Ok(pair) => pair,
        };
        let image = match assemble(self.model.frame().unwrap(), &samples) {
            Err(kind) => {
                return Err(DecodeError { kind, offset: self.marker });
            },
            Ok(image) => image,
        };
        self.image = Some(image);
        let _ = self.reader.seek(end);
        self.state = ParserState::ParsingSegments;
        Ok(())
    }

    /// Takes one step: at a marker, the marker is read and acted on; inside
    /// a scan, the scan is decoded; at the end of the image nothing
    /// happens. After a failure the session is of no further use.
    pub fn step(&mut self) -> (r: Result<(), DecodeError>)
        ensures
            final(self).bytes() == old(self).bytes(),
            match step_spec(old(self).bytes(), old(self)@) {
                Ok(next) => r is Ok && final(self)@ == next,
                Err(failure) => r matches Err(e) && reports(e, failure),
            },
    {
        match self.state {
            ParserState::Done => Ok(()),
            ParserState::InScan => self.step_scan(),
            _ => self.step_marker(),
        }
    }

    /// Runs the session to its end and hands out the image.
    pub fn run(self) -> (r: Result<Image, DecodeError>)
        ensures
            match run_spec(self.bytes(), self@) {
                Ok(image) => r matches Ok(i) && i@ == image,
                Err(failure) => r matches Err(e) && reports(e, failure),
            },
    {
        let mut session = self;
        loop
            invariant
                session.bytes() == self.bytes(),
                run_spec(session.bytes(), session@) == run_spec(self.bytes(), self@),
            decreases
                    session.bytes().len() - session@.pos,
                    (if session@.state == ParserState::InScan {
                        1int
                    } else {
                        0int
                    }),
        {
            let at = session.position();
            if session.state == ParserState::Done {
                return match session.image {
                    Some(image) => Ok(image),
                    None => Err(DecodeError { kind: ErrorKind::UnsupportedEncoding, offset: at }),
                };
            }
            proof {
                lemma_step_progress(session.bytes(), session@);
            }
            match session.step() {
                Err(e) => {
                    return Err(e);
                },
                Ok(_) => {},
            }
        }
    }
}

impl Image {
    /// Decodes a baseline JPEG stream into an image.
    pub fn from_jpeg(data: &[u8]) -> (r: Result<Image, DecodeError>)
        ensures
            match decode_spec(data@) {
                Ok(image) => r matches Ok(i) && i@ == image,
                Err(failure) => r matches Err(e) && reports(e, failure),
            },
    {
        Decoder::new(data).run()
    }
}

} // verus!
