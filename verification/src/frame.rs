//! The frame header, which gives the image's geometry and components, and
//! the scan header, which assigns Huffman tables to the components.
use crate::error::ErrorKind;
use crate::reader::be16;
use vstd::prelude::*;

verus! {

/// One colour component of the frame.
#[derive(Clone, Copy, Debug, PartialEq, Eq, Structural)]
pub struct Component {
    /// The identifier by which scans select the component.
    pub id: u8,
    /// The horizontal sampling factor.
    pub h_factor: u8,
    /// The vertical sampling factor.
    pub v_factor: u8,
    /// The slot of the quantization table that the component uses.
    pub qt_index: u8,
}

impl Component {
    /// Both sampling factors lie between 1 and 4 and the quantization slot
    /// is one of the four.
    pub open spec fn wf(self) -> bool {
        &&& 1 <= self.h_factor <= 4
        &&& 1 <= self.v_factor <= 4
        &&& self.qt_index < 4
    }

    /// The component described by the three bytes at `at`: identifier,
    /// sampling factors (horizontal in the high half), quantization slot.
    pub open spec fn at(s: Seq<u8>, at: int) -> Component {
        Component {
            id: s[at],
            h_factor: s[at + 1] / 16,
            v_factor: s[at + 1] % 16,
            qt_index: s[at + 2],
        }
    }
}

/// A frame header: sample precision, dimensions in pixels, and components.
pub struct FrameSpec {
    pub precision: nat,
    pub width: nat,
    pub height: nat,
    pub components: Seq<Component>,
}

impl FrameSpec {
    /// Samples have 8 bits, both dimensions are positive, and there are one
    /// to four well-formed components.
    pub open spec fn wf(self) -> bool {
        &&& self.precision == 8
        &&& 0 < self.width <= 0xFFFF
        &&& 0 < self.height <= 0xFFFF
        &&& 1 <= self.components.len() <= 4
        &&& forall|i: int| 0 <= i < self.components.len() ==> (#[trigger] self.components[i]).wf()
    }
}

/// The components that a frame segment's payload lists.
pub open spec fn sof_components(payload: Seq<u8>) -> Seq<Component> {
    Seq::new(payload[5] as nat, |i: int| Component::at(payload, 6 + 3 * i))
}

/// The frame that a baseline frame segment's payload describes. The payload
/// is malformed if it is too short for its fixed fields, names no component
/// or more than four, has a length other than its component count calls
/// for, gives a zero dimension, or holds a component with a sampling factor
/// outside 1 to 4 or a quantization slot above 3. A precision other than 8
/// bits is unsupported.
pub open spec fn parse_sof_spec(payload: Seq<u8>) -> Result<FrameSpec, ErrorKind> {
    if payload.len() < 6 {
        Err(ErrorKind::MalformedSegment)
    } else if payload[5] < 1 || payload[5] > 4 || payload.len() != 6 + 3 * payload[5] {
        Err(ErrorKind::MalformedSegment)
    } else if payload[0] != 8 {
        Err(ErrorKind::UnsupportedEncoding)
    } else {
        let frame = FrameSpec {
            precision: 8,
            height: be16(payload[1], payload[2]) as nat,
            width: be16(payload[3], payload[4]) as nat,
            components: sof_components(payload),
        };
        if frame.wf() {
            Ok(frame)
        } else {
            Err(ErrorKind::MalformedSegment)
        }
    }
}

/// A frame header.
#[derive(Debug)]
pub struct FrameHeader {
    width: u16,
    height: u16,
    components: Vec<Component>,
}

impl View for FrameHeader {
    type V = FrameSpec;

    closed spec fn view(&self) -> FrameSpec {
        FrameSpec {
            precision: 8,
            width: self.width as nat,
            height: self.height as nat,
            components: self.components@,
        }
    }
}

impl FrameHeader {
    #[verifier::type_invariant]
    spec fn inv(self) -> bool {
        self@.wf()
    }

    /// A frame of the given size with the given components, or `None` if
    /// that would not be a well-formed frame.
    pub fn new(width: u16, height: u16, components: Vec<Component>) -> (r: Option<FrameHeader>)
        ensures
            r is Some <==> (FrameSpec {
                precision: 8,
                width: width as nat,
                height: height as nat,
                components: components@,
            }).wf(),
            r matches Some(f) ==> f@ == (FrameSpec {
                precision: 8,
                width: width as nat,
                height: height as nat,
                components: components@,
            }),
    {
        if width == 0 || height == 0 || components.len() < 1 || components.len() > 4 {
            return None;
        }
        let mut i: usize = 0;
        while i < components.len()
            invariant
                i <= components@.len(),
                forall|j: int| 0 <= j < i ==> (#[trigger] components@[j]).wf(),
            decreases components@.len() - i,
        {
            let c = components[i];
            if c.h_factor < 1 || c.h_factor > 4 || c.v_factor < 1 || c.v_factor > 4 || c.qt_index
                >= 4 {
                assert(!components@[i as int].wf());
                return None;
            }
            i += 1;
        }
        Some(FrameHeader { width, height, components })
    }

    /// The number of bits per sample, which is always 8.
    pub fn precision(&self) -> (p: u8)
        ensures
            p == self@.precision,
            p == 8,
    {
        8
    }

    /// The width in pixels.
    pub fn width(&self) -> (w: u16)
        ensures
            w == self@.width,
            self@.wf(),
    {
        proof {
            use_type_invariant(self);
        }
        self.width
    }

    /// The height in pixels.
    pub fn height(&self) -> (h: u16)
        ensures
            h == self@.height,
            self@.wf(),
    {
        proof {
            use_type_invariant(self);
        }
        self.height
    }

    /// The components in the order of the frame segment.
    pub fn components(&self) -> (c: &Vec<Component>)
        ensures
            c@ == self@.components,
            self@.wf(),
    {
        proof {
            use_type_invariant(self);
        }
        &self.components
    }
}

/// Parses the payload of a baseline frame segment.
pub fn parse_sof(payload: &[u8]) -> (r: Result<FrameHeader, ErrorKind>)
    ensures
        match parse_sof_spec(payload@) {
            Ok(frame) => r matches Ok(f) && f@ == frame,
            Err(e) => r matches Err(f) && f == e,
        },
{
    let len = payload.len();
    if len < 6 {
        return Err(ErrorKind::MalformedSegment);
    }
    let count = payload[5] as usize;
    if count < 1 || count > 4 || len != 6 + 3 * count {
        return Err(ErrorKind::MalformedSegment);
    }
    if payload[0] != 8 {
        return Err(ErrorKind::UnsupportedEncoding);
    }
    let height: u16 = payload[1] as u16 * 256 + payload[2] as u16;
    let width: u16 = payload[3] as u16 * 256 + payload[4] as u16;
    let mut components: Vec<Component> = Vec::new();
    let mut i: usize = 0;
    while i < count
        invariant
            i <= count <= 4,
            len == payload@.len(),
            len == 6 + 3 * count,
            count == payload@[5],
            components@.len() == i,
            forall|j: int| 0 <= j < i ==> #[trigger] components@[j] == Component::at(payload@, 6 + 3 * j),
        decreases count - i,
    {
        let at = 6 + 3 * i;
        components.push(
            Component {
                id: payload[at],
                h_factor: payload[at + 1] / 16,
                v_factor: payload[at + 1] % 16,
                qt_index: payload[at + 2],
            },
        );
        i += 1;
    }
    proof {
        assert(components@ =~= sof_components(payload@));
    }
    match FrameHeader::new(width, height, components) {
        Some(frame) => Ok(frame),
        None => Err(ErrorKind::MalformedSegment),
    }
}

/// What a scan says of one component: which component it is and which
/// Huffman table slots code its DC and AC coefficients.
#[derive(Clone, Copy, Debug, PartialEq, Eq, Structural)]
pub struct ScanComponent {
    pub selector: u8,
    pub dc_table: u8,
    pub ac_table: u8,
}

impl ScanComponent {
    /// Both table slots are among the four.
    pub open spec fn wf(self) -> bool {
        self.dc_table < 4 && self.ac_table < 4
    }

    /// The scan component described by the two bytes at `at`: the selector,
    /// then the DC slot in the high half and the AC slot in the low half.
    pub open spec fn at(s: Seq<u8>, at: int) -> ScanComponent {
        ScanComponent { selector: s[at], dc_table: s[at + 1] / 16, ac_table: s[at + 1] % 16 }
    }
}

/// The components that a scan segment's payload lists.
pub open spec fn sos_components(payload: Seq<u8>) -> Seq<ScanComponent> {
    Seq::new(payload[0] as nat, |i: int| ScanComponent::at(payload, 1 + 2 * i))
}

/// Whether every component of a scan names valid table slots.
pub open spec fn scan_wf(components: Seq<ScanComponent>) -> bool {
    &&& 1 <= components.len() <= 4
    &&& forall|i: int| 0 <= i < components.len() ==> (#[trigger] components[i]).wf()
}

/// The component list of a scan segment's payload. The payload holds the
/// component count, two bytes per component, and three bytes on spectral
/// selection and approximation, which a baseline scan has no use for and
/// which are passed over. It is malformed if it is empty, names no
/// component or more than four, has a length other than its component count
/// calls for, or names a table slot above 3.
pub open spec fn parse_sos_spec(payload: Seq<u8>) -> Result<Seq<ScanComponent>, ErrorKind> {
    if payload.len() < 1 {
        Err(ErrorKind::MalformedSegment)
    } else if payload[0] < 1 || payload[0] > 4 || payload.len() != 4 + 2 * payload[0] {
        Err(ErrorKind::MalformedSegment)
    } else if !scan_wf(sos_components(payload)) {
        Err(ErrorKind::MalformedSegment)
    } else {
        Ok(sos_components(payload))
    }
}

/// Parses the payload of a scan segment into its component list.
pub fn parse_sos(payload: &[u8]) -> (r: Result<Vec<ScanComponent>, ErrorKind>)
    ensures
        match parse_sos_spec(payload@) {
            Ok(components) => r matches Ok(v) && v@ == components && scan_wf(v@),
            Err(e) => r matches Err(f) && f == e,
        },
{
    let len = payload.len();
    if len < 1 {
        return Err(ErrorKind::MalformedSegment);
    }
    let count = payload[0] as usize;
    if count < 1 || count > 4 || len != 4 + 2 * count {
        return Err(ErrorKind::MalformedSegment);
    }
    let mut components: Vec<ScanComponent> = Vec::new();
    let mut i: usize = 0;
    while i < count
        invariant
            i <= count <= 4,
            len == payload@.len(),
            len == 4 + 2 * count,
            count == payload@[0],
            components@.len() == i,
            forall|j: int|
                0 <= j < i ==> #[trigger] components@[j] == ScanComponent::at(payload@, 1 + 2 * j),
            forall|j: int| 0 <= j < i ==> (#[trigger] components@[j]).wf(),
        decreases count - i,
    {
        let at = 1 + 2 * i;
        let c = ScanComponent {
            selector: payload[at],
            dc_table: payload[at + 1] / 16,
            ac_table: payload[at + 1] % 16,
        };
        if c.dc_table >= 4 || c.ac_table >= 4 {
            proof {
                assert(sos_components(payload@)[i as int] == c);
                assert(!sos_components(payload@)[i as int].wf());
            }
            return Err(ErrorKind::MalformedSegment);
        }
        components.push(c);
        i += 1;
    }
    proof {
        assert(components@ =~= sos_components(payload@));
    }
    Ok(components)
}

} // verus!
