use baseline_jpeg::error::ErrorKind;
use baseline_jpeg::frame::{parse_sof, parse_sos, Component, FrameHeader, ScanComponent};

fn colour_frame() -> Vec<u8> {
    vec![8, 0x01, 0x02, 0x03, 0x04, 3, 1, 0x21, 0, 2, 0x11, 1, 3, 0x14, 3]
}

#[test]
fn frame_header_fields_are_read() {
    let frame = parse_sof(&colour_frame()).unwrap();
    assert_eq!(frame.precision(), 8);
    assert_eq!(frame.height(), 0x0102);
    assert_eq!(frame.width(), 0x0304);
    assert_eq!(
        frame.components(),
        &vec![
            Component { id: 1, h_factor: 2, v_factor: 1, qt_index: 0 },
            Component { id: 2, h_factor: 1, v_factor: 1, qt_index: 1 },
            Component { id: 3, h_factor: 1, v_factor: 4, qt_index: 3 },
        ]
    );
}

#[test]
fn frame_with_one_and_with_four_components() {
    let frame = parse_sof(&[8, 0, 1, 0, 1, 1, 9, 0x11, 0]).unwrap();
    assert_eq!(frame.components().len(), 1);
    let payload = [8, 0, 1, 0, 1, 4, 1, 0x11, 0, 2, 0x11, 0, 3, 0x11, 0, 4, 0x11, 0];
    assert_eq!(parse_sof(&payload).unwrap().components().len(), 4);
}

#[test]
fn frame_with_other_precision_is_unsupported() {
    let mut payload = colour_frame();
    payload[0] = 12;
    assert_eq!(parse_sof(&payload).err(), Some(ErrorKind::UnsupportedEncoding));
    payload[0] = 0;
    assert_eq!(parse_sof(&payload).err(), Some(ErrorKind::UnsupportedEncoding));
}

#[test]
fn frame_with_bad_component_count_is_malformed() {
    assert_eq!(parse_sof(&[8, 0, 1, 0, 1, 0]).err(), Some(ErrorKind::MalformedSegment));
    let mut payload = vec![8, 0, 1, 0, 1, 5];
    for id in 0..5 {
        payload.extend([id, 0x11, 0]);
    }
    assert_eq!(parse_sof(&payload).err(), Some(ErrorKind::MalformedSegment));
}

#[test]
fn frame_whose_length_disagrees_with_its_count_is_malformed() {
    let payload = colour_frame();
    assert_eq!(parse_sof(&payload[..14]).err(), Some(ErrorKind::MalformedSegment));
    assert_eq!(parse_sof(&payload[..12]).err(), Some(ErrorKind::MalformedSegment));
    assert_eq!(parse_sof(&payload[..5]).err(), Some(ErrorKind::MalformedSegment));
    assert_eq!(parse_sof(&[]).err(), Some(ErrorKind::MalformedSegment));
    let mut longer = payload.clone();
    longer.push(0);
    assert_eq!(parse_sof(&longer).err(), Some(ErrorKind::MalformedSegment));
}

#[test]
fn malformed_length_is_found_before_precision() {
    let mut payload = colour_frame();
    payload[0] = 12;
    payload.pop();
    assert_eq!(parse_sof(&payload).err(), Some(ErrorKind::MalformedSegment));
}

#[test]
fn frame_with_a_zero_dimension_is_malformed() {
    let mut payload = colour_frame();
    payload[1] = 0;
    payload[2] = 0;
    assert_eq!(parse_sof(&payload).err(), Some(ErrorKind::MalformedSegment));
    let mut payload = colour_frame();
    payload[3] = 0;
    payload[4] = 0;
    assert_eq!(parse_sof(&payload).err(), Some(ErrorKind::MalformedSegment));
}

#[test]
fn frame_with_bad_sampling_factors_is_malformed() {
    for factors in [0x01u8, 0x10, 0x51, 0x15, 0x00, 0xFF] {
        let mut payload = colour_frame();
        payload[7] = factors;
        assert_eq!(parse_sof(&payload).err(), Some(ErrorKind::MalformedSegment));
    }
    for factors in [0x11u8, 0x44, 0x14, 0x41, 0x23] {
        let mut payload = colour_frame();
        payload[7] = factors;
        assert!(parse_sof(&payload).is_ok());
    }
}

#[test]
fn frame_with_bad_quantization_slot_is_malformed() {
    let mut payload = colour_frame();
    payload[14] = 4;
    assert_eq!(parse_sof(&payload).err(), Some(ErrorKind::MalformedSegment));
}

#[test]
fn largest_frame_is_accepted() {
    let frame = parse_sof(&[8, 0xFF, 0xFF, 0xFF, 0xFF, 1, 1, 0x11, 0]).unwrap();
    assert_eq!((frame.width(), frame.height()), (65535, 65535));
}

#[test]
fn new_frame_header_wants_valid_parts() {
    let good = Component { id: 1, h_factor: 1, v_factor: 1, qt_index: 0 };
    let bad = Component { id: 1, h_factor: 5, v_factor: 1, qt_index: 0 };
    assert!(FrameHeader::new(1, 1, vec![good]).is_some());
    assert!(FrameHeader::new(0, 1, vec![good]).is_none());
    assert!(FrameHeader::new(1, 0, vec![good]).is_none());
    assert!(FrameHeader::new(1, 1, vec![]).is_none());
    assert!(FrameHeader::new(1, 1, vec![good; 5]).is_none());
    assert!(FrameHeader::new(1, 1, vec![good, bad]).is_none());
    assert!(FrameHeader::new(1, 1, vec![good; 4]).is_some());
}

#[test]
fn scan_header_components_are_read() {
    let components = parse_sos(&[3, 1, 0x00, 2, 0x11, 3, 0x23, 0, 63, 0]).unwrap();
    assert_eq!(
        components,
        vec![
            ScanComponent { selector: 1, dc_table: 0, ac_table: 0 },
            ScanComponent { selector: 2, dc_table: 1, ac_table: 1 },
            ScanComponent { selector: 3, dc_table: 2, ac_table: 3 },
        ]
    );
}

#[test]
fn scan_header_ignores_spectral_bytes() {
    let components = parse_sos(&[1, 5, 0x31, 9, 9, 9]).unwrap();
    assert_eq!(components, vec![ScanComponent { selector: 5, dc_table: 3, ac_table: 1 }]);
}

#[test]
fn scan_header_with_bad_count_or_length_is_malformed() {
    assert_eq!(parse_sos(&[]).err(), Some(ErrorKind::MalformedSegment));
    assert_eq!(parse_sos(&[0, 0, 63, 0]).err(), Some(ErrorKind::MalformedSegment));
    assert_eq!(parse_sos(&[1, 1, 0x00, 0, 63]).err(), Some(ErrorKind::MalformedSegment));
    assert_eq!(parse_sos(&[1, 1, 0x00, 0, 63, 0, 0]).err(), Some(ErrorKind::MalformedSegment));
    assert_eq!(
        parse_sos(&[5, 1, 0, 2, 0, 3, 0, 4, 0, 5, 0, 0, 63, 0]).err(),
        Some(ErrorKind::MalformedSegment)
    );
}

#[test]
fn scan_header_with_bad_table_slot_is_malformed() {
    assert_eq!(parse_sos(&[1, 1, 0x40, 0, 63, 0]).err(), Some(ErrorKind::MalformedSegment));
    assert_eq!(parse_sos(&[1, 1, 0x04, 0, 63, 0]).err(), Some(ErrorKind::MalformedSegment));
    assert_eq!(
        parse_sos(&[2, 1, 0x00, 2, 0x0F, 0, 63, 0]).err(),
        Some(ErrorKind::MalformedSegment)
    );
}
