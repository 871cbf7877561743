use baseline_jpeg::error::ErrorKind;
use baseline_jpeg::decoder::Decoder;
use baseline_jpeg::quant::{parse_dqt, write_dqt, QuantTable};

fn narrow_payload(id: u8, first: u8) -> Vec<u8> {
    let mut payload = vec![id];
    for k in 0..64u8 {
        payload.push(first.wrapping_add(k));
    }
    payload
}

fn wide_payload(id: u8, first: u16) -> Vec<u8> {
    let mut payload = vec![id];
    for k in 0..64u16 {
        let value = first + 257 * k;
        payload.push((value >> 8) as u8);
        payload.push((value & 0xFF) as u8);
    }
    payload
}

#[test]
fn one_table_of_byte_entries() {
    let tables = parse_dqt(&narrow_payload(0x01, 100)).unwrap();
    assert_eq!(tables.len(), 1);
    assert_eq!(tables[0].slot(), 1);
    assert!(!tables[0].is_wide());
    let values = tables[0].values();
    for k in 0..64 {
        assert_eq!(values[k], 100 + k as u16);
    }
}

#[test]
fn one_table_of_two_byte_entries() {
    let tables = parse_dqt(&wide_payload(0x12, 300)).unwrap();
    assert_eq!(tables.len(), 1);
    assert_eq!(tables[0].slot(), 2);
    assert!(tables[0].is_wide());
    let values = tables[0].values();
    assert_eq!(values[0], 300);
    assert_eq!(values[1], 557);
    assert_eq!(values[63], 300 + 257 * 63);
}

#[test]
fn several_tables_back_to_back() {
    let mut payload = narrow_payload(0x00, 1);
    payload.extend(wide_payload(0x13, 1000));
    payload.extend(narrow_payload(0x02, 50));
    let tables = parse_dqt(&payload).unwrap();
    assert_eq!(tables.len(), 3);
    assert_eq!(tables[0].slot(), 0);
    assert_eq!(tables[1].slot(), 3);
    assert_eq!(tables[2].slot(), 2);
    assert_eq!(tables[1].values()[2], 1514);
    assert_eq!(tables[2].values()[63], 113);
}

#[test]
fn empty_quantization_segment_defines_nothing() {
    assert_eq!(parse_dqt(&[]).unwrap().len(), 0);
}

#[test]
fn identifier_byte_is_masked() {
    let tables = parse_dqt(&narrow_payload(0x07, 1)).unwrap();
    assert_eq!(tables[0].slot(), 3);
    assert!(!tables[0].is_wide());
    let tables = parse_dqt(&narrow_payload(0x20, 1)).unwrap();
    assert_eq!(tables[0].slot(), 0);
    assert!(!tables[0].is_wide());
    let tables = parse_dqt(&wide_payload(0x35, 1)).unwrap();
    assert_eq!(tables[0].slot(), 1);
    assert!(tables[0].is_wide());
}

#[test]
fn table_with_fewer_than_64_entries_is_malformed() {
    let payload = narrow_payload(0x00, 1);
    assert_eq!(parse_dqt(&payload[..64]).err(), Some(ErrorKind::MalformedSegment));
    assert_eq!(parse_dqt(&payload[..1]).err(), Some(ErrorKind::MalformedSegment));
    assert_eq!(parse_dqt(&payload[..33]).err(), Some(ErrorKind::MalformedSegment));
    let payload = wide_payload(0x10, 1);
    assert_eq!(parse_dqt(&payload[..128]).err(), Some(ErrorKind::MalformedSegment));
    assert_eq!(parse_dqt(&payload[..65]).err(), Some(ErrorKind::MalformedSegment));
}

#[test]
fn broken_table_after_a_whole_one_is_malformed() {
    let mut payload = narrow_payload(0x00, 1);
    payload.extend(&narrow_payload(0x01, 1)[..40]);
    assert_eq!(parse_dqt(&payload).err(), Some(ErrorKind::MalformedSegment));
    let mut payload = narrow_payload(0x00, 1);
    payload.push(0x01);
    assert_eq!(parse_dqt(&payload).err(), Some(ErrorKind::MalformedSegment));
}

#[test]
fn new_table_wants_a_valid_slot_and_entry_width() {
    assert!(QuantTable::new(3, false, [255; 64]).is_some());
    assert!(QuantTable::new(4, false, [1; 64]).is_none());
    assert!(QuantTable::new(0, false, [256; 64]).is_none());
    assert!(QuantTable::new(0, true, [256; 64]).is_some());
    let mut values = [1u16; 64];
    values[63] = 1000;
    assert!(QuantTable::new(0, false, values).is_none());
    assert!(QuantTable::new(0, true, values).is_some());
}

#[test]
fn written_table_has_the_segment_layout() {
    let table = QuantTable::new(2, false, [7; 64]).unwrap();
    let mut out = vec![0xAA];
    table.write(&mut out);
    assert_eq!(out.len(), 66);
    assert_eq!(out[0], 0xAA);
    assert_eq!(out[1], 0x02);
    assert_eq!(&out[2..], &[7u8; 64]);
    let mut values = [0u16; 64];
    values[0] = 0x1234;
    values[1] = 0x00FF;
    let table = QuantTable::new(1, true, values).unwrap();
    let mut out = Vec::new();
    table.write(&mut out);
    assert_eq!(out.len(), 129);
    assert_eq!(&out[..5], &[0x11, 0x12, 0x34, 0x00, 0xFF]);
}

#[test]
fn written_tables_parse_back_to_themselves() {
    let mut first = [0u16; 64];
    let mut second = [0u16; 64];
    for k in 0..64 {
        first[k] = (k as u16 * 4) % 256;
        second[k] = 65535 - 1000 * k as u16;
    }
    let tables = vec![
        QuantTable::new(0, false, first).unwrap(),
        QuantTable::new(3, true, second).unwrap(),
        QuantTable::new(1, true, first).unwrap(),
    ];
    let mut payload = Vec::new();
    for table in tables.iter() {
        table.write(&mut payload);
    }
    let parsed = parse_dqt(&payload).unwrap();
    assert_eq!(parsed.len(), 3);
    for (got, want) in parsed.iter().zip(tables.iter()) {
        assert_eq!(got.slot(), want.slot());
        assert_eq!(got.is_wide(), want.is_wide());
        assert_eq!(got.values(), want.values());
    }
    let mut again = Vec::new();
    for table in parsed.iter() {
        table.write(&mut again);
    }
    assert_eq!(again, payload);
}

#[test]
fn written_segment_has_marker_length_and_payload() {
    let tables = vec![QuantTable::new(1, false, [3; 64]).unwrap()];
    let segment = write_dqt(&tables).unwrap();
    assert_eq!(segment.len(), 69);
    assert_eq!(&segment[..5], &[0xFF, 0xDB, 0x00, 0x43, 0x01]);
    assert_eq!(&segment[5..], &[3u8; 64]);
    let tables = vec![
        QuantTable::new(0, true, [0x0102; 64]).unwrap(),
        QuantTable::new(2, true, [0x0304; 64]).unwrap(),
    ];
    let segment = write_dqt(&tables).unwrap();
    assert_eq!(segment.len(), 4 + 2 * 129);
    assert_eq!(&segment[..7], &[0xFF, 0xDB, 0x01, 0x04, 0x10, 0x01, 0x02]);
    assert_eq!(&segment[133..136], &[0x12, 0x03, 0x04]);
    assert_eq!(write_dqt(&vec![]).unwrap(), vec![0xFF, 0xDB, 0x00, 0x02]);
}

#[test]
fn written_segment_is_read_back_by_a_session() {
    let mut first = [0u16; 64];
    let mut second = [0u16; 64];
    for k in 0..64 {
        first[k] = 255 - 3 * k as u16;
        second[k] = 40000 + 7 * k as u16;
    }
    let tables = vec![
        QuantTable::new(2, false, [1; 64]).unwrap(),
        QuantTable::new(0, false, first).unwrap(),
        QuantTable::new(3, true, second).unwrap(),
        QuantTable::new(2, true, second).unwrap(),
    ];
    let mut stream = vec![0xFF, 0xD8];
    stream.extend(write_dqt(&tables).unwrap());
    stream.extend([0xFF, 0xD9]);
    let mut session = Decoder::new(&stream);
    session.step().unwrap();
    session.step().unwrap();
    assert_eq!(session.position(), stream.len() - 2);
    assert_eq!(session.model().quant_table(0).unwrap().values(), &first);
    assert!(session.model().quant_table(1).is_none());
    assert_eq!(session.model().quant_table(2).unwrap().values(), &second);
    assert!(session.model().quant_table(2).unwrap().is_wide());
    assert_eq!(session.model().quant_table(3).unwrap().values(), &second);
}

#[test]
fn segment_is_written_only_if_its_length_fits() {
    let narrow = QuantTable::new(0, false, [1; 64]).unwrap();
    assert!(write_dqt(&vec![narrow; 1008]).is_some());
    assert!(write_dqt(&vec![narrow; 1009]).is_none());
    let wide = QuantTable::new(0, true, [1; 64]).unwrap();
    assert!(write_dqt(&vec![wide; 508]).is_some());
    assert!(write_dqt(&vec![wide; 509]).is_none());
    let segment = write_dqt(&vec![wide; 508]).unwrap();
    assert_eq!(segment.len(), 65536);
    assert_eq!(&segment[2..4], &[0xFF, 0xFE]);
    assert_eq!(parse_dqt(&segment[4..]).unwrap().len(), 508);
}
