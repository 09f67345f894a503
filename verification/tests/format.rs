use lib::format::{FieldTag, FileHeader, FormatError, FIELD_ORDER, FORMAT_VERSION, HEADER_LEN, MAGIC, RECORD_MARKER};

#[test]
fn header_roundtrip() {
    let h = FileHeader {
        version: FORMAT_VERSION,
        flags: 0,
        pin_sha: *b"abcdefghijklmnopqrst",
    };
    let encoded = h.encode();
    let decoded = FileHeader::decode(&encoded).unwrap();
    assert_eq!(h, decoded);
}

#[test]
fn rejects_bad_magic() {
    let mut bytes = [0u8; HEADER_LEN];
    bytes[0..4].copy_from_slice(b"XXXX");
    assert!(matches!(
        FileHeader::decode(&bytes),
        Err(FormatError::BadMagic { .. })
    ));
}

#[test]
fn field_tag_roundtrip() {
    for tag in FIELD_ORDER {
        assert_eq!(FieldTag::from_u32(tag.to_u32()), Some(tag));
    }
    assert_eq!(FieldTag::from_u32(99), None);
}

#[test]
fn magic_and_marker_spell_their_names() {
    assert_eq!(MAGIC, u32::from_le_bytes(*b"LCRP"));
    assert_eq!(RECORD_MARKER, u32::from_le_bytes(*b"REC1"));
}

#[test]
fn header_bytes_layout() {
    let h = FileHeader {
        version: 0x0201,
        flags: 0x0403,
        pin_sha: [7u8; 20],
    };
    let e = h.encode();
    assert_eq!(&e[0..4], b"LCRP");
    assert_eq!(&e[4..8], &[0x01, 0x02, 0x03, 0x04]);
    assert_eq!(&e[8..28], &[7u8; 20]);
    assert_eq!(&e[28..32], &[0u8; 4]);
}

#[test]
fn rejects_unsupported_version() {
    let h = FileHeader {
        version: 2,
        flags: 5,
        pin_sha: [0u8; 20],
    };
    match FileHeader::decode(&h.encode()) {
        Err(FormatError::UnsupportedVersion { found }) => assert_eq!(found, 2),
        other => panic!("expected UnsupportedVersion, got {other:?}"),
    }
}

#[test]
fn bad_magic_reports_what_was_found() {
    let mut bytes = [0u8; HEADER_LEN];
    bytes[0..4].copy_from_slice(b"XXXX");
    match FileHeader::decode(&bytes) {
        Err(FormatError::BadMagic { found }) => assert_eq!(found, u32::from_le_bytes(*b"XXXX")),
        other => panic!("expected BadMagic, got {other:?}"),
    }
}

#[test]
fn field_tag_numbers() {
    assert_eq!(FieldTag::Input.to_u32(), 1);
    assert_eq!(FieldTag::StateIn.to_u32(), 2);
    assert_eq!(FieldTag::Output.to_u32(), 3);
    assert_eq!(FieldTag::StateOut.to_u32(), 4);
    assert_eq!(FieldTag::MessageDelta.to_u32(), 5);
    assert_eq!(FieldTag::from_u32(0), None);
    assert_eq!(FieldTag::from_u32(6), None);
}

#[test]
fn format_error_messages() {
    assert_eq!(FormatError::BadMagic { found: 0x5858_5858 }.message(), "bad file magic: 0x58585858");
    assert_eq!(
        FormatError::UnsupportedVersion { found: 2 }.message(),
        "unsupported corpus format version: 2"
    );
    assert_eq!(FormatError::BadRecordMarker { found: 0 }.message(), "bad record marker: 0x0");
    assert_eq!(FormatError::UnknownFieldTag { found: 99 }.message(), "unknown field tag: 99");
    assert_eq!(
        FormatError::UnexpectedFieldOrder {
            expected: FieldTag::Input,
            found: FieldTag::Output
        }
        .message(),
        "expected field Input, found Output"
    );
    assert_eq!(FormatError::Truncated.message(), "corpus file truncated");
}

#[test]
fn hex_of_pin() {
    assert_eq!(lib::text::hex_bytes_string(&[0x00, 0x0f, 0xa5, 0xff]), "000fa5ff");
    assert_eq!(lib::text::hex_string(0x5052_434c), "5052434c");
}
