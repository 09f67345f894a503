use lib::format::{FileHeader, FormatError, FORMAT_VERSION, HEADER_LEN};
use lib::record::{walk_records, IoError, ReadError, Record, RecordReader, RecordWriter};

fn sample_header() -> FileHeader {
    FileHeader {
        version: FORMAT_VERSION,
        flags: 0,
        pin_sha: *b"abcdefghijklmnopqrst",
    }
}

fn read_all(mut r: RecordReader) -> Vec<Result<Record, ReadError>> {
    let mut out = Vec::new();
    while let Some(x) = r.next() {
        out.push(x);
    }
    out
}

#[test]
fn empty_file_roundtrip() {
    let w = RecordWriter::create(Vec::new(), &sample_header());
    let buf = w.finish();
    let r = RecordReader::open(&buf[..]).unwrap();
    assert_eq!(r.header, sample_header());
    assert_eq!(read_all(r).len(), 0);
}

#[test]
fn single_record_roundtrip() {
    let rec = Record {
        input: b"in".to_vec(),
        state_in: b"sin".to_vec(),
        output: b"out".to_vec(),
        state_out: b"sout".to_vec(),
        message_delta: b"".to_vec(),
    };
    let mut w = RecordWriter::create(Vec::new(), &sample_header());
    w.push(&rec);
    let buf = w.finish();
    let mut r = RecordReader::open(&buf[..]).unwrap();
    let got = r.next().unwrap().unwrap();
    assert_eq!(got, rec);
    assert!(r.next().is_none());
}

#[test]
fn many_records_roundtrip() {
    let recs: Vec<Record> = (0..32u32)
        .map(|i| Record {
            input: i.to_le_bytes().to_vec(),
            state_in: vec![i as u8; 7],
            output: vec![],
            state_out: vec![(i ^ 0xff) as u8; 3],
            message_delta: vec![1, 2, 3],
        })
        .collect();
    let mut w = RecordWriter::create(Vec::new(), &sample_header());
    for r in &recs {
        w.push(r);
    }
    let buf = w.finish();
    let reader = RecordReader::open(&buf[..]).unwrap();
    let read_back: Vec<Record> = read_all(reader).into_iter().map(|r| r.unwrap()).collect();
    assert_eq!(read_back, recs);
}

#[test]
fn file_roundtrip_buffered_io() {
    let recs: Vec<Record> = (0..16u32)
        .map(|i| Record {
            input: i.to_le_bytes().to_vec(),
            state_in: vec![i as u8; 13],
            output: vec![(i * 3) as u8; 5],
            state_out: vec![(i ^ 0xa5) as u8; 9],
            message_delta: if i % 4 == 0 { vec![0x55; 3] } else { vec![] },
        })
        .collect();
    let mut w = RecordWriter::create(Vec::new(), &sample_header());
    for r in &recs {
        w.push(r);
    }
    let buf = w.finish();
    let reader = RecordReader::open(&buf[..]).unwrap();
    assert_eq!(reader.header, sample_header());
    let got: Vec<Record> = read_all(reader).into_iter().map(|r| r.unwrap()).collect();
    assert_eq!(got, recs);
}

#[test]
fn rejects_bad_marker() {
    let mut w = RecordWriter::create(Vec::new(), &sample_header());
    w.push(&Record::default());
    let mut buf = w.finish();
    buf[HEADER_LEN] ^= 0xff;
    let mut r = RecordReader::open(&buf[..]).unwrap();
    match r.next().unwrap() {
        Err(ReadError::Format(FormatError::BadRecordMarker { .. })) => {}
        other => panic!("expected BadRecordMarker, got {other:?}"),
    }
}

#[test]
fn record_layout() {
    let rec = Record {
        input: vec![9],
        state_in: vec![],
        output: vec![],
        state_out: vec![],
        message_delta: vec![],
    };
    let mut w = RecordWriter::append(Vec::new());
    w.push(&rec);
    let buf = w.finish();
    assert_eq!(&buf[0..4], b"REC1");
    assert_eq!(u64::from_le_bytes(buf[4..12].try_into().unwrap()), 5 * 12 + 1);
    assert_eq!(u32::from_le_bytes(buf[12..16].try_into().unwrap()), 1);
    assert_eq!(u64::from_le_bytes(buf[16..24].try_into().unwrap()), 1);
    assert_eq!(buf[24], 9);
    assert_eq!(buf.len(), 12 + 5 * 12 + 1);
}

#[test]
fn short_header_is_eof() {
    match RecordReader::open(&[0u8; 10]) {
        Err(ReadError::Io(IoError::UnexpectedEof)) => {}
        Err(e) => panic!("expected UnexpectedEof, got {e:?}"),
        Ok(_) => panic!("expected UnexpectedEof"),
    }
}

#[test]
fn truncated_record_is_eof_then_end() {
    let mut w = RecordWriter::create(Vec::new(), &sample_header());
    w.push(&Record {
        input: vec![1, 2, 3],
        ..Record::default()
    });
    let mut buf = w.finish();
    buf.pop();
    let mut r = RecordReader::open(&buf[..]).unwrap();
    match r.next() {
        Some(Err(ReadError::Io(IoError::UnexpectedEof))) => {}
        other => panic!("expected UnexpectedEof, got {other:?}"),
    }
    assert!(r.next().is_none());
}

#[test]
fn unknown_field_tag() {
    let mut w = RecordWriter::create(Vec::new(), &sample_header());
    w.push(&Record::default());
    let mut buf = w.finish();
    buf[HEADER_LEN + 12] = 99;
    let mut r = RecordReader::open(&buf[..]).unwrap();
    match r.next() {
        Some(Err(ReadError::Format(FormatError::UnknownFieldTag { found: 99 }))) => {}
        other => panic!("expected UnknownFieldTag, got {other:?}"),
    }
}

#[test]
fn fields_out_of_order() {
    let mut w = RecordWriter::create(Vec::new(), &sample_header());
    w.push(&Record::default());
    let mut buf = w.finish();
    buf[HEADER_LEN + 12] = 3;
    let mut r = RecordReader::open(&buf[..]).unwrap();
    match r.next() {
        Some(Err(ReadError::Format(FormatError::UnexpectedFieldOrder { .. }))) => {}
        other => panic!("expected UnexpectedFieldOrder, got {other:?}"),
    }
}

#[test]
fn open_rejects_bad_magic() {
    let mut buf = RecordWriter::create(Vec::new(), &sample_header()).finish();
    buf[0] = b'X';
    match RecordReader::open(&buf[..]) {
        Err(ReadError::Format(FormatError::BadMagic { .. })) => {}
        Err(e) => panic!("expected BadMagic, got {e:?}"),
        Ok(_) => panic!("expected BadMagic"),
    }
}

#[test]
fn read_error_messages() {
    assert_eq!(
        ReadError::io(IoError::UnexpectedEof).message(),
        "corpus io error: failed to fill whole buffer"
    );
    assert_eq!(
        ReadError::Format(FormatError::UnknownFieldTag { found: 7 }).message(),
        "corpus format error: unknown field tag: 7"
    );
}

#[test]
fn oversized_records_do_not_fit() {
    assert!(Record::default().fits_total_len());
    assert!(Record {
        input: vec![0; 100],
        ..Record::default()
    }
    .fits_total_len());
}

#[test]
fn walk_stops_at_limit_end_or_error() {
    let mut w = RecordWriter::create(Vec::new(), &sample_header());
    for i in 0..5u8 {
        w.push(&Record { input: vec![i], ..Record::default() });
    }
    let buf = w.finish();

    let mut r = RecordReader::open(&buf[..]).unwrap();
    let (n, e) = walk_records(&mut r, None);
    assert_eq!(n, 5);
    assert!(e.is_none());

    let mut r = RecordReader::open(&buf[..]).unwrap();
    let (n, e) = walk_records(&mut r, Some(3));
    assert_eq!(n, 3);
    assert!(e.is_none());
    assert_eq!(r.next().unwrap().unwrap().input, vec![3u8]);

    let mut r = RecordReader::open(&buf[..]).unwrap();
    assert_eq!(walk_records(&mut r, Some(0)).0, 1);

    let mut cut = buf.clone();
    cut.truncate(buf.len() - 2);
    let mut r = RecordReader::open(&cut[..]).unwrap();
    let (n, e) = walk_records(&mut r, None);
    assert_eq!(n, 4);
    assert!(matches!(e, Some(ReadError::Io(IoError::UnexpectedEof))));
}
