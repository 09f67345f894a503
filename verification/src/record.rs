//! Records of trace corpora, and their writer and reader over in-memory
//! bytes.
//!
//! A record is the marker `"REC1"`, the total length of its fields as a
//! little-endian `u64`, and its five fields in the order of `FIELD_ORDER`;
//! each field is its tag as a little-endian `u32`, its length as a
//! little-endian `u64`, and its bytes.
use vstd::prelude::*;

use vstd::string::*;

use crate::format::format_error_text;
use crate::bytes::{append_bytes, le_u32, le_u64, lemma_le_u32, lemma_le_u64, read_u32_le,
    read_u64_le, u32_to_le, u64_of, u64_to_le};
use crate::format::{
    field_at, header_bytes, u16_at, u32_at, FieldTag, FileHeader, FormatError, FORMAT_VERSION,
    HEADER_LEN, MAGIC, RECORD_MARKER,
};

verus! {

/// One captured call: its input, the state before, the output, the state
/// after and the messages it produced, each as opaque bytes.
#[derive(Debug, PartialEq, Eq, Default)]
pub struct Record {
    pub input: Vec<u8>,
    pub state_in: Vec<u8>,
    pub output: Vec<u8>,
    pub state_out: Vec<u8>,
    pub message_delta: Vec<u8>,
}

/// The failure of a read from the underlying bytes.
#[derive(Debug, PartialEq, Eq, Structural)]
pub enum IoError {
    /// The bytes ended before the read was complete.
    UnexpectedEof,
}

/// Why a record could not be read.
#[derive(Debug)]
pub enum ReadError {
    Io(IoError),
    Format(FormatError),
}

impl ReadError {
    /// The error for a failed read.
    pub fn io(e: IoError) -> (r: Self)
        ensures
            r == ReadError::Io(e),
    {
        ReadError::Io(e)
    }
}

/// The error for bytes that end too early.
pub open spec fn eof() -> ReadError {
    ReadError::Io(IoError::UnexpectedEof)
}

/// The payload of the field `tag` of `r`.
pub open spec fn field_of(r: Record, tag: FieldTag) -> Seq<u8> {
    match tag {
        FieldTag::Input => r.input@,
        FieldTag::StateIn => r.state_in@,
        FieldTag::Output => r.output@,
        FieldTag::StateOut => r.state_out@,
        FieldTag::MessageDelta => r.message_delta@,
    }
}

/// The payloads of `r` in the order of `FIELD_ORDER`.
pub open spec fn record_fields(r: Record) -> Seq<Seq<u8>> {
    seq![r.input@, r.state_in@, r.output@, r.state_out@, r.message_delta@]
}

/// The total length of the encodings of fields `k..` of `fs`.
pub open spec fn total_from(fs: Seq<Seq<u8>>, k: int) -> int
    decreases 5 - k,
{
    if k >= 5 || k < 0 {
        0
    } else {
        12 + fs[k].len() + total_from(fs, k + 1)
    }
}

/// The encoding of one field.
pub open spec fn encode_field(tag: FieldTag, payload: Seq<u8>) -> Seq<u8> {
    le_u32(tag.code()) + le_u64(payload.len() as u64) + payload
}

/// The encodings of fields `k..` of `fs`.
pub open spec fn fields_bytes(fs: Seq<Seq<u8>>, k: int) -> Seq<u8>
    decreases 5 - k,
{
    if k >= 5 || k < 0 {
        Seq::empty()
    } else {
        encode_field(field_at(k), fs[k]) + fields_bytes(fs, k + 1)
    }
}

/// The encoding of a record with payloads `fs`.
pub open spec fn record_bytes(fs: Seq<Seq<u8>>) -> Seq<u8> {
    le_u32(RECORD_MARKER) + le_u64(total_from(fs, 0) as u64) + fields_bytes(fs, 0)
}

/// The little-endian `u64` at `i`.
pub open spec fn u64_at(b: Seq<u8>, i: int) -> u64 {
    u64_of(b.subrange(i, i + 8))
}

/// The tag numbered `v` (`v` in `1..=5`).
pub open spec fn tag_numbered(v: u32) -> FieldTag {
    if v == 1 {
        FieldTag::Input
    } else if v == 2 {
        FieldTag::StateIn
    } else if v == 3 {
        FieldTag::Output
    } else if v == 4 {
        FieldTag::StateOut
    } else {
        FieldTag::MessageDelta
    }
}

/// Reads fields `k..` starting at `p`: their payloads and the position
/// after them, or the error and the position after the failed read (a read
/// past the end consumes the rest).
pub open spec fn parse_fields(s: Seq<u8>, p: int, k: int) -> Result<
    (Seq<Seq<u8>>, int),
    (ReadError, int),
>
    decreases 5 - k,
{
    if k >= 5 || k < 0 {
        Ok((Seq::empty(), p))
    } else if p + 4 > s.len() {
        Err((eof(), s.len() as int))
    } else {
        let raw = u32_at(s, p);
        if !(1 <= raw <= 5) {
            Err((ReadError::Format(FormatError::UnknownFieldTag { found: raw }), p + 4))
        } else if raw != field_at(k).code() {
            Err(
                (
                    ReadError::Format(
                        FormatError::UnexpectedFieldOrder {
                            expected: field_at(k),
                            found: tag_numbered(raw),
                        },
                    ),
                    p + 4,
                ),
            )
        } else if p + 12 > s.len() {
            Err((eof(), s.len() as int))
        } else {
            let len = u64_at(s, p + 4);
            if len > s.len() - (p + 12) {
                Err((eof(), s.len() as int))
            } else {
                match parse_fields(s, p + 12 + len, k + 1) {
                    Ok((rest, q)) => Ok((seq![s.subrange(p + 12, p + 12 + len)] + rest, q)),
                    Err(e) => Err(e),
                }
            }
        }
    }
}

/// Reads the record at `p`: `None` where fewer than four bytes remain;
/// with the position after the read.
pub open spec fn parse_record(s: Seq<u8>, p: int) -> (Option<Result<Seq<Seq<u8>>, ReadError>>, int) {
    if p + 4 > s.len() {
        (None, s.len() as int)
    } else {
        let marker = u32_at(s, p);
        if marker != RECORD_MARKER {
            (Some(Err(ReadError::Format(FormatError::BadRecordMarker { found: marker }))), p + 4)
        } else if p + 12 > s.len() {
            (Some(Err(eof())), s.len() as int)
        } else {
            match parse_fields(s, p + 12, 0) {
                Ok((fs, q)) => (Some(Ok(fs)), q),
                Err((e, q)) => (Some(Err(e)), q),
            }
        }
    }
}

/// The result of a read agrees with its description.
pub open spec fn read_agrees(
    r: Option<Result<Record, ReadError>>,
    d: Option<Result<Seq<Seq<u8>>, ReadError>>,
) -> bool {
    match (r, d) {
        (None, None) => true,
        (Some(Ok(rec)), Some(Ok(fs))) => record_fields(rec) == fs,
        (Some(Err(e1)), Some(Err(e2))) => e1 == e2,
        _ => false,
    }
}

impl Record {
    /// The payload of the field `tag`.
    pub fn field(&self, tag: FieldTag) -> (r: &[u8])
        ensures
            r@ == field_of(*self, tag),
    {
        match tag {
            FieldTag::Input => self.input.as_slice(),
            FieldTag::StateIn => self.state_in.as_slice(),
            FieldTag::Output => self.output.as_slice(),
            FieldTag::StateOut => self.state_out.as_slice(),
            FieldTag::MessageDelta => self.message_delta.as_slice(),
        }
    }

    /// Replaces the payload of the field `tag`.
    pub fn set_field(&mut self, tag: FieldTag, payload: Vec<u8>)
        ensures
            field_of(*final(self), tag) == payload@,
            forall|t: FieldTag| t != tag ==> field_of(*final(self), t) == field_of(*old(self), t),
    {
        match tag {
            FieldTag::Input => self.input = payload,
            FieldTag::StateIn => self.state_in = payload,
            FieldTag::Output => self.output = payload,
            FieldTag::StateOut => self.state_out = payload,
            FieldTag::MessageDelta => self.message_delta = payload,
        }
    }
}

/// The `k`-th field of a record.
pub fn field_order(k: usize) -> (t: FieldTag)
    requires
        k < 5,
    ensures
        t == field_at(k as int),
{
    if k == 0 {
        FieldTag::Input
    } else if k == 1 {
        FieldTag::StateIn
    } else if k == 2 {
        FieldTag::Output
    } else if k == 3 {
        FieldTag::StateOut
    } else {
        FieldTag::MessageDelta
    }
}

proof fn lemma_total_from_nonneg(fs: Seq<Seq<u8>>, k: int)
    ensures
        total_from(fs, k) >= 0,
    decreases 5 - k,
{
    if 0 <= k < 5 {
        lemma_total_from_nonneg(fs, k + 1);
    }
}

proof fn lemma_fields_of_record(r: Record, k: int)
    requires
        0 <= k < 5,
    ensures
        field_of(r, field_at(k)) == record_fields(r)[k],
{
}

/// Writes records to a growing byte buffer.
pub struct RecordWriter {
    inner: Vec<u8>,
}

impl RecordWriter {
    /// The bytes written so far.
    pub closed spec fn bytes(&self) -> Seq<u8> {
        self.inner@
    }

    /// A writer that appends to `inner`, after writing the header.
    pub fn create(inner: Vec<u8>, header: &FileHeader) -> (w: Self)
        ensures
            w.bytes() == inner@ + header_bytes(header.version, header.flags, header.pin_sha@),
    {
        let mut inner = inner;
        let h = header.encode();
        append_bytes(&mut inner, h.as_slice());
        RecordWriter { inner }
    }

    /// A writer that appends to `inner`, which already holds a header.
    pub fn append(inner: Vec<u8>) -> (w: Self)
        ensures
            w.bytes() == inner@,
    {
        RecordWriter { inner }
    }

    /// Writes one record.
    pub fn push(&mut self, record: &Record)
        requires
            total_from(record_fields(*record), 0) <= u64::MAX,
        ensures
            final(self).bytes() == old(self).bytes() + record_bytes(record_fields(*record)),
    {
        let ghost fs = record_fields(*record);
        let mut total_len: u64 = 0;
        let mut k: usize = 0;
        while k < 5
            invariant
                k <= 5,
                fs == record_fields(*record),
                total_from(fs, 0) <= u64::MAX,
                total_len + total_from(fs, k as int) == total_from(fs, 0),
            decreases 5 - k,
        {
            let tag = field_order(k);
            proof {
                lemma_fields_of_record(*record, k as int);
            }
            let len = record.field(tag).len();
            proof {
                lemma_total_from_nonneg(fs, k + 1);
                assert(len == fs[k as int].len());
            }
            total_len = total_len + 4 + 8 + len as u64;
            k = k + 1;
        }
        let marker = u32_to_le(RECORD_MARKER);
        append_bytes(&mut self.inner, &marker);
        let tl = u64_to_le(total_len);
        append_bytes(&mut self.inner, &tl);
        let ghost start = self.inner@;
        let mut k: usize = 0;
        while k < 5
            invariant
                k <= 5,
                fs == record_fields(*record),
                start + fields_bytes(fs, 0) == self.inner@ + fields_bytes(fs, k as int),
            decreases 5 - k,
        {
            let tag = field_order(k);
            proof {
                lemma_fields_of_record(*record, k as int);
            }
            let payload = record.field(tag);
            let ghost before = self.inner@;
            let t = u32_to_le(tag.to_u32());
            append_bytes(&mut self.inner, &t);
            let l = u64_to_le(payload.len() as u64);
            append_bytes(&mut self.inner, &l);
            append_bytes(&mut self.inner, payload);
            proof {
                let ef = encode_field(field_at(k as int), fs[k as int]);
                assert(payload@ == fs[k as int]);
                assert(self.inner@ =~= before + ef);
                assert(fields_bytes(fs, k as int) == ef + fields_bytes(fs, k + 1));
                assert(self.inner@ + fields_bytes(fs, k + 1) =~= before + fields_bytes(fs, k as int));
            }
            k = k + 1;
        }
        assert(fields_bytes(fs, 5) =~= Seq::<u8>::empty());
        assert(start =~= old(self).inner@ + le_u32(RECORD_MARKER) + le_u64(total_len));
        assert(self.inner@ =~= old(self).inner@ + record_bytes(fs));
    }

    /// Hands back the bytes written.
    pub fn finish(self) -> (r: Vec<u8>)
        ensures
            r@ == self.bytes(),
    {
        self.inner
    }
}

/// Reads the header and then the records of a corpus held in memory.
pub struct RecordReader {
    data: Vec<u8>,
    pos: usize,
    pub header: FileHeader,
}

impl RecordReader {
    /// The bytes being read.
    pub closed spec fn data(&self) -> Seq<u8> {
        self.data@
    }

    /// The position of the next read.
    pub closed spec fn pos(&self) -> int {
        self.pos as int
    }

    /// The header that was read.
    pub closed spec fn file_header(&self) -> FileHeader {
        self.header
    }

    /// The header that was read (the `header` field).
    pub fn header(&self) -> (h: &FileHeader)
        ensures
            *h == self.file_header(),
    {
        &self.header
    }

    /// Reads the header of `inner`: fails where `inner` has fewer than
    /// `HEADER_LEN` bytes, or as `FileHeader::decode` does.
    pub fn open(inner: &[u8]) -> (r: Result<Self, ReadError>)
        ensures
            inner@.len() < HEADER_LEN ==> r == Err::<Self, ReadError>(eof()),
            inner@.len() >= HEADER_LEN && u32_at(inner@, 0) != MAGIC ==> r == Err::<
                Self,
                ReadError,
            >(ReadError::Format(FormatError::BadMagic { found: u32_at(inner@, 0) })),
            inner@.len() >= HEADER_LEN && u32_at(inner@, 0) == MAGIC && u16_at(inner@, 4)
                != FORMAT_VERSION ==> r == Err::<Self, ReadError>(
                ReadError::Format(FormatError::UnsupportedVersion { found: u16_at(inner@, 4) }),
            ),
            inner@.len() >= HEADER_LEN && u32_at(inner@, 0) == MAGIC && u16_at(inner@, 4)
                == FORMAT_VERSION ==> (r matches Ok(rd) && rd.file_header().version == FORMAT_VERSION
                && rd.file_header().flags == u16_at(inner@, 6) && rd.file_header().pin_sha@ == inner@.subrange(
                8,
                28,
            ) && rd.data() == inner@ && rd.pos() == HEADER_LEN),
    {
        if inner.len() < HEADER_LEN {
            return Err(ReadError::io(IoError::UnexpectedEof));
        }
        let mut header_bytes = [0u8; HEADER_LEN];
        let mut i: usize = 0;
        while i < HEADER_LEN
            invariant
                i <= HEADER_LEN,
                inner@.len() >= HEADER_LEN,
                forall|j: int| 0 <= j < i ==> header_bytes@[j] == inner@[j],
            decreases HEADER_LEN - i,
        {
            header_bytes[i] = inner[i];
            i = i + 1;
        }
        assert(header_bytes@ =~= inner@.subrange(0, HEADER_LEN as int));
        match FileHeader::decode(&header_bytes) {
            Ok(header) => {
                let data = vstd::slice::slice_to_vec(inner);
                Ok(RecordReader { data, pos: HEADER_LEN, header })
            },
            Err(e) => Err(ReadError::Format(e)),
        }
    }

    /// Reads the next record: `None` at the end of the bytes (fewer than
    /// four bytes left), else the record or why it could not be read, as
    /// `parse_record` describes.
    pub fn next(&mut self) -> (r: Option<Result<Record, ReadError>>)
        ensures
            final(self).data() == old(self).data(),
            final(self).file_header() == old(self).file_header(),
            final(self).pos() == parse_record(old(self).data(), old(self).pos()).1,
            read_agrees(r, parse_record(old(self).data(), old(self).pos()).0),
    {
        let ghost s = self.data@;
        let ghost p0 = self.pos as int;
        let n = self.data.len();
        if self.pos > n || n - self.pos < 4 {
            self.pos = n;
            return None;
        }
        let b = self.data.as_slice();
        let marker = read_u32_le(b, self.pos);
        if marker != RECORD_MARKER {
            self.pos = self.pos + 4;
            return Some(Err(ReadError::Format(FormatError::BadRecordMarker { found: marker })));
        }
        if n - self.pos < 12 {
            self.pos = n;
            return Some(Err(ReadError::io(IoError::UnexpectedEof)));
        }
        let mut p = self.pos + 12;
        let mut record = Record {
            input: Vec::new(),
            state_in: Vec::new(),
            output: Vec::new(),
            state_out: Vec::new(),
            message_delta: Vec::new(),
        };
        let ghost mut acc: Seq<Seq<u8>> = Seq::empty();
        let mut k: usize = 0;
        while k < 5
            invariant
                k <= 5,
                b@ == s,
                self.data@ == s,
                s == old(self).data@,
                p0 == old(self).pos,
                u32_at(s, p0) == RECORD_MARKER,
                self.header == old(self).header,
                n == s.len(),
                p0 + 12 <= p <= n,
                acc.len() == k,
                forall|j: int| 0 <= j < k ==> record_fields(record)[j] == #[trigger] acc[j],
                parse_fields(s, p0 + 12, 0) == match parse_fields(s, p as int, k as int) {
                    Ok((rest, q)) => Ok((acc + rest, q)),
                    Err(e) => Err(e),
                },
            decreases 5 - k,
        {
            let expected = field_order(k);
            if n - p < 4 {
                self.pos = n;
                return Some(Err(ReadError::io(IoError::UnexpectedEof)));
            }
            let raw = read_u32_le(b, p);
            let tag = match FieldTag::from_u32(raw) {
                Some(t) => t,
                None => {
                    self.pos = p + 4;
                    return Some(Err(ReadError::Format(FormatError::UnknownFieldTag { found: raw })));
                },
            };
            if tag != expected {
                proof {
                    assert(tag == tag_numbered(raw));
                }
                self.pos = p + 4;
                return Some(
                    Err(
                        ReadError::Format(
                            FormatError::UnexpectedFieldOrder { expected, found: tag },
                        ),
                    ),
                );
            }
            if n - p < 12 {
                self.pos = n;
                return Some(Err(ReadError::io(IoError::UnexpectedEof)));
            }
            let len64 = read_u64_le(b, p + 4);
            if len64 > (n - (p + 12)) as u64 {
                self.pos = n;
                return Some(Err(ReadError::io(IoError::UnexpectedEof)));
            }
            let len = len64 as usize;
            let payload = vstd::slice::slice_to_vec(
                vstd::slice::slice_subrange(b, p + 12, p + 12 + len),
            );
            let ghost piece = payload@;
            proof {
                assert(u64_at(s, p + 4) == len64);
                assert(piece == s.subrange(p + 12, p + 12 + len));
            }
            record.set_field(tag, payload);
            proof {
                let old_acc = acc;
                acc = acc.push(piece);
                match parse_fields(s, (p + 12 + len) as int, k + 1) {
                    Ok((rest, q)) => {
                        assert(old_acc + (seq![piece] + rest) =~= acc + rest);
                    },
                    Err(e) => {},
                }
                assert forall|j: int| 0 <= j < k + 1 implies record_fields(record)[j]
                    == #[trigger] acc[j] by {
                    if j == k {
                        lemma_fields_of_record(record, j);
                    } else {
                        lemma_fields_of_record(record, j);
                        assert(field_at(j) != tag);
                    }
                }
            }
            p = p + 12 + len;
            k = k + 1;
        }
        proof {
            assert(record_fields(record) =~= acc);
        }
        self.pos = p;
        Some(Ok(record))
    }
}

/// A record's bytes read back at any position give back its payloads, and
/// the position just after them.
pub proof fn lemma_record_roundtrip(fs: Seq<Seq<u8>>, s: Seq<u8>, p: int)
    requires
        fs.len() == 5,
        total_from(fs, 0) <= u64::MAX,
        0 <= p,
        p + record_bytes(fs).len() <= s.len(),
        s.subrange(p, p + record_bytes(fs).len()) == record_bytes(fs),
    ensures
        parse_record(s, p) == (Some(Ok::<Seq<Seq<u8>>, ReadError>(fs)), p + record_bytes(fs).len()),
{
    let rb = record_bytes(fs);
    lemma_le_u32(RECORD_MARKER, 0, 0, 0, 0);
    assert(s[p] == rb[0] && s[p + 1] == rb[1] && s[p + 2] == rb[2] && s[p + 3] == rb[3]);
    assert(rb.subrange(0, 4) =~= le_u32(RECORD_MARKER));
    assert(u32_at(s, p) == RECORD_MARKER);
    assert(s.subrange(p + 12, p + rb.len()) =~= rb.subrange(12, rb.len() as int));
    assert(rb.subrange(12, rb.len() as int) =~= fields_bytes(fs, 0));
    lemma_fields_roundtrip(fs, s, p + 12, 0);
    assert(fs.skip(0) =~= fs);
}

proof fn lemma_fields_roundtrip(fs: Seq<Seq<u8>>, s: Seq<u8>, p: int, k: int)
    requires
        fs.len() == 5,
        0 <= k <= 5,
        0 <= p,
        p + fields_bytes(fs, k).len() <= s.len(),
        s.subrange(p, p + fields_bytes(fs, k).len()) == fields_bytes(fs, k),
        total_from(fs, k) <= u64::MAX,
    ensures
        parse_fields(s, p, k) == Ok::<(Seq<Seq<u8>>, int), (ReadError, int)>(
            (fs.skip(k), p + fields_bytes(fs, k).len()),
        ),
    decreases 5 - k,
{
    if k < 5 {
        let tag = field_at(k);
        let f = fs[k];
        let ef = encode_field(tag, f);
        let fb = fields_bytes(fs, k);
        assert(fb == ef + fields_bytes(fs, k + 1));
        lemma_total_from_nonneg(fs, k + 1);
        assert(f.len() <= total_from(fs, k));
        assert(s.subrange(p, p + ef.len()) =~= ef);
        lemma_field_head(tag, f, s, p);
        let q = p + 12 + f.len();
        let rest = fields_bytes(fs, k + 1);
        assert(s.subrange(q, q + rest.len()) =~= fb.subrange(ef.len() as int, fb.len() as int));
        assert(fb.subrange(ef.len() as int, fb.len() as int) =~= rest);
        lemma_fields_roundtrip(fs, s, q, k + 1);
        assert(seq![f] + fs.skip(k + 1) =~= fs.skip(k));
    } else {
        assert(fs.skip(5) =~= Seq::<Seq<u8>>::empty());
    }
}

proof fn lemma_field_head(tag: FieldTag, f: Seq<u8>, s: Seq<u8>, p: int)
    requires
        f.len() <= u64::MAX,
        0 <= p,
        p + encode_field(tag, f).len() <= s.len(),
        s.subrange(p, p + encode_field(tag, f).len()) == encode_field(tag, f),
    ensures
        encode_field(tag, f).len() == 12 + f.len(),
        u32_at(s, p) == tag.code(),
        u64_at(s, p + 4) == f.len(),
        s.subrange(p + 12, p + 12 + f.len()) == f,
{
    let ef = encode_field(tag, f);
    lemma_le_u32(tag.code(), 0, 0, 0, 0);
    lemma_le_u64(f.len() as u64, le_u64(f.len() as u64));
    assert(s[p] == ef[0] && s[p + 1] == ef[1] && s[p + 2] == ef[2] && s[p + 3] == ef[3]);
    assert(ef[0] == le_u32(tag.code())[0] && ef[1] == le_u32(tag.code())[1] && ef[2]
        == le_u32(tag.code())[2] && ef[3] == le_u32(tag.code())[3]);
    assert(s.subrange(p + 4, p + 12) =~= ef.subrange(4, 12));
    assert(ef.subrange(4, 12) =~= le_u64(f.len() as u64));
    assert(s.subrange(p + 12, p + 12 + f.len()) =~= ef.subrange(12, 12 + f.len() as int));
    assert(ef.subrange(12, 12 + f.len() as int) =~= f);
}

/// At the end of the bytes there is no record.
pub proof fn lemma_end_of_records(s: Seq<u8>)
    ensures
        parse_record(s, s.len() as int) == (None::<Result<Seq<Seq<u8>>, ReadError>>, s.len() as int),
{
}


impl Record {
    /// The total length of the record's fields fits in the `u64` that
    /// `RecordWriter::push` writes it as.
    pub fn fits_total_len(&self) -> (b: bool)
        ensures
            b == (total_from(record_fields(*self), 0) <= u64::MAX),
    {
        let ghost fs = record_fields(*self);
        let mut total: u64 = 0;
        let mut k: usize = 0;
        proof {
            lemma_total_from_nonneg(fs, 0);
        }
        while k < 5
            invariant
                k <= 5,
                fs == record_fields(*self),
                total + total_from(fs, k as int) == total_from(fs, 0),
            decreases 5 - k,
        {
            let tag = field_order(k);
            proof {
                lemma_fields_of_record(*self, k as int);
                lemma_total_from_nonneg(fs, k + 1);
            }
            let len = self.field(tag).len() as u64;
            if len > u64::MAX - 12 || total > u64::MAX - 12 - len {
                return false;
            }
            total = total + 12 + len;
            k = k + 1;
        }
        true
    }
}


/// The message that describes an I/O error.
pub open spec fn io_error_text(e: IoError) -> Seq<char> {
    match e {
        IoError::UnexpectedEof => "failed to fill whole buffer"@,
    }
}

impl IoError {
    /// The message that describes the error.
    pub fn message(&self) -> (s: &'static str)
        ensures
            s@ == io_error_text(*self),
    {
        match self {
            IoError::UnexpectedEof => "failed to fill whole buffer",
        }
    }
}

/// The message that describes a read error.
pub open spec fn read_error_text(e: ReadError) -> Seq<char> {
    match e {
        ReadError::Io(e) => "corpus io error: "@ + io_error_text(e),
        ReadError::Format(f) => "corpus format error: "@ + format_error_text(f),
    }
}

impl ReadError {
    /// The message that describes the error.
    pub fn message(&self) -> (s: String)
        ensures
            s@ == read_error_text(*self),
    {
        match self {
            ReadError::Io(e) => {
                let mut s = "corpus io error: ".to_owned();
                s.append(e.message());
                s
            },
            ReadError::Format(f) => {
                let mut s = "corpus format error: ".to_owned();
                s.append(f.message().as_str());
                s
            },
        }
    }
}


/// The encodings of records with payloads `rs`, one after another.
pub open spec fn records_bytes(rs: Seq<Seq<Seq<u8>>>) -> Seq<u8>
    decreases rs.len(),
{
    if rs.len() == 0 {
        Seq::empty()
    } else {
        record_bytes(rs[0]) + records_bytes(rs.drop_first())
    }
}

proof fn lemma_records_bytes_concat(a: Seq<Seq<Seq<u8>>>, b: Seq<Seq<Seq<u8>>>)
    ensures
        records_bytes(a + b) == records_bytes(a) + records_bytes(b),
    decreases a.len(),
{
    if a.len() == 0 {
        assert(a + b =~= b);
        assert(records_bytes(a) + records_bytes(b) =~= records_bytes(b));
    } else {
        lemma_records_bytes_concat(a.drop_first(), b);
        assert((a + b).drop_first() =~= a.drop_first() + b);
        assert(records_bytes(a + b) =~= records_bytes(a) + records_bytes(b));
    }
}

/// A corpus file read back gives what was written: the bytes of a header
/// and of records one after another start with that header's fields, then
/// each record is read back in turn, each read starting where the previous
/// one ended, and after the last one there is none.
pub proof fn lemma_file_roundtrip(
    version: u16,
    flags: u16,
    pin_sha: Seq<u8>,
    rs: Seq<Seq<Seq<u8>>>,
)
    requires
        pin_sha.len() == 20,
        forall|i: int| 0 <= i < rs.len() ==> (#[trigger] rs[i]).len() == 5 && total_from(rs[i], 0) <= u64::MAX,
    ensures
        ({
            let s = header_bytes(version, flags, pin_sha) + records_bytes(rs);
            &&& s.len() >= HEADER_LEN
            &&& u32_at(s, 0) == MAGIC
            &&& u16_at(s, 4) == version
            &&& u16_at(s, 6) == flags
            &&& s.subrange(8, 28) == pin_sha
            &&& forall|i: int|
                0 <= i < rs.len() ==> parse_record(
                    s,
                    HEADER_LEN + records_bytes(#[trigger] rs.take(i)).len(),
                ) == (
                    Some(Ok::<Seq<Seq<u8>>, ReadError>(rs[i])),
                    HEADER_LEN + records_bytes(rs.take(i + 1)).len(),
                )
            &&& parse_record(s, s.len() as int) == (
                None::<Result<Seq<Seq<u8>>, ReadError>>,
                s.len() as int,
            )
        }),
{
    let hb = header_bytes(version, flags, pin_sha);
    let s = hb + records_bytes(rs);
    crate::format::lemma_header_roundtrip(version, flags, pin_sha);
    assert(s.subrange(0, 4) =~= hb.subrange(0, 4));
    assert(s[0] == hb[0] && s[1] == hb[1] && s[2] == hb[2] && s[3] == hb[3]);
    assert(s[4] == hb[4] && s[5] == hb[5] && s[6] == hb[6] && s[7] == hb[7]);
    assert(s.subrange(8, 28) =~= hb.subrange(8, 28));
    assert forall|i: int| 0 <= i < rs.len() implies parse_record(
        s,
        HEADER_LEN + records_bytes(#[trigger] rs.take(i)).len(),
    ) == (
        Some(Ok::<Seq<Seq<u8>>, ReadError>(rs[i])),
        HEADER_LEN + records_bytes(rs.take(i + 1)).len(),
    ) by {
        lemma_record_in_stream(hb, rs, i);
    }
}

proof fn lemma_split_stream(rs: Seq<Seq<Seq<u8>>>, i: int)
    requires
        0 <= i < rs.len(),
    ensures
        records_bytes(rs) == records_bytes(rs.take(i)) + record_bytes(rs[i]) + records_bytes(
            rs.skip(i + 1),
        ),
        records_bytes(rs.take(i + 1)) == records_bytes(rs.take(i)) + record_bytes(rs[i]),
{
    let pre = rs.take(i);
    let one = seq![rs[i]];
    let post = rs.skip(i + 1);
    assert(rs =~= pre + one + post);
    assert(rs.take(i + 1) =~= pre + one);
    lemma_records_bytes_concat(pre + one, post);
    lemma_records_bytes_concat(pre, one);
    assert(one.drop_first() =~= Seq::<Seq<Seq<u8>>>::empty());
    assert(records_bytes(one.drop_first()) =~= Seq::<u8>::empty());
    assert(records_bytes(one) =~= record_bytes(rs[i]));
}

#[verifier::spinoff_prover]
proof fn lemma_record_in_stream(hb: Seq<u8>, rs: Seq<Seq<Seq<u8>>>, i: int)
    requires
        hb.len() == HEADER_LEN,
        0 <= i < rs.len(),
        rs[i].len() == 5,
        total_from(rs[i], 0) <= u64::MAX,
    ensures
        parse_record(hb + records_bytes(rs), HEADER_LEN + records_bytes(rs.take(i)).len()) == (
            Some(Ok::<Seq<Seq<u8>>, ReadError>(rs[i])),
            HEADER_LEN + records_bytes(rs.take(i + 1)).len(),
        ),
{
    let s = hb + records_bytes(rs);
    let pre = rs.take(i);
    let one = seq![rs[i]];
    let post = rs.skip(i + 1);
    let a = records_bytes(pre);
    let b = record_bytes(rs[i]);
    let c = records_bytes(post);
    lemma_split_stream(rs, i);
    assert(records_bytes(rs) == a + b + c);
    assert(records_bytes(rs.take(i + 1)) == a + b);
    let p = HEADER_LEN + a.len();
    assert(s == hb + (a + b + c));
    assert(s.subrange(p, p + b.len()) =~= b);
    lemma_record_roundtrip(rs[i], s, p);
}


/// Reading the fields of a record moves forward, and a complete read ends
/// within the bytes.
pub proof fn lemma_parse_fields_advances(s: Seq<u8>, p: int, k: int)
    requires
        0 <= p <= s.len(),
    ensures
        match parse_fields(s, p, k) {
            Ok((_, q)) => p <= q <= s.len(),
            Err((_, q)) => p <= q,
        },
    decreases 5 - k,
{
    if 0 <= k < 5 && p + 12 <= s.len() {
        let len = u64_at(s, p + 4);
        if len <= s.len() - (p + 12) {
            lemma_parse_fields_advances(s, p + 12 + len, k + 1);
        }
    }
}

/// Reading a record moves forward; a complete read ends within the bytes.
pub proof fn lemma_parse_record_advances(s: Seq<u8>, p: int)
    requires
        0 <= p,
        parse_record(s, p).0 is Some,
    ensures
        p < parse_record(s, p).1,
        parse_record(s, p).0 matches Some(Ok(_)) ==> parse_record(s, p).1 <= s.len(),
{
    if p + 12 <= s.len() && u32_at(s, p) == RECORD_MARKER {
        lemma_parse_fields_advances(s, p + 12, 0);
    }
}

/// Walking the records of `s` from `p`, `count` already walked: stops at
/// the end of the records, at the first error, or once `limit` records are
/// walked. Gives the number walked, the error if one stopped the walk, and
/// the position reached.
pub open spec fn records_walked(s: Seq<u8>, p: int, count: nat, limit: Option<usize>) -> (
    nat,
    Option<ReadError>,
    int,
)
    decreases (if 0 <= p <= s.len() {
        s.len() - p
    } else {
        0
    }),
{
    let (r, q) = parse_record(s, p);
    match r {
        None => (count, None, q),
        Some(Err(e)) => (count, Some(e), q),
        Some(Ok(_)) => if p < 0 {
            (count + 1, None, q)
        } else if limit matches Some(n) && count + 1 >= n {
            (count + 1, None, q)
        } else {
            proof {
                lemma_parse_record_advances(s, p);
            }
            records_walked(s, q, count + 1, limit)
        },
    }
}

/// Reads records until they end, one fails, or `limit` have been read;
/// gives how many were read and the error that stopped the reading.
pub fn walk_records(reader: &mut RecordReader, limit: Option<usize>) -> (r: (usize, Option<ReadError>))
    ensures
        final(reader).data() == old(reader).data(),
        final(reader).file_header() == old(reader).file_header(),
        r.0 == records_walked(old(reader).data(), old(reader).pos(), 0, limit).0,
        r.1 == records_walked(old(reader).data(), old(reader).pos(), 0, limit).1,
        final(reader).pos() == records_walked(old(reader).data(), old(reader).pos(), 0, limit).2,
{
    let ghost s = reader.data@;
    let ghost p0 = reader.pos as int;
    let ghost target = records_walked(s, p0, 0, limit);
    let mut count: usize = 0;
    loop
        invariant
            reader.data@ == s,
            reader.header == old(reader).header,
            s == old(reader).data@,
            p0 == old(reader).pos,
            target == records_walked(old(reader).data(), old(reader).pos(), 0, limit),
            p0 <= reader.pos,
            count <= reader.pos - p0,
            records_walked(s, reader.pos as int, count as nat, limit) == target,
        decreases (if reader.pos <= s.len() {
            s.len() - reader.pos
        } else {
            0
        }),
    {
        let ghost before = reader.pos as int;
        let x = reader.next();
        proof {
            if parse_record(s, before).0 is Some {
                lemma_parse_record_advances(s, before);
            }
        }
        match x {
            None => {
                return (count, None);
            },
            Some(Err(e)) => {
                return (count, Some(e));
            },
            Some(Ok(_)) => {
                count = count + 1;
                match limit {
                    Some(n) => {
                        if count >= n {
                            return (count, None);
                        }
                    },
                    None => {},
                }
            },
        }
    }
}


/// A walk whose next read fails stops there and reports that failure,
/// whatever kind it is, with nothing more walked.
pub proof fn lemma_walk_reports_failure(
    s: Seq<u8>,
    p: int,
    count: nat,
    limit: Option<usize>,
    e: ReadError,
)
    requires
        parse_record(s, p).0 == Some(Err::<Seq<Seq<u8>>, ReadError>(e)),
    ensures
        records_walked(s, p, count, limit) == (count, Some(e), parse_record(s, p).1),
{
}

proof fn lemma_walk_over_records(s: Seq<u8>, p: int, rs: Seq<Seq<Seq<u8>>>, count: nat)
    requires
        0 <= p,
        p + records_bytes(rs).len() <= s.len(),
        s.subrange(p, p + records_bytes(rs).len()) == records_bytes(rs),
        forall|i: int|
            0 <= i < rs.len() ==> (#[trigger] rs[i]).len() == 5 && total_from(rs[i], 0) <= u64::MAX,
    ensures
        records_walked(s, p, count, None) == records_walked(
            s,
            p + records_bytes(rs).len(),
            count + rs.len(),
            None,
        ),
    decreases rs.len(),
{
    if rs.len() > 0 {
        let first = record_bytes(rs[0]);
        let rest = rs.drop_first();
        let all = records_bytes(rs);
        assert(all == first + records_bytes(rest));
        assert(s.subrange(p, p + first.len()) =~= all.subrange(0, first.len() as int));
        assert(all.subrange(0, first.len() as int) =~= first);
        assert(rs[0] == rs[0]);
        lemma_record_roundtrip(rs[0], s, p);
        assert forall|i: int| 0 <= i < rest.len() implies (#[trigger] rest[i]).len() == 5
            && total_from(rest[i], 0) <= u64::MAX by {
            assert(rest[i] == rs[i + 1]);
        }
        assert(s.subrange(p + first.len(), p + all.len()) =~= all.subrange(
            first.len() as int,
            all.len() as int,
        ));
        assert(all.subrange(first.len() as int, all.len() as int) =~= records_bytes(rest));
        lemma_walk_over_records(s, p + first.len(), rest, count + 1);
    }
}

/// Walking, with no limit, the bytes of a header, the records `rs` and then
/// any bytes `t` walks every record of `rs` and goes on from where they
/// end: if the bytes end there the walk ends cleanly with `rs.len()`
/// records, and if the next read fails the walk reports that failure
/// after `rs.len()` records.
pub proof fn lemma_walk_after_records(hb: Seq<u8>, rs: Seq<Seq<Seq<u8>>>, t: Seq<u8>)
    requires
        hb.len() == HEADER_LEN,
        forall|i: int|
            0 <= i < rs.len() ==> (#[trigger] rs[i]).len() == 5 && total_from(rs[i], 0) <= u64::MAX,
    ensures
        ({
            let s = hb + records_bytes(rs) + t;
            let end = HEADER_LEN + records_bytes(rs).len();
            &&& records_walked(s, HEADER_LEN as int, 0, None) == records_walked(
                s,
                end,
                rs.len(),
                None,
            )
            &&& t.len() == 0 ==> records_walked(s, HEADER_LEN as int, 0, None) == (
                rs.len(),
                None::<ReadError>,
                s.len() as int,
            )
            &&& forall|e: ReadError|
                parse_record(s, end).0 == Some(Err::<Seq<Seq<u8>>, ReadError>(e))
                    ==> #[trigger] records_walked(s, HEADER_LEN as int, 0, None) == (
                    rs.len(),
                    Some(e),
                    parse_record(s, end).1,
                )
        }),
{
    let s = hb + records_bytes(rs) + t;
    let rb = records_bytes(rs);
    let end = HEADER_LEN + rb.len();
    assert(s.subrange(HEADER_LEN as int, end) =~= rb);
    lemma_walk_over_records(s, HEADER_LEN as int, rs, 0);
    if t.len() == 0 {
        assert(s.len() == end);
        lemma_end_of_records(s);
    }
    assert forall|e: ReadError|
        parse_record(s, end).0 == Some(Err::<Seq<Seq<u8>>, ReadError>(e)) implies #[trigger] records_walked(
        s,
        HEADER_LEN as int,
        0,
        None,
    ) == (rs.len(), Some(e), parse_record(s, end).1) by {
        lemma_walk_reports_failure(s, end, rs.len(), None, e);
    }
}

} // verus!
