//! The file header and field tags of trace corpora.
//!
//! A corpus file starts with a header of `HEADER_LEN` bytes: the magic
//! `"LCRP"`, the format version and flags as little-endian `u16`s, a
//! 20-byte commit hash and four zero bytes.
use vstd::prelude::*;

use vstd::string::*;

use crate::text::{decimal, decimal_string, hex, hex_string};
use crate::bytes::{le_u16, le_u32, lemma_le_u16, lemma_le_u32, read_u16_le, read_u32_le,
    u16_of, u16_to_le, u32_of, u32_to_le};

verus! {

/// `"LCRP"` read as a little-endian `u32`.
pub const MAGIC: u32 = 0x5052_434c;

/// `"REC1"` read as a little-endian `u32`.
pub const RECORD_MARKER: u32 = 0x3143_4552;

pub const FORMAT_VERSION: u16 = 1;

pub const HEADER_LEN: usize = 32;

/// The fields of a record, in the order they are written.
#[derive(Copy, Clone, Debug, PartialEq, Eq, Structural)]
pub enum FieldTag {
    Input,
    StateIn,
    Output,
    StateOut,
    MessageDelta,
}

/// The fields of a record in the order they are written.
pub const FIELD_ORDER: [FieldTag; 5] = [
    FieldTag::Input,
    FieldTag::StateIn,
    FieldTag::Output,
    FieldTag::StateOut,
    FieldTag::MessageDelta,
];

/// The `k`-th field of a record.
pub open spec fn field_at(k: int) -> FieldTag {
    if k == 0 {
        FieldTag::Input
    } else if k == 1 {
        FieldTag::StateIn
    } else if k == 2 {
        FieldTag::Output
    } else if k == 3 {
        FieldTag::StateOut
    } else {
        FieldTag::MessageDelta
    }
}

impl FieldTag {
    /// The number that stands for the tag in a corpus file.
    pub open spec fn code(self) -> u32 {
        match self {
            FieldTag::Input => 1,
            FieldTag::StateIn => 2,
            FieldTag::Output => 3,
            FieldTag::StateOut => 4,
            FieldTag::MessageDelta => 5,
        }
    }

    /// The number that stands for the tag in a corpus file.
    pub fn to_u32(self) -> (r: u32)
        ensures
            r == self.code(),
    {
        match self {
            FieldTag::Input => 1,
            FieldTag::StateIn => 2,
            FieldTag::Output => 3,
            FieldTag::StateOut => 4,
            FieldTag::MessageDelta => 5,
        }
    }

    /// The tag that `v` stands for, if any.
    pub fn from_u32(v: u32) -> (r: Option<Self>)
        ensures
            r is None <==> !(1 <= v <= 5),
            r matches Some(t) ==> t.code() == v,
    {
        match v {
            1 => Some(FieldTag::Input),
            2 => Some(FieldTag::StateIn),
            3 => Some(FieldTag::Output),
            4 => Some(FieldTag::StateOut),
            5 => Some(FieldTag::MessageDelta),
            _ => None,
        }
    }
}

/// Every tag is read back from its number.
pub proof fn lemma_field_tag_roundtrip(t: FieldTag)
    ensures
        1 <= t.code() <= 5,
        forall|u: FieldTag| #[trigger] u.code() == t.code() ==> u == t,
{
}

/// The header of a corpus file.
#[derive(Debug, PartialEq, Eq)]
pub struct FileHeader {
    pub version: u16,
    pub flags: u16,
    pub pin_sha: [u8; 20],
}

/// Why a corpus file could not be read.
#[allow(inconsistent_fields)]
#[derive(Debug)]
pub enum FormatError {
    BadMagic { found: u32 },
    UnsupportedVersion { found: u16 },
    BadRecordMarker { found: u32 },
    UnknownFieldTag { found: u32 },
    UnexpectedFieldOrder { expected: FieldTag, found: FieldTag },
    Truncated,
}

/// The encoding of a header with the given fields.
pub open spec fn header_bytes(version: u16, flags: u16, pin_sha: Seq<u8>) -> Seq<u8> {
    le_u32(MAGIC) + le_u16(version) + le_u16(flags) + pin_sha + seq![0u8, 0u8, 0u8, 0u8]
}

/// The little-endian `u32` at `i`.
pub open spec fn u32_at(b: Seq<u8>, i: int) -> u32 {
    u32_of(b[i], b[i + 1], b[i + 2], b[i + 3])
}

/// The little-endian `u16` at `i`.
pub open spec fn u16_at(b: Seq<u8>, i: int) -> u16 {
    u16_of(b[i], b[i + 1])
}

impl FileHeader {
    /// The header's bytes.
    pub fn encode(&self) -> (r: [u8; HEADER_LEN])
        ensures
            r@ == header_bytes(self.version, self.flags, self.pin_sha@),
    {
        let mut out = [0u8; HEADER_LEN];
        let m = u32_to_le(MAGIC);
        let v = u16_to_le(self.version);
        let f = u16_to_le(self.flags);
        out[0] = m[0];
        out[1] = m[1];
        out[2] = m[2];
        out[3] = m[3];
        out[4] = v[0];
        out[5] = v[1];
        out[6] = f[0];
        out[7] = f[1];
        let mut i: usize = 0;
        while i < 20
            invariant
                i <= 20,
                out@.len() == HEADER_LEN,
                out@.subrange(0, 4) == m@,
                out@[4] == v@[0] && out@[5] == v@[1] && out@[6] == f@[0] && out@[7] == f@[1],
                forall|j: int| 0 <= j < i ==> out@[8 + j] == self.pin_sha@[j],
                forall|j: int| 28 <= j < 32 ==> out@[j] == 0,
            decreases 20 - i,
        {
            out[8 + i] = self.pin_sha[i];
            i = i + 1;
        }
        assert(out@ =~= header_bytes(self.version, self.flags, self.pin_sha@));
        out
    }

    /// Reads a header: fails on a wrong magic or an unsupported version.
    pub fn decode(bytes: &[u8; HEADER_LEN]) -> (r: Result<Self, FormatError>)
        ensures
            u32_at(bytes@, 0) != MAGIC ==> (r matches Err(FormatError::BadMagic { found })
                && found == u32_at(bytes@, 0)),
            u32_at(bytes@, 0) == MAGIC && u16_at(bytes@, 4) != FORMAT_VERSION ==> (r matches Err(
                FormatError::UnsupportedVersion { found },
            ) && found == u16_at(bytes@, 4)),
            u32_at(bytes@, 0) == MAGIC && u16_at(bytes@, 4) == FORMAT_VERSION ==> (r matches Ok(h)
                && h.version == FORMAT_VERSION && h.flags == u16_at(bytes@, 6) && h.pin_sha@
                == bytes@.subrange(8, 28)),
    {
        let b = bytes.as_slice();
        let magic = read_u32_le(b, 0);
        if magic != MAGIC {
            return Err(FormatError::BadMagic { found: magic });
        }
        let version = read_u16_le(b, 4);
        if version != FORMAT_VERSION {
            return Err(FormatError::UnsupportedVersion { found: version });
        }
        let flags = read_u16_le(b, 6);
        let mut pin_sha = [0u8; 20];
        let mut i: usize = 0;
        while i < 20
            invariant
                i <= 20,
                b@ == bytes@,
                b@.len() == HEADER_LEN,
                forall|j: int| 0 <= j < i ==> pin_sha@[j] == b@[8 + j],
            decreases 20 - i,
        {
            pin_sha[i] = b[8 + i];
            i = i + 1;
        }
        assert(pin_sha@ =~= bytes@.subrange(8, 28));
        Ok(FileHeader { version, flags, pin_sha })
    }
}

/// Reading back the bytes of a header gives back its fields.
pub proof fn lemma_header_roundtrip(version: u16, flags: u16, pin_sha: Seq<u8>)
    requires
        pin_sha.len() == 20,
    ensures
        header_bytes(version, flags, pin_sha).len() == HEADER_LEN,
        u32_at(header_bytes(version, flags, pin_sha), 0) == MAGIC,
        u16_at(header_bytes(version, flags, pin_sha), 4) == version,
        u16_at(header_bytes(version, flags, pin_sha), 6) == flags,
        header_bytes(version, flags, pin_sha).subrange(8, 28) == pin_sha,
{
    let b = header_bytes(version, flags, pin_sha);
    lemma_le_u32(MAGIC, 0, 0, 0, 0);
    lemma_le_u16(version, 0, 0);
    lemma_le_u16(flags, 0, 0);
    assert(b[0] == le_u32(MAGIC)[0] && b[1] == le_u32(MAGIC)[1] && b[2] == le_u32(MAGIC)[2]
        && b[3] == le_u32(MAGIC)[3]);
    assert(b[4] == le_u16(version)[0] && b[5] == le_u16(version)[1]);
    assert(b[6] == le_u16(flags)[0] && b[7] == le_u16(flags)[1]);
    assert(b.subrange(8, 28) =~= pin_sha);
}

/// Writing back the fields read from header bytes gives back those bytes,
/// but for the last four, which are written as zeros.
pub proof fn lemma_header_decode_encode(b: Seq<u8>)
    requires
        b.len() == HEADER_LEN,
        u32_at(b, 0) == MAGIC,
    ensures
        header_bytes(u16_at(b, 4), u16_at(b, 6), b.subrange(8, 28)).subrange(0, 28) == b.subrange(
            0,
            28,
        ),
{
    lemma_le_u32(0, b[0], b[1], b[2], b[3]);
    lemma_le_u16(0, b[4], b[5]);
    lemma_le_u16(0, b[6], b[7]);
    let h = header_bytes(u16_at(b, 4), u16_at(b, 6), b.subrange(8, 28));
    assert(h.subrange(0, 28) =~= b.subrange(0, 28));
}


/// The name of a field tag.
pub open spec fn field_tag_name(t: FieldTag) -> Seq<char> {
    match t {
        FieldTag::Input => "Input"@,
        FieldTag::StateIn => "StateIn"@,
        FieldTag::Output => "Output"@,
        FieldTag::StateOut => "StateOut"@,
        FieldTag::MessageDelta => "MessageDelta"@,
    }
}

/// The message that describes a format error.
pub open spec fn format_error_text(e: FormatError) -> Seq<char> {
    match e {
        FormatError::BadMagic { found } => "bad file magic: "@ + "0x"@ + hex(found as nat),
        FormatError::UnsupportedVersion { found } => "unsupported corpus format version: "@
            + decimal(found as nat),
        FormatError::BadRecordMarker { found } => "bad record marker: "@ + "0x"@ + hex(
            found as nat,
        ),
        FormatError::UnknownFieldTag { found } => "unknown field tag: "@ + decimal(found as nat),
        FormatError::UnexpectedFieldOrder { expected, found } => "expected field "@
            + field_tag_name(expected) + ", found "@ + field_tag_name(found),
        FormatError::Truncated => "corpus file truncated"@,
    }
}

impl FieldTag {
    /// The name of the tag.
    pub fn name(&self) -> (s: &'static str)
        ensures
            s@ == field_tag_name(*self),
    {
        match self {
            FieldTag::Input => "Input",
            FieldTag::StateIn => "StateIn",
            FieldTag::Output => "Output",
            FieldTag::StateOut => "StateOut",
            FieldTag::MessageDelta => "MessageDelta",
        }
    }
}

impl FormatError {
    /// The message that describes the error.
    pub fn message(&self) -> (s: String)
        ensures
            s@ == format_error_text(*self),
    {
        match self {
            FormatError::BadMagic { found } => {
                let mut s = "bad file magic: ".to_owned();
                s.append("0x");
                s.append(hex_string(*found as u64).as_str());
                s
            },
            FormatError::UnsupportedVersion { found } => {
                let mut s = "unsupported corpus format version: ".to_owned();
                s.append(decimal_string(*found as usize).as_str());
                s
            },
            FormatError::BadRecordMarker { found } => {
                let mut s = "bad record marker: ".to_owned();
                s.append("0x");
                s.append(hex_string(*found as u64).as_str());
                s
            },
            FormatError::UnknownFieldTag { found } => {
                let mut s = "unknown field tag: ".to_owned();
                s.append(decimal_string(*found as usize).as_str());
                s
            },
            FormatError::UnexpectedFieldOrder { expected, found } => {
                let mut s = "expected field ".to_owned();
                s.append(expected.name());
                s.append(", found ");
                s.append(found.name());
                s
            },
            FormatError::Truncated => "corpus file truncated".to_owned(),
        }
    }
}

} // verus!
