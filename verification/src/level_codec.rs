//! The byte encoding of levels and names.
//!
//! A level is its tag byte followed by the encodings of its children
//! (`Succ`: one level; `Max`, `IMax`: two levels; `Param`, `MVar`: one
//! name). A name is its tag byte; a string component adds the encoding of
//! the parent, the byte length as a little-endian `u32` and the bytes; a
//! numeric component adds the encoding of the parent and the value as a
//! little-endian `u64`.
use vstd::prelude::*;

use crate::bytes::{append_bytes, le_u32, le_u64, lemma_le_u32, lemma_le_u64, read_u32_le,
    read_u64_le, u32_to_le, u64_to_le};
use crate::level::{DecodedLevel, DecodedName, SpecLevel, SpecName, size, lemma_size_positive};

verus! {

pub const TAG_ZERO: u8 = 0;

pub const TAG_SUCC: u8 = 1;

pub const TAG_MAX: u8 = 2;

pub const TAG_IMAX: u8 = 3;

pub const TAG_PARAM: u8 = 4;

pub const TAG_MVAR: u8 = 5;

pub const NAME_ANONYMOUS: u8 = 0;

pub const NAME_STR: u8 = 1;

pub const NAME_NUM: u8 = 2;

/// Why a level or a name could not be encoded.
#[derive(Debug, PartialEq, Eq, Structural)]
pub enum EncodeError {
    /// A string component is longer than `u32::MAX` bytes.
    NumNameTooLarge,
}

/// Why bytes could not be decoded.
#[derive(Debug, PartialEq, Eq, Structural)]
pub enum DecodeError {
    /// No prefix of the input is the encoding of a level (of a name).
    Malformed,
    /// The input starts with an encoding but does not end with it.
    TrailingBytes,
}

/// Every string component of the name has at most `u32::MAX` bytes.
pub open spec fn name_encodable(n: SpecName) -> bool
    decreases n,
{
    match n {
        SpecName::Anonymous => true,
        SpecName::Str(p, s) => name_encodable(*p) && s.len() <= u32::MAX,
        SpecName::Num(p, _) => name_encodable(*p),
    }
}

/// Every name in the level is encodable.
pub open spec fn level_encodable(l: SpecLevel) -> bool
    decreases l,
{
    match l {
        SpecLevel::Zero => true,
        SpecLevel::Succ(u) => level_encodable(*u),
        SpecLevel::Max(a, b) => level_encodable(*a) && level_encodable(*b),
        SpecLevel::IMax(a, b) => level_encodable(*a) && level_encodable(*b),
        SpecLevel::Param(n) => name_encodable(n),
        SpecLevel::MVar(n) => name_encodable(n),
    }
}

/// The bytes the encoder writes for a name: its encoding where the name is
/// encodable, else the bytes written before the first string component that
/// is too long.
pub open spec fn emit_name(n: SpecName) -> Seq<u8>
    decreases n,
{
    match n {
        SpecName::Anonymous => seq![NAME_ANONYMOUS],
        SpecName::Str(p, s) => seq![NAME_STR] + emit_name(*p) + if name_encodable(*p) && s.len()
            <= u32::MAX {
            le_u32(s.len() as u32) + s
        } else {
            Seq::empty()
        },
        SpecName::Num(p, v) => seq![NAME_NUM] + emit_name(*p) + if name_encodable(*p) {
            le_u64(v)
        } else {
            Seq::empty()
        },
    }
}

/// The bytes the encoder writes for a level (see `emit_name`).
pub open spec fn emit_level(l: SpecLevel) -> Seq<u8>
    decreases l,
{
    match l {
        SpecLevel::Zero => seq![TAG_ZERO],
        SpecLevel::Succ(u) => seq![TAG_SUCC] + emit_level(*u),
        SpecLevel::Max(a, b) => seq![TAG_MAX] + emit_level(*a) + if level_encodable(*a) {
            emit_level(*b)
        } else {
            Seq::empty()
        },
        SpecLevel::IMax(a, b) => seq![TAG_IMAX] + emit_level(*a) + if level_encodable(*a) {
            emit_level(*b)
        } else {
            Seq::empty()
        },
        SpecLevel::Param(n) => seq![TAG_PARAM] + emit_name(n),
        SpecLevel::MVar(n) => seq![TAG_MVAR] + emit_name(n),
    }
}

/// `e` is a prefix of `s`.
pub open spec fn is_prefix(e: Seq<u8>, s: Seq<u8>) -> bool {
    e.len() <= s.len() && s.subrange(0, e.len() as int) == e
}

/// Some encodable name's encoding is a prefix of `s`.
pub open spec fn starts_with_name(s: Seq<u8>) -> bool {
    exists|n: SpecName| name_encodable(n) && #[trigger] is_prefix(emit_name(n), s)
}

/// Some encodable level's encoding is a prefix of `s`.
pub open spec fn starts_with_level(s: Seq<u8>) -> bool {
    exists|l: SpecLevel| level_encodable(l) && #[trigger] is_prefix(emit_level(l), s)
}

proof fn lemma_prefix_shift(e: Seq<u8>, s: Seq<u8>, k: int)
    requires
        0 <= k <= s.len(),
        k + e.len() <= s.len(),
        s.subrange(k, k + e.len()) == e,
    ensures
        is_prefix(e, s.subrange(k, s.len() as int)),
{
    assert(s.subrange(k, s.len() as int).subrange(0, e.len() as int) =~= s.subrange(
        k,
        k + e.len(),
    ));
}

/// No two encodable names have encodings that are both prefixes of one
/// byte string, unless they are the same name.
pub proof fn lemma_name_prefix_unique(n1: SpecName, n2: SpecName, s: Seq<u8>)
    requires
        name_encodable(n1),
        name_encodable(n2),
        is_prefix(emit_name(n1), s),
        is_prefix(emit_name(n2), s),
    ensures
        n1 == n2,
    decreases n1,
{
    let e1 = emit_name(n1);
    let e2 = emit_name(n2);
    assert(e1[0] == s[0]);
    assert(e2[0] == s[0]);
    let t = s.subrange(1, s.len() as int);
    match (n1, n2) {
        (SpecName::Str(p1, c1), SpecName::Str(p2, c2)) => {
            let ep1 = emit_name(*p1);
            let ep2 = emit_name(*p2);
            assert(e1 =~= seq![NAME_STR] + ep1 + (le_u32(c1.len() as u32) + c1));
            assert(e2 =~= seq![NAME_STR] + ep2 + (le_u32(c2.len() as u32) + c2));
            assert(s.subrange(1, 1 + ep1.len() as int) =~= e1.subrange(1, 1 + ep1.len() as int));
            assert(s.subrange(1, 1 + ep2.len() as int) =~= e2.subrange(1, 1 + ep2.len() as int));
            assert(e1.subrange(1, 1 + ep1.len() as int) =~= ep1);
            assert(e2.subrange(1, 1 + ep2.len() as int) =~= ep2);
            lemma_prefix_shift(ep1, s, 1);
            lemma_prefix_shift(ep2, s, 1);
            lemma_name_prefix_unique(*p1, *p2, t);
            let o: int = 1 + ep1.len() as int;
            let l1 = le_u32(c1.len() as u32);
            let l2 = le_u32(c2.len() as u32);
            assert(s.subrange(o, o + 4) =~= e1.subrange(o, o + 4));
            assert(s.subrange(o, o + 4) =~= e2.subrange(o, o + 4));
            assert(e1.subrange(o, o + 4) =~= l1);
            assert(e2.subrange(o, o + 4) =~= l2);
            lemma_le_u32(c1.len() as u32, 0, 0, 0, 0);
            lemma_le_u32(c2.len() as u32, 0, 0, 0, 0);
            assert(c1.len() == c2.len());
            assert(c1 =~= e1.subrange(o + 4, e1.len() as int));
            assert(c2 =~= e2.subrange(o + 4, e2.len() as int));
            assert(c1 =~= s.subrange(o + 4, e1.len() as int));
            assert(c2 =~= s.subrange(o + 4, e2.len() as int));
        },
        (SpecName::Num(p1, v1), SpecName::Num(p2, v2)) => {
            let ep1 = emit_name(*p1);
            let ep2 = emit_name(*p2);
            assert(e1 =~= seq![NAME_NUM] + ep1 + le_u64(v1));
            assert(e2 =~= seq![NAME_NUM] + ep2 + le_u64(v2));
            assert(s.subrange(1, 1 + ep1.len() as int) =~= e1.subrange(1, 1 + ep1.len() as int));
            assert(s.subrange(1, 1 + ep2.len() as int) =~= e2.subrange(1, 1 + ep2.len() as int));
            assert(e1.subrange(1, 1 + ep1.len() as int) =~= ep1);
            assert(e2.subrange(1, 1 + ep2.len() as int) =~= ep2);
            lemma_prefix_shift(ep1, s, 1);
            lemma_prefix_shift(ep2, s, 1);
            lemma_name_prefix_unique(*p1, *p2, t);
            let o: int = 1 + ep1.len() as int;
            assert(s.subrange(o, o + 8) =~= e1.subrange(o, o + 8));
            assert(s.subrange(o, o + 8) =~= e2.subrange(o, o + 8));
            assert(e1.subrange(o, o + 8) =~= le_u64(v1));
            assert(e2.subrange(o, o + 8) =~= le_u64(v2));
            lemma_le_u64(v1, le_u64(v1));
            lemma_le_u64(v2, le_u64(v2));
        },
        _ => {},
    }
}

/// As `lemma_name_prefix_unique`, for levels.
pub proof fn lemma_level_prefix_unique(l1: SpecLevel, l2: SpecLevel, s: Seq<u8>)
    requires
        level_encodable(l1),
        level_encodable(l2),
        is_prefix(emit_level(l1), s),
        is_prefix(emit_level(l2), s),
    ensures
        l1 == l2,
    decreases size(l1),
{
    let e1 = emit_level(l1);
    let e2 = emit_level(l2);
    assert(e1[0] == s[0]);
    assert(e2[0] == s[0]);
    let t = s.subrange(1, s.len() as int);
    match (l1, l2) {
        (SpecLevel::Succ(a1), SpecLevel::Succ(a2)) => {
            let ea1 = emit_level(*a1);
            let ea2 = emit_level(*a2);
            assert(s.subrange(1, 1 + ea1.len() as int) =~= e1.subrange(1, 1 + ea1.len() as int));
            assert(s.subrange(1, 1 + ea2.len() as int) =~= e2.subrange(1, 1 + ea2.len() as int));
            assert(e1.subrange(1, 1 + ea1.len() as int) =~= ea1);
            assert(e2.subrange(1, 1 + ea2.len() as int) =~= ea2);
            lemma_prefix_shift(ea1, s, 1);
            lemma_prefix_shift(ea2, s, 1);
            lemma_level_prefix_unique(*a1, *a2, t);
        },
        (SpecLevel::Max(a1, b1), SpecLevel::Max(a2, b2)) => {
            lemma_level_pair_unique(*a1, *b1, *a2, *b2, s, e1, e2);
        },
        (SpecLevel::IMax(a1, b1), SpecLevel::IMax(a2, b2)) => {
            lemma_level_pair_unique(*a1, *b1, *a2, *b2, s, e1, e2);
        },
        (SpecLevel::Param(n1), SpecLevel::Param(n2)) => {
            let en1 = emit_name(n1);
            let en2 = emit_name(n2);
            assert(e1.subrange(1, e1.len() as int) =~= en1);
            assert(e2.subrange(1, e2.len() as int) =~= en2);
            assert(s.subrange(1, 1 + en1.len() as int) =~= e1.subrange(1, e1.len() as int));
            assert(s.subrange(1, 1 + en2.len() as int) =~= e2.subrange(1, e2.len() as int));
            lemma_prefix_shift(en1, s, 1);
            lemma_prefix_shift(en2, s, 1);
            lemma_name_prefix_unique(n1, n2, t);
        },
        (SpecLevel::MVar(n1), SpecLevel::MVar(n2)) => {
            let en1 = emit_name(n1);
            let en2 = emit_name(n2);
            assert(e1.subrange(1, e1.len() as int) =~= en1);
            assert(e2.subrange(1, e2.len() as int) =~= en2);
            assert(s.subrange(1, 1 + en1.len() as int) =~= e1.subrange(1, e1.len() as int));
            assert(s.subrange(1, 1 + en2.len() as int) =~= e2.subrange(1, e2.len() as int));
            lemma_prefix_shift(en1, s, 1);
            lemma_prefix_shift(en2, s, 1);
            lemma_name_prefix_unique(n1, n2, t);
        },
        _ => {},
    }
}

proof fn lemma_level_pair_unique(
    a1: SpecLevel,
    b1: SpecLevel,
    a2: SpecLevel,
    b2: SpecLevel,
    s: Seq<u8>,
    e1: Seq<u8>,
    e2: Seq<u8>,
)
    requires
        level_encodable(a1) && level_encodable(b1),
        level_encodable(a2) && level_encodable(b2),
        e1[0] == e2[0],
        e1 == seq![e1[0]] + emit_level(a1) + emit_level(b1),
        e2 == seq![e2[0]] + emit_level(a2) + emit_level(b2),
        is_prefix(e1, s),
        is_prefix(e2, s),
    ensures
        a1 == a2 && b1 == b2,
    decreases size(a1) + size(b1),
{
    lemma_size_positive(a1);
    lemma_size_positive(b1);
    let t = s.subrange(1, s.len() as int);
    let ea1 = emit_level(a1);
    let ea2 = emit_level(a2);
    assert(s.subrange(1, 1 + ea1.len() as int) =~= e1.subrange(1, 1 + ea1.len() as int));
    assert(s.subrange(1, 1 + ea2.len() as int) =~= e2.subrange(1, 1 + ea2.len() as int));
    assert(e1.subrange(1, 1 + ea1.len() as int) =~= ea1);
    assert(e2.subrange(1, 1 + ea2.len() as int) =~= ea2);
    lemma_prefix_shift(ea1, s, 1);
    lemma_prefix_shift(ea2, s, 1);
    lemma_level_prefix_unique(a1, a2, t);
    let o: int = 1 + ea1.len() as int;
    let eb1 = emit_level(b1);
    let eb2 = emit_level(b2);
    assert(s.subrange(o, o + eb1.len() as int) =~= e1.subrange(o, e1.len() as int));
    assert(s.subrange(o, o + eb2.len() as int) =~= e2.subrange(o, e2.len() as int));
    assert(e1.subrange(o, e1.len() as int) =~= eb1);
    assert(e2.subrange(o, e2.len() as int) =~= eb2);
    lemma_prefix_shift(eb1, s, o);
    lemma_prefix_shift(eb2, s, o);
    lemma_level_prefix_unique(b1, b2, s.subrange(o, s.len() as int));
}


/// Writes the encoding of `n` to the end of `out`; fails where a string
/// component is longer than `u32::MAX` bytes, having written what comes
/// before it.
pub fn encode_decoded_name(n: &DecodedName, out: &mut Vec<u8>) -> (r: Result<(), EncodeError>)
    ensures
        final(out)@ == old(out)@ + emit_name(n@),
        r is Ok <==> name_encodable(n@),
        r is Err ==> r == Err::<(), EncodeError>(EncodeError::NumNameTooLarge),
    decreases n,
{
    match n {
        DecodedName::Anonymous => {
            out.push(NAME_ANONYMOUS);
            Ok(())
        },
        DecodedName::Str(p, c) => {
            out.push(NAME_STR);
            let r = encode_decoded_name(p, out);
            if r.is_err() {
                assert(out@ =~= old(out)@ + emit_name(n@));
                return r;
            }
            if c.len() > 0xffff_ffffusize {
                assert(out@ =~= old(out)@ + emit_name(n@));
                return Err(EncodeError::NumNameTooLarge);
            }
            let len = c.len() as u32;
            let lb = u32_to_le(len);
            append_bytes(out, &lb);
            append_bytes(out, c.as_slice());
            assert(out@ =~= old(out)@ + emit_name(n@));
            Ok(())
        },
        DecodedName::Num(p, v) => {
            out.push(NAME_NUM);
            let r = encode_decoded_name(p, out);
            if r.is_err() {
                assert(out@ =~= old(out)@ + emit_name(n@));
                return r;
            }
            let vb = u64_to_le(*v);
            append_bytes(out, &vb);
            assert(out@ =~= old(out)@ + emit_name(n@));
            Ok(())
        },
    }
}

/// Writes the encoding of `l` to the end of `out`; fails where a string
/// component of a name is longer than `u32::MAX` bytes, having written what
/// comes before it.
pub fn encode_decoded_level(l: &DecodedLevel, out: &mut Vec<u8>) -> (r: Result<(), EncodeError>)
    ensures
        final(out)@ == old(out)@ + emit_level(l@),
        r is Ok <==> level_encodable(l@),
        r is Err ==> r == Err::<(), EncodeError>(EncodeError::NumNameTooLarge),
    decreases l,
{
    match l {
        DecodedLevel::Zero => {
            out.push(TAG_ZERO);
            Ok(())
        },
        DecodedLevel::Succ(u) => {
            out.push(TAG_SUCC);
            let r = encode_decoded_level(u, out);
            assert(out@ =~= old(out)@ + emit_level(l@));
            r
        },
        DecodedLevel::Max(a, b) => {
            out.push(TAG_MAX);
            let r = encode_decoded_level(a, out);
            if r.is_err() {
                assert(out@ =~= old(out)@ + emit_level(l@));
                return r;
            }
            let r2 = encode_decoded_level(b, out);
            assert(out@ =~= old(out)@ + emit_level(l@));
            r2
        },
        DecodedLevel::IMax(a, b) => {
            out.push(TAG_IMAX);
            let r = encode_decoded_level(a, out);
            if r.is_err() {
                assert(out@ =~= old(out)@ + emit_level(l@));
                return r;
            }
            let r2 = encode_decoded_level(b, out);
            assert(out@ =~= old(out)@ + emit_level(l@));
            r2
        },
        DecodedLevel::Param(n) => {
            out.push(TAG_PARAM);
            let r = encode_decoded_name(n, out);
            assert(out@ =~= old(out)@ + emit_level(l@));
            r
        },
        DecodedLevel::MVar(n) => {
            out.push(TAG_MVAR);
            let r = encode_decoded_name(n, out);
            assert(out@ =~= old(out)@ + emit_level(l@));
            r
        },
    }
}

/// Facts about an encodable string name whose encoding is a prefix of `s`.
proof fn lemma_str_name_prefix(p: SpecName, c: Seq<u8>, s: Seq<u8>)
    requires
        name_encodable(SpecName::Str(Box::new(p), c)),
        is_prefix(emit_name(SpecName::Str(Box::new(p), c)), s),
    ensures
        ({
            let o: int = 1 + emit_name(p).len() as int;
            &&& s[0] == NAME_STR
            &&& is_prefix(emit_name(p), s.subrange(1, s.len() as int))
            &&& o + 4 + c.len() <= s.len()
            &&& s.subrange(o, o + 4) == le_u32(c.len() as u32)
            &&& s.subrange(o + 4, o + 4 + c.len()) == c
        }),
{
    let e = emit_name(SpecName::Str(Box::new(p), c));
    let ep = emit_name(p);
    let o: int = 1 + ep.len() as int;
    assert(e =~= seq![NAME_STR] + ep + (le_u32(c.len() as u32) + c));
    assert(e[0] == s[0]);
    assert(s.subrange(1, o) =~= e.subrange(1, o));
    assert(e.subrange(1, o) =~= ep);
    lemma_prefix_shift(ep, s, 1);
    assert(s.subrange(o, o + 4) =~= e.subrange(o, o + 4));
    assert(s.subrange(o + 4, o + 4 + c.len()) =~= e.subrange(o + 4, o + 4 + c.len()));
}

/// Facts about an encodable numeric name whose encoding is a prefix of `s`.
proof fn lemma_num_name_prefix(p: SpecName, v: u64, s: Seq<u8>)
    requires
        name_encodable(SpecName::Num(Box::new(p), v)),
        is_prefix(emit_name(SpecName::Num(Box::new(p), v)), s),
    ensures
        ({
            let o: int = 1 + emit_name(p).len() as int;
            &&& s[0] == NAME_NUM
            &&& is_prefix(emit_name(p), s.subrange(1, s.len() as int))
            &&& o + 8 <= s.len()
            &&& s.subrange(o, o + 8) == le_u64(v)
        }),
{
    let e = emit_name(SpecName::Num(Box::new(p), v));
    let ep = emit_name(p);
    let o: int = 1 + ep.len() as int;
    assert(e =~= seq![NAME_NUM] + ep + le_u64(v));
    assert(e[0] == s[0]);
    assert(s.subrange(1, o) =~= e.subrange(1, o));
    assert(e.subrange(1, o) =~= ep);
    lemma_prefix_shift(ep, s, 1);
    assert(s.subrange(o, o + 8) =~= e.subrange(o, o + 8));
}

/// Decodes the name whose encoding starts at `pos`.
fn decode_name_at(b: &[u8], pos: usize) -> (r: Result<(DecodedName, usize), DecodeError>)
    requires
        pos <= b@.len(),
    ensures
        match r {
            Ok((n, end)) => pos < end <= b@.len() && name_encodable(n@) && b@.subrange(
                pos as int,
                end as int,
            ) == emit_name(n@),
            Err(e) => e == DecodeError::Malformed && !starts_with_name(
                b@.subrange(pos as int, b@.len() as int),
            ),
        },
    decreases b@.len() - pos,
{
    let ghost rest = b@.subrange(pos as int, b@.len() as int);
    let ghost rest1 = b@.subrange(pos + 1, b@.len() as int);
    if pos >= b.len() {
        proof {
            if starts_with_name(rest) {
                let n0 = choose|n: SpecName| name_encodable(n) && #[trigger] is_prefix(emit_name(n), rest);
                assert(emit_name(n0).len() >= 1);
            }
        }
        return Err(DecodeError::Malformed);
    }
    let tag = b[pos];
    if tag == NAME_ANONYMOUS {
        assert(b@.subrange(pos as int, pos + 1) =~= emit_name(SpecName::Anonymous));
        Ok((DecodedName::Anonymous, pos + 1))
    } else if tag == NAME_STR {
        let pr = decode_name_at(b, pos + 1);
        match pr {
            Err(e) => {
                proof {
                    if starts_with_name(rest) {
                        let n0 = choose|n: SpecName| name_encodable(n) && #[trigger] is_prefix(emit_name(n), rest);
                        assert(emit_name(n0)[0] == rest[0]);
                        if let SpecName::Str(p0, c0) = n0 {
                            lemma_str_name_prefix(*p0, c0, rest);
                            assert(rest.subrange(1, rest.len() as int) =~= rest1);
                            assert(is_prefix(emit_name(*p0), rest1));
                        }
                    }
                }
                Err(e)
            },
            Ok((p, end)) => {
                proof {
                    assert(rest1.subrange(0, end - (pos + 1)) =~= b@.subrange(pos + 1, end as int));
                    assert(is_prefix(emit_name(p@), rest1));
                }
                if b.len() - end < 4 {
                    proof { self::lemma_str_tail_absent(b@, pos as int, p@, end as int); }
                    return Err(DecodeError::Malformed);
                }
                let len32 = read_u32_le(b, end);
                let len = len32 as usize;
                if b.len() - (end + 4) < len {
                    proof { self::lemma_str_tail_absent(b@, pos as int, p@, end as int); }
                    return Err(DecodeError::Malformed);
                }
                let comp = vstd::slice::slice_to_vec(
                    vstd::slice::slice_subrange(b, end + 4, end + 4 + len),
                );
                let n = DecodedName::Str(Box::new(p), comp);
                proof {
                    assert(comp@.len() == len);
                    lemma_le_u32(len32, 0, 0, 0, 0);
                    assert(comp@.len() as u32 == len32);
                    assert(b@.subrange(pos as int, (end + 4 + len) as int) =~= emit_name(n@));
                }
                Ok((n, end + 4 + len))
            },
        }
    } else if tag == NAME_NUM {
        let pr = decode_name_at(b, pos + 1);
        match pr {
            Err(e) => {
                proof {
                    if starts_with_name(rest) {
                        let n0 = choose|n: SpecName| name_encodable(n) && #[trigger] is_prefix(emit_name(n), rest);
                        assert(emit_name(n0)[0] == rest[0]);
                        if let SpecName::Num(p0, v0) = n0 {
                            lemma_num_name_prefix(*p0, v0, rest);
                            assert(rest.subrange(1, rest.len() as int) =~= rest1);
                            assert(is_prefix(emit_name(*p0), rest1));
                        }
                    }
                }
                Err(e)
            },
            Ok((p, end)) => {
                proof {
                    assert(rest1.subrange(0, end - (pos + 1)) =~= b@.subrange(pos + 1, end as int));
                    assert(is_prefix(emit_name(p@), rest1));
                }
                if b.len() - end < 8 {
                    proof {
                        if starts_with_name(rest) {
                            let n0 = choose|n: SpecName| name_encodable(n) && #[trigger] is_prefix(emit_name(n), rest);
                            assert(emit_name(n0)[0] == rest[0]);
                            if let SpecName::Num(p0, v0) = n0 {
                                lemma_num_name_prefix(*p0, v0, rest);
                                assert(rest.subrange(1, rest.len() as int) =~= rest1);
                                lemma_name_prefix_unique(*p0, p@, rest1);
                            }
                        }
                    }
                    return Err(DecodeError::Malformed);
                }
                let v = read_u64_le(b, end);
                let n = DecodedName::Num(Box::new(p), v);
                proof {
                    assert(b@.subrange(pos as int, (end + 8) as int) =~= emit_name(n@));
                }
                Ok((n, end + 8))
            },
        }
    } else {
        proof {
            if starts_with_name(rest) {
                let n0 = choose|n: SpecName| name_encodable(n) && #[trigger] is_prefix(emit_name(n), rest);
                assert(emit_name(n0)[0] == rest[0]);
            }
        }
        Err(DecodeError::Malformed)
    }
}

/// Where the parent of a string name decodes to `p` ending at `end`, an
/// encodable string name at `pos` has its length and bytes inside `b`, and
/// its length bytes are those at `end`.
proof fn lemma_str_tail_absent(b: Seq<u8>, pos: int, p: SpecName, end: int)
    requires
        0 <= pos < end <= b.len(),
        b[pos] == NAME_STR,
        name_encodable(p),
        b.subrange(pos + 1, end) == emit_name(p),
    ensures
        starts_with_name(b.subrange(pos, b.len() as int)) ==> {
            &&& end + 4 <= b.len()
            &&& end + 4 + crate::bytes::u32_of(b[end], b[end + 1], b[end + 2], b[end + 3])
                <= b.len()
        },
{
    let rest = b.subrange(pos, b.len() as int);
    let rest1 = b.subrange(pos + 1, b.len() as int);
    if starts_with_name(rest) {
        let n0 = choose|n: SpecName| name_encodable(n) && #[trigger] is_prefix(emit_name(n), rest);
        assert(emit_name(n0)[0] == rest[0]);
        if let SpecName::Str(p0, c0) = n0 {
            lemma_str_name_prefix(*p0, c0, rest);
            assert(rest.subrange(1, rest.len() as int) =~= rest1);
            assert(rest1.subrange(0, end - (pos + 1)) =~= b.subrange(pos + 1, end));
            lemma_name_prefix_unique(*p0, p, rest1);
            let o: int = 1 + emit_name(p).len() as int;
            assert(rest.subrange(o, o + 4) =~= b.subrange(end, end + 4));
            lemma_le_u32(c0.len() as u32, 0, 0, 0, 0);
            assert(b[end] == le_u32(c0.len() as u32)[0]);
            assert(b[end + 1] == le_u32(c0.len() as u32)[1]);
            assert(b[end + 2] == le_u32(c0.len() as u32)[2]);
            assert(b[end + 3] == le_u32(c0.len() as u32)[3]);
        }
    }
}


/// Facts about an encodable level with two children whose encoding is a
/// prefix of `s`.
proof fn lemma_pair_level_prefix(l: SpecLevel, a: SpecLevel, b: SpecLevel, s: Seq<u8>)
    requires
        l == SpecLevel::Max(Box::new(a), Box::new(b)) || l == SpecLevel::IMax(
            Box::new(a),
            Box::new(b),
        ),
        level_encodable(l),
        is_prefix(emit_level(l), s),
    ensures
        is_prefix(emit_level(a), s.subrange(1, s.len() as int)),
        is_prefix(emit_level(b), s.subrange(1 + emit_level(a).len() as int, s.len() as int)),
        emit_level(l).len() == 1 + emit_level(a).len() + emit_level(b).len(),
{
    let e = emit_level(l);
    let ea = emit_level(a);
    let eb = emit_level(b);
    let o: int = 1 + ea.len() as int;
    assert(e =~= seq![e[0]] + ea + eb);
    assert(s.subrange(1, o) =~= e.subrange(1, o));
    assert(e.subrange(1, o) =~= ea);
    lemma_prefix_shift(ea, s, 1);
    assert(s.subrange(o, o + eb.len()) =~= e.subrange(o, e.len() as int));
    assert(e.subrange(o, e.len() as int) =~= eb);
    lemma_prefix_shift(eb, s, o);
}

/// Facts about an encodable level with one child (a level or a name) whose
/// encoding is a prefix of `s`.
proof fn lemma_single_prefix(e: Seq<u8>, inner: Seq<u8>, s: Seq<u8>)
    requires
        e == seq![e[0]] + inner,
        is_prefix(e, s),
    ensures
        is_prefix(inner, s.subrange(1, s.len() as int)),
        s[0] == e[0],
{
    assert(s.subrange(1, 1 + inner.len() as int) =~= e.subrange(1, e.len() as int));
    assert(e.subrange(1, e.len() as int) =~= inner);
    lemma_prefix_shift(inner, s, 1);
}

/// Decodes the level whose encoding starts at `pos`.
fn decode_level_at(b: &[u8], pos: usize) -> (r: Result<(DecodedLevel, usize), DecodeError>)
    requires
        pos <= b@.len(),
    ensures
        match r {
            Ok((l, end)) => pos < end <= b@.len() && level_encodable(l@) && b@.subrange(
                pos as int,
                end as int,
            ) == emit_level(l@),
            Err(e) => e == DecodeError::Malformed && !starts_with_level(
                b@.subrange(pos as int, b@.len() as int),
            ),
        },
    decreases b@.len() - pos,
{
    let ghost rest = b@.subrange(pos as int, b@.len() as int);
    let ghost rest1 = b@.subrange(pos + 1, b@.len() as int);
    proof {
        if pos < b@.len() {
            assert(rest.subrange(1, rest.len() as int) =~= rest1);
        }
    }
    if pos >= b.len() {
        proof {
            if starts_with_level(rest) {
                let l0 = choose|l: SpecLevel| level_encodable(l) && #[trigger] is_prefix(emit_level(l), rest);
                assert(emit_level(l0).len() >= 1);
            }
        }
        return Err(DecodeError::Malformed);
    }
    let tag = b[pos];
    if tag == TAG_ZERO {
        assert(b@.subrange(pos as int, pos + 1) =~= emit_level(SpecLevel::Zero));
        Ok((DecodedLevel::Zero, pos + 1))
    } else if tag == TAG_SUCC {
        match decode_level_at(b, pos + 1) {
            Err(e) => {
                proof {
                    if starts_with_level(rest) {
                        let l0 = choose|l: SpecLevel| level_encodable(l) && #[trigger] is_prefix(emit_level(l), rest);
                        assert(emit_level(l0)[0] == rest[0]);
                        if let SpecLevel::Succ(u0) = l0 {
                            lemma_single_prefix(emit_level(l0), emit_level(*u0), rest);
                        }
                    }
                }
                Err(e)
            },
            Ok((u, end)) => {
                let l = DecodedLevel::Succ(Box::new(u));
                assert(b@.subrange(pos as int, end as int) =~= emit_level(l@));
                Ok((l, end))
            },
        }
    } else if tag == TAG_MAX || tag == TAG_IMAX {
        match decode_level_at(b, pos + 1) {
            Err(e) => {
                proof {
                    if starts_with_level(rest) {
                        let l0 = choose|l: SpecLevel| level_encodable(l) && #[trigger] is_prefix(emit_level(l), rest);
                        assert(emit_level(l0)[0] == rest[0]);
                        match l0 {
                            SpecLevel::Max(a0, b0) => lemma_pair_level_prefix(l0, *a0, *b0, rest),
                            SpecLevel::IMax(a0, b0) => lemma_pair_level_prefix(l0, *a0, *b0, rest),
                            _ => {},
                        }
                    }
                }
                Err(e)
            },
            Ok((x, mid)) => {
                proof {
                    assert(rest1.subrange(0, mid - (pos + 1)) =~= b@.subrange(pos + 1, mid as int));
                }
                match decode_level_at(b, mid) {
                    Err(e) => {
                        proof {
                            if starts_with_level(rest) {
                                let l0 = choose|l: SpecLevel| level_encodable(l) && #[trigger] is_prefix(emit_level(l), rest);
                                assert(emit_level(l0)[0] == rest[0]);
                                match l0 {
                                    SpecLevel::Max(a0, b0) => {
                                        lemma_pair_level_prefix(l0, *a0, *b0, rest);
                                        lemma_level_prefix_unique(*a0, x@, rest1);
                                        assert(rest.subrange(1 + emit_level(*a0).len() as int, rest.len() as int) =~= b@.subrange(mid as int, b@.len() as int));
                                    },
                                    SpecLevel::IMax(a0, b0) => {
                                        lemma_pair_level_prefix(l0, *a0, *b0, rest);
                                        lemma_level_prefix_unique(*a0, x@, rest1);
                                        assert(rest.subrange(1 + emit_level(*a0).len() as int, rest.len() as int) =~= b@.subrange(mid as int, b@.len() as int));
                                    },
                                    _ => {},
                                }
                            }
                        }
                        Err(e)
                    },
                    Ok((y, end)) => {
                        let l = if tag == TAG_MAX {
                            DecodedLevel::Max(Box::new(x), Box::new(y))
                        } else {
                            DecodedLevel::IMax(Box::new(x), Box::new(y))
                        };
                        assert(b@.subrange(pos as int, end as int) =~= emit_level(l@));
                        Ok((l, end))
                    },
                }
            },
        }
    } else if tag == TAG_PARAM || tag == TAG_MVAR {
        match decode_name_at(b, pos + 1) {
            Err(e) => {
                proof {
                    if starts_with_level(rest) {
                        let l0 = choose|l: SpecLevel| level_encodable(l) && #[trigger] is_prefix(emit_level(l), rest);
                        assert(emit_level(l0)[0] == rest[0]);
                        match l0 {
                            SpecLevel::Param(n0) => {
                                lemma_single_prefix(emit_level(l0), emit_name(n0), rest);
                                assert(is_prefix(emit_name(n0), rest1));
                            },
                            SpecLevel::MVar(n0) => {
                                lemma_single_prefix(emit_level(l0), emit_name(n0), rest);
                                assert(is_prefix(emit_name(n0), rest1));
                            },
                            _ => {},
                        }
                    }
                }
                Err(e)
            },
            Ok((n, end)) => {
                let l = if tag == TAG_PARAM {
                    DecodedLevel::Param(n)
                } else {
                    DecodedLevel::MVar(n)
                };
                assert(b@.subrange(pos as int, end as int) =~= emit_level(l@));
                Ok((l, end))
            },
        }
    } else {
        proof {
            if starts_with_level(rest) {
                let l0 = choose|l: SpecLevel| level_encodable(l) && #[trigger] is_prefix(emit_level(l), rest);
                assert(emit_level(l0)[0] == rest[0]);
            }
        }
        Err(DecodeError::Malformed)
    }
}


/// `s` is exactly the encoding of an encodable level.
pub open spec fn is_level_encoding(s: Seq<u8>) -> bool {
    exists|l: SpecLevel| level_encodable(l) && #[trigger] emit_level(l) == s
}

/// `s` is exactly the encoding of an encodable name.
pub open spec fn is_name_encoding(s: Seq<u8>) -> bool {
    exists|n: SpecName| name_encodable(n) && #[trigger] emit_name(n) == s
}

/// Decodes the level at the start of `bytes`, and returns it with the bytes
/// that follow its encoding.
pub fn decode_level_prefix(bytes: &[u8]) -> (r: Result<(DecodedLevel, &[u8]), DecodeError>)
    ensures
        r is Ok <==> starts_with_level(bytes@),
        r matches Ok((l, rest)) ==> level_encodable(l@) && bytes@ == emit_level(l@) + rest@,
        r is Err ==> r == Err::<(DecodedLevel, &[u8]), DecodeError>(DecodeError::Malformed),
{
    assert(bytes@.subrange(0, bytes@.len() as int) =~= bytes@);
    match decode_level_at(bytes, 0) {
        Ok((l, end)) => {
            let rest = vstd::slice::slice_subrange(bytes, end, bytes.len());
            proof {
                assert(bytes@ =~= bytes@.subrange(0, end as int) + rest@);
                assert(bytes@.subrange(0, emit_level(l@).len() as int) =~= emit_level(l@));
                assert(is_prefix(emit_level(l@), bytes@));
            }
            Ok((l, rest))
        },
        Err(e) => Err(e),
    }
}

/// Decodes a level from bytes that hold exactly its encoding.
pub fn decode_level(bytes: &[u8]) -> (r: Result<DecodedLevel, DecodeError>)
    ensures
        r is Ok <==> is_level_encoding(bytes@),
        r matches Ok(l) ==> level_encodable(l@) && emit_level(l@) == bytes@,
        r == Err::<DecodedLevel, DecodeError>(DecodeError::Malformed) <==> !starts_with_level(
            bytes@,
        ),
        r == Err::<DecodedLevel, DecodeError>(DecodeError::TrailingBytes) <==> starts_with_level(
            bytes@,
        ) && !is_level_encoding(bytes@),
{
    assert(bytes@.subrange(0, bytes@.len() as int) =~= bytes@);
    match decode_level_at(bytes, 0) {
        Ok((l, end)) => {
            proof {
                assert(bytes@.subrange(0, emit_level(l@).len() as int) =~= emit_level(l@));
                assert(is_prefix(emit_level(l@), bytes@));
                if is_level_encoding(bytes@) {
                    let l0 = choose|l0: SpecLevel| level_encodable(l0) && #[trigger] emit_level(l0) == bytes@;
                    assert(bytes@.subrange(0, emit_level(l0).len() as int) =~= emit_level(l0));
                    lemma_level_prefix_unique(l0, l@, bytes@);
                }
            }
            if end < bytes.len() {
                Err(DecodeError::TrailingBytes)
            } else {
                Ok(l)
            }
        },
        Err(e) => {
            proof {
                if is_level_encoding(bytes@) {
                    let l0 = choose|l0: SpecLevel| level_encodable(l0) && #[trigger] emit_level(l0) == bytes@;
                    assert(bytes@.subrange(0, emit_level(l0).len() as int) =~= emit_level(l0));
                    assert(is_prefix(emit_level(l0), bytes@));
                }
            }
            Err(e)
        },
    }
}

/// Decodes a name from bytes that hold exactly its encoding.
pub fn decode_name(bytes: &[u8]) -> (r: Result<DecodedName, DecodeError>)
    ensures
        r is Ok <==> is_name_encoding(bytes@),
        r matches Ok(n) ==> name_encodable(n@) && emit_name(n@) == bytes@,
        r == Err::<DecodedName, DecodeError>(DecodeError::Malformed) <==> !starts_with_name(
            bytes@,
        ),
        r == Err::<DecodedName, DecodeError>(DecodeError::TrailingBytes) <==> starts_with_name(
            bytes@,
        ) && !is_name_encoding(bytes@),
{
    assert(bytes@.subrange(0, bytes@.len() as int) =~= bytes@);
    match decode_name_at(bytes, 0) {
        Ok((n, end)) => {
            proof {
                assert(bytes@.subrange(0, emit_name(n@).len() as int) =~= emit_name(n@));
                assert(is_prefix(emit_name(n@), bytes@));
                if is_name_encoding(bytes@) {
                    let n0 = choose|n0: SpecName| name_encodable(n0) && #[trigger] emit_name(n0) == bytes@;
                    assert(bytes@.subrange(0, emit_name(n0).len() as int) =~= emit_name(n0));
                    lemma_name_prefix_unique(n0, n@, bytes@);
                }
            }
            if end < bytes.len() {
                Err(DecodeError::TrailingBytes)
            } else {
                Ok(n)
            }
        },
        Err(e) => {
            proof {
                if is_name_encoding(bytes@) {
                    let n0 = choose|n0: SpecName| name_encodable(n0) && #[trigger] emit_name(n0) == bytes@;
                    assert(bytes@.subrange(0, emit_name(n0).len() as int) =~= emit_name(n0));
                    assert(is_prefix(emit_name(n0), bytes@));
                }
            }
            Err(e)
        },
    }
}

/// Decoding gives back what encoding wrote: the encoding of an encodable
/// level, followed by any bytes, starts with a level, and that level is the
/// encoded one.
pub proof fn lemma_level_decode_encode(l: SpecLevel, rest: Seq<u8>)
    requires
        level_encodable(l),
    ensures
        starts_with_level(emit_level(l) + rest),
        forall|l2: SpecLevel|
            level_encodable(l2) && #[trigger] is_prefix(emit_level(l2), emit_level(l) + rest)
                ==> l2 == l,
        is_level_encoding(emit_level(l)),
{
    let s = emit_level(l) + rest;
    assert(s.subrange(0, emit_level(l).len() as int) =~= emit_level(l));
    assert(is_prefix(emit_level(l), s));
    assert forall|l2: SpecLevel|
        level_encodable(l2) && #[trigger] is_prefix(emit_level(l2), s) implies l2 == l by {
        lemma_level_prefix_unique(l2, l, s);
    }
}

/// As `lemma_level_decode_encode`, for names.
pub proof fn lemma_name_decode_encode(n: SpecName, rest: Seq<u8>)
    requires
        name_encodable(n),
    ensures
        starts_with_name(emit_name(n) + rest),
        forall|n2: SpecName|
            name_encodable(n2) && #[trigger] is_prefix(emit_name(n2), emit_name(n) + rest)
                ==> n2 == n,
        is_name_encoding(emit_name(n)),
{
    let s = emit_name(n) + rest;
    assert(s.subrange(0, emit_name(n).len() as int) =~= emit_name(n));
    assert(is_prefix(emit_name(n), s));
    assert forall|n2: SpecName|
        name_encodable(n2) && #[trigger] is_prefix(emit_name(n2), s) implies n2 == n by {
        lemma_name_prefix_unique(n2, n, s);
    }
}

/// Encoding is injective on encodable levels.
pub proof fn lemma_level_encoding_injective(l1: SpecLevel, l2: SpecLevel)
    requires
        level_encodable(l1),
        level_encodable(l2),
        emit_level(l1) == emit_level(l2),
    ensures
        l1 == l2,
{
    lemma_level_decode_encode(l1, Seq::empty());
    assert(emit_level(l1) + Seq::<u8>::empty() =~= emit_level(l1));
    assert(is_prefix(emit_level(l2), emit_level(l1) + Seq::<u8>::empty()));
}

} // verus!
