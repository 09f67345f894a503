//! Little-endian byte encodings of fixed-width integers.
use vstd::prelude::*;

verus! {

pub open spec fn le_u16(v: u16) -> Seq<u8> {
    seq![(v & 0xff) as u8, ((v >> 8u16) & 0xff) as u8]
}

pub open spec fn le_u32(v: u32) -> Seq<u8> {
    seq![
        (v & 0xff) as u8,
        ((v >> 8u32) & 0xff) as u8,
        ((v >> 16u32) & 0xff) as u8,
        ((v >> 24u32) & 0xff) as u8,
    ]
}

pub open spec fn le_u64(v: u64) -> Seq<u8> {
    seq![
        (v & 0xff) as u8,
        ((v >> 8u64) & 0xff) as u8,
        ((v >> 16u64) & 0xff) as u8,
        ((v >> 24u64) & 0xff) as u8,
        ((v >> 32u64) & 0xff) as u8,
        ((v >> 40u64) & 0xff) as u8,
        ((v >> 48u64) & 0xff) as u8,
        ((v >> 56u64) & 0xff) as u8,
    ]
}

pub open spec fn u16_of(b0: u8, b1: u8) -> u16 {
    (b0 as u16) | ((b1 as u16) << 8u16)
}

pub open spec fn u32_of(b0: u8, b1: u8, b2: u8, b3: u8) -> u32 {
    (b0 as u32) | ((b1 as u32) << 8u32) | ((b2 as u32) << 16u32) | ((b3 as u32) << 24u32)
}

pub open spec fn u64_of(b: Seq<u8>) -> u64 {
    (b[0] as u64) | ((b[1] as u64) << 8u64) | ((b[2] as u64) << 16u64) | ((b[3] as u64) << 24u64)
        | ((b[4] as u64) << 32u64) | ((b[5] as u64) << 40u64) | ((b[6] as u64) << 48u64) | ((
    b[7] as u64) << 56u64)
}

/// The value read back from the little-endian bytes of a `u16` is that `u16`;
/// two bytes read as a `u16` and written back are the same two bytes.
pub proof fn lemma_le_u16(v: u16, b0: u8, b1: u8)
    ensures
        u16_of(le_u16(v)[0], le_u16(v)[1]) == v,
        le_u16(u16_of(b0, b1)) =~= seq![b0, b1],
{
    let x0 = (v & 0xff) as u8;
    let x1 = ((v >> 8u16) & 0xff) as u8;
    assert((x0 as u16) | ((x1 as u16) << 8u16) == v) by (bit_vector)
        requires
            x0 == (v & 0xff) as u8,
            x1 == ((v >> 8u16) & 0xff) as u8,
    ;
    let w = u16_of(b0, b1);
    assert(((w & 0xff) as u8) == b0 && (((w >> 8u16) & 0xff) as u8) == b1) by (bit_vector)
        requires
            w == (b0 as u16) | ((b1 as u16) << 8u16),
    ;
}

/// As `lemma_le_u16`, for `u32`.
pub proof fn lemma_le_u32(v: u32, b0: u8, b1: u8, b2: u8, b3: u8)
    ensures
        u32_of(le_u32(v)[0], le_u32(v)[1], le_u32(v)[2], le_u32(v)[3]) == v,
        le_u32(u32_of(b0, b1, b2, b3)) =~= seq![b0, b1, b2, b3],
{
    let x0 = (v & 0xff) as u8;
    let x1 = ((v >> 8u32) & 0xff) as u8;
    let x2 = ((v >> 16u32) & 0xff) as u8;
    let x3 = ((v >> 24u32) & 0xff) as u8;
    assert((x0 as u32) | ((x1 as u32) << 8u32) | ((x2 as u32) << 16u32) | ((x3 as u32) << 24u32)
        == v) by (bit_vector)
        requires
            x0 == (v & 0xff) as u8,
            x1 == ((v >> 8u32) & 0xff) as u8,
            x2 == ((v >> 16u32) & 0xff) as u8,
            x3 == ((v >> 24u32) & 0xff) as u8,
    ;
    let w = u32_of(b0, b1, b2, b3);
    assert(((w & 0xff) as u8) == b0 && (((w >> 8u32) & 0xff) as u8) == b1 && (((w >> 16u32)
        & 0xff) as u8) == b2 && (((w >> 24u32) & 0xff) as u8) == b3) by (bit_vector)
        requires
            w == (b0 as u32) | ((b1 as u32) << 8u32) | ((b2 as u32) << 16u32) | ((b3 as u32)
                << 24u32),
    ;
}

/// As `lemma_le_u16`, for `u64`.
pub proof fn lemma_le_u64(v: u64, b: Seq<u8>)
    requires
        b.len() == 8,
    ensures
        u64_of(le_u64(v)) == v,
        le_u64(u64_of(b)) =~= b,
{
    let x0 = (v & 0xff) as u8;
    let x1 = ((v >> 8u64) & 0xff) as u8;
    let x2 = ((v >> 16u64) & 0xff) as u8;
    let x3 = ((v >> 24u64) & 0xff) as u8;
    let x4 = ((v >> 32u64) & 0xff) as u8;
    let x5 = ((v >> 40u64) & 0xff) as u8;
    let x6 = ((v >> 48u64) & 0xff) as u8;
    let x7 = ((v >> 56u64) & 0xff) as u8;
    assert((x0 as u64) | ((x1 as u64) << 8u64) | ((x2 as u64) << 16u64) | ((x3 as u64) << 24u64)
        | ((x4 as u64) << 32u64) | ((x5 as u64) << 40u64) | ((x6 as u64) << 48u64) | ((x7 as u64)
        << 56u64) == v) by (bit_vector)
        requires
            x0 == (v & 0xff) as u8,
            x1 == ((v >> 8u64) & 0xff) as u8,
            x2 == ((v >> 16u64) & 0xff) as u8,
            x3 == ((v >> 24u64) & 0xff) as u8,
            x4 == ((v >> 32u64) & 0xff) as u8,
            x5 == ((v >> 40u64) & 0xff) as u8,
            x6 == ((v >> 48u64) & 0xff) as u8,
            x7 == ((v >> 56u64) & 0xff) as u8,
    ;
    let (b0, b1, b2, b3, b4, b5, b6, b7) = (b[0], b[1], b[2], b[3], b[4], b[5], b[6], b[7]);
    let w = u64_of(b);
    assert(((w & 0xff) as u8) == b0 && (((w >> 8u64) & 0xff) as u8) == b1 && (((w >> 16u64)
        & 0xff) as u8) == b2 && (((w >> 24u64) & 0xff) as u8) == b3 && (((w >> 32u64) & 0xff)
        as u8) == b4 && (((w >> 40u64) & 0xff) as u8) == b5 && (((w >> 48u64) & 0xff) as u8)
        == b6 && (((w >> 56u64) & 0xff) as u8) == b7) by (bit_vector)
        requires
            w == (b0 as u64) | ((b1 as u64) << 8u64) | ((b2 as u64) << 16u64) | ((b3 as u64)
                << 24u64) | ((b4 as u64) << 32u64) | ((b5 as u64) << 40u64) | ((b6 as u64)
                << 48u64) | ((b7 as u64) << 56u64),
    ;
}

/// The little-endian bytes of a `u16`.
pub fn u16_to_le(v: u16) -> (r: [u8; 2])
    ensures
        r@ == le_u16(v),
{
    let r = [(v & 0xff) as u8, ((v >> 8u16) & 0xff) as u8];
    assert(r@ =~= le_u16(v));
    r
}

/// The little-endian bytes of a `u32`.
pub fn u32_to_le(v: u32) -> (r: [u8; 4])
    ensures
        r@ == le_u32(v),
{
    let r = [
        (v & 0xff) as u8,
        ((v >> 8u32) & 0xff) as u8,
        ((v >> 16u32) & 0xff) as u8,
        ((v >> 24u32) & 0xff) as u8,
    ];
    assert(r@ =~= le_u32(v));
    r
}

/// The little-endian bytes of a `u64`.
pub fn u64_to_le(v: u64) -> (r: [u8; 8])
    ensures
        r@ == le_u64(v),
{
    let r = [
        (v & 0xff) as u8,
        ((v >> 8u64) & 0xff) as u8,
        ((v >> 16u64) & 0xff) as u8,
        ((v >> 24u64) & 0xff) as u8,
        ((v >> 32u64) & 0xff) as u8,
        ((v >> 40u64) & 0xff) as u8,
        ((v >> 48u64) & 0xff) as u8,
        ((v >> 56u64) & 0xff) as u8,
    ];
    assert(r@ =~= le_u64(v));
    r
}

/// The `u16` whose little-endian bytes start at `pos`.
pub fn read_u16_le(b: &[u8], pos: usize) -> (r: u16)
    requires
        pos + 2 <= b@.len(),
    ensures
        r == u16_of(b@[pos as int], b@[pos + 1]),
        le_u16(r) =~= b@.subrange(pos as int, pos + 2),
{
    proof {
        lemma_le_u16(0, b@[pos as int], b@[pos + 1]);
    }
    (b[pos] as u16) | ((b[pos + 1] as u16) << 8u16)
}

/// The `u32` whose little-endian bytes start at `pos`.
pub fn read_u32_le(b: &[u8], pos: usize) -> (r: u32)
    requires
        pos + 4 <= b@.len(),
    ensures
        r == u32_of(b@[pos as int], b@[pos + 1], b@[pos + 2], b@[pos + 3]),
        le_u32(r) =~= b@.subrange(pos as int, pos + 4),
{
    proof {
        lemma_le_u32(0, b@[pos as int], b@[pos + 1], b@[pos + 2], b@[pos + 3]);
    }
    (b[pos] as u32) | ((b[pos + 1] as u32) << 8u32) | ((b[pos + 2] as u32) << 16u32) | ((b[pos
        + 3] as u32) << 24u32)
}

/// The `u64` whose little-endian bytes start at `pos`.
pub fn read_u64_le(b: &[u8], pos: usize) -> (r: u64)
    requires
        pos + 8 <= b@.len(),
    ensures
        r == u64_of(b@.subrange(pos as int, pos + 8)),
        le_u64(r) =~= b@.subrange(pos as int, pos + 8),
{
    let ghost s = b@.subrange(pos as int, pos + 8);
    proof {
        lemma_le_u64(0, s);
    }
    (b[pos] as u64) | ((b[pos + 1] as u64) << 8u64) | ((b[pos + 2] as u64) << 16u64) | ((b[pos
        + 3] as u64) << 24u64) | ((b[pos + 4] as u64) << 32u64) | ((b[pos + 5] as u64) << 40u64)
        | ((b[pos + 6] as u64) << 48u64) | ((b[pos + 7] as u64) << 56u64)
}

/// Appends `src` to `out`.
pub fn append_bytes(out: &mut Vec<u8>, src: &[u8])
    ensures
        final(out)@ == old(out)@ + src@,
{
    let mut i: usize = 0;
    while i < src.len()
        invariant
            i <= src@.len(),
            out@ == old(out)@ + src@.subrange(0, i as int),
        decreases src@.len() - i,
    {
        out.push(src[i]);
        i = i + 1;
        assert(out@ =~= old(out)@ + src@.subrange(0, i as int));
    }
    assert(src@.subrange(0, i as int) =~= src@);
}

} // verus!
