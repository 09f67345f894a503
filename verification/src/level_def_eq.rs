//! The part of level definitional equality that needs no solver: levels
//! that agree below their `Succ` chains are equal exactly when their
//! offsets are.
use vstd::prelude::*;

use crate::level::{add_offset, base, lemma_base_offset, offset, DecodedLevel, SpecLevel};
use crate::level_codec::{emit_level, encode_decoded_level, level_encodable};
use crate::record::Record;

verus! {

/// The quick answer for `u =?= v`: decided where both levels have the same
/// base (then they are equal exactly when their offsets are), undecided
/// (`None`) otherwise.
pub open spec fn quick_def_eq(u: SpecLevel, v: SpecLevel) -> Option<bool> {
    if base(u) == base(v) {
        Some(offset(u) == offset(v))
    } else {
        None
    }
}

/// The smaller of two numbers.
pub open spec fn nat_min(a: nat, b: nat) -> nat {
    if a <= b {
        a
    } else {
        b
    }
}

/// Decides `u =?= v` where it needs no solver: common `Succ`s are stripped
/// from both sides; then if the two levels have the same base the answer
/// is whether their offsets agree (`Ok`), else the question is handed on
/// to the full procedure as the pair of stripped levels (`Err`): each
/// keeps its base and loses as many `Succ`s as the smaller offset.
pub fn quick_is_level_def_eq<'a>(u: &'a DecodedLevel, v: &'a DecodedLevel) -> (r: Result<
    bool,
    (&'a DecodedLevel, &'a DecodedLevel),
>)
    requires
        offset(u@) <= usize::MAX,
        offset(v@) <= usize::MAX,
    ensures
        r is Ok <==> quick_def_eq(u@, v@) is Some,
        r matches Ok(b) ==> quick_def_eq(u@, v@) == Some(b) && b == (u@ == v@),
        r matches Err((a, b)) ==> base(a@) == base(u@) && base(b@) == base(v@) && offset(a@)
            == offset(u@) - nat_min(offset(u@), offset(v@)) && offset(b@) == offset(v@) - nat_min(
            offset(u@),
            offset(v@),
        ),
{
    let mut a = u;
    let mut b = v;
    loop
        invariant
            base(a@) == base(u@),
            base(b@) == base(v@),
            offset(u@) - offset(a@) == offset(v@) - offset(b@),
            offset(a@) <= offset(u@) <= usize::MAX,
            offset(b@) <= offset(v@) <= usize::MAX,
        ensures
            base(a@) == base(u@),
            base(b@) == base(v@),
            offset(u@) - offset(a@) == offset(v@) - offset(b@),
            offset(a@) <= offset(u@) <= usize::MAX,
            offset(b@) <= offset(v@) <= usize::MAX,
            offset(a@) == 0 || offset(b@) == 0,
        decreases offset(a@),
    {
        match (a, b) {
            (DecodedLevel::Succ(x), DecodedLevel::Succ(y)) => {
                a = &**x;
                b = &**y;
            },
            _ => {
                break ;
            },
        }
    }
    proof {
        lemma_base_offset(u@);
        lemma_base_offset(v@);
    }
    if a.get_level_offset().level_eq(b.get_level_offset()) {
        Ok(a.get_offset() == b.get_offset())
    } else {
        Err((a, b))
    }
}

/// Two levels are equal exactly when their bases and their offsets are.
pub proof fn lemma_eq_iff_base_offset(u: SpecLevel, v: SpecLevel)
    ensures
        (u == v) == (base(u) == base(v) && offset(u) == offset(v)),
{
    lemma_base_offset(u);
    lemma_base_offset(v);
    if base(u) == base(v) && offset(u) == offset(v) {
        assert(add_offset(base(u), offset(u)) == add_offset(base(v), offset(v)));
    }
}


/// The record that captures a call of `isLevelDefEq` on `u` and `v`: its
/// input is the encodings of `u` and `v` back to back, its other fields are
/// empty; `None` where either level cannot be encoded.
pub fn capture_record(u: &DecodedLevel, v: &DecodedLevel) -> (r: Option<Record>)
    ensures
        r is Some <==> level_encodable(u@) && level_encodable(v@),
        r matches Some(rec) ==> rec.input@ == emit_level(u@) + emit_level(v@) && rec.state_in@.len()
            == 0 && rec.output@.len() == 0 && rec.state_out@.len() == 0 && rec.message_delta@.len()
            == 0,
{
    let mut input: Vec<u8> = Vec::new();
    if encode_decoded_level(u, &mut input).is_err() {
        return None;
    }
    if encode_decoded_level(v, &mut input).is_err() {
        return None;
    }
    Some(
        Record {
            input,
            state_in: Vec::new(),
            output: Vec::new(),
            state_out: Vec::new(),
            message_delta: Vec::new(),
        },
    )
}

} // verus!
