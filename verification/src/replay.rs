//! Replay of `isLevelDefEq` records: the input of a record must be the
//! encodings of the two levels compared, back to back.
use vstd::prelude::*;
use vstd::string::*;

use crate::level::{lemma_size_positive, SpecLevel};
use crate::level_codec::{
    decode_level_prefix, emit_level, encode_decoded_level, is_prefix, lemma_level_decode_encode,
    lemma_level_prefix_unique, level_encodable, starts_with_level, DecodeError, EncodeError,
};
use crate::level::bytes_eq;
use crate::record::Record;
use crate::text::{decimal, decimal_string};
use crate::registry::{names_sorted, Registry, ReplayFn, ReplayOutcome};

verus! {

/// The function whose records `IsLevelDefEq` replays.
pub const FQN: &'static str = "Lean.Meta.isLevelDefEqAuxImpl";

/// Replays records of `isLevelDefEq`.
pub struct IsLevelDefEq;

impl DecodeError {
    /// The name of the variant.
    pub fn variant_name(&self) -> (s: &'static str)
        ensures
            s@ == decode_error_name(*self),
    {
        match self {
            DecodeError::Malformed => "Malformed",
            DecodeError::TrailingBytes => "TrailingBytes",
        }
    }
}

/// The name of a variant of `DecodeError`.
pub open spec fn decode_error_name(e: DecodeError) -> Seq<char> {
    match e {
        DecodeError::Malformed => "Malformed"@,
        DecodeError::TrailingBytes => "TrailingBytes"@,
    }
}

/// The name of a variant of `EncodeError`.
pub open spec fn encode_error_name(e: EncodeError) -> Seq<char> {
    match e {
        EncodeError::NumNameTooLarge => "NumNameTooLarge"@,
    }
}

impl EncodeError {
    /// The name of the variant.
    pub fn variant_name(&self) -> (s: &'static str)
        ensures
            s@ == encode_error_name(*self),
    {
        match self {
            EncodeError::NumNameTooLarge => "NumNameTooLarge",
        }
    }
}

/// The level whose encoding starts `s` (where one does).
pub open spec fn leading_level(s: Seq<u8>) -> SpecLevel {
    choose|a: SpecLevel| level_encodable(a) && #[trigger] is_prefix(emit_level(a), s)
}

/// The bytes of `s` after the encoding of its leading level.
pub open spec fn after_leading_level(s: Seq<u8>) -> Seq<u8> {
    s.subrange(emit_level(leading_level(s)).len() as int, s.len() as int)
}

/// `s` is the encodings of two levels, back to back.
pub open spec fn is_level_pair(s: Seq<u8>) -> bool {
    exists|a: SpecLevel, b: SpecLevel|
        level_encodable(a) && level_encodable(b) && s == #[trigger] emit_level(a) + #[trigger] emit_level(b)
}

/// Why replaying an input diverges, or `None` where it matches.
pub open spec fn replay_detail(s: Seq<u8>) -> Option<Seq<char>> {
    if !starts_with_level(s) {
        Some("decode lhs: "@ + decode_error_name(DecodeError::Malformed))
    } else {
        let rest = after_leading_level(s);
        if !starts_with_level(rest) {
            Some("decode rhs: "@ + decode_error_name(DecodeError::Malformed))
        } else {
            let trailing = after_leading_level(rest).len();
            if trailing > 0 {
                Some("input has "@ + decimal(trailing) + " trailing bytes after lhs+rhs"@)
            } else {
                None
            }
        }
    }
}

/// The leading level of bytes that start with `a`'s encoding is `a`.
proof fn lemma_leading_level(a: SpecLevel, s: Seq<u8>)
    requires
        level_encodable(a),
        is_prefix(emit_level(a), s),
    ensures
        starts_with_level(s),
        leading_level(s) == a,
        after_leading_level(s) == s.subrange(emit_level(a).len() as int, s.len() as int),
{
    let c = leading_level(s);
    lemma_level_prefix_unique(c, a, s);
}

/// Replaying an input matches exactly when the input is the encodings of
/// two levels, back to back.
pub proof fn lemma_replay_matches_pairs(s: Seq<u8>)
    ensures
        replay_detail(s) is None <==> is_level_pair(s),
{
    if replay_detail(s) is None {
        let a = leading_level(s);
        let rest = after_leading_level(s);
        let b = leading_level(rest);
        assert(s.subrange(0, emit_level(a).len() as int) == emit_level(a));
        assert(rest.subrange(0, emit_level(b).len() as int) == emit_level(b));
        assert(rest =~= emit_level(b));
        assert(s =~= emit_level(a) + emit_level(b));
    }
    if is_level_pair(s) {
        let (a, b) = choose|a: SpecLevel, b: SpecLevel|
            level_encodable(a) && level_encodable(b) && s == #[trigger] emit_level(a)
                + #[trigger] emit_level(b);
        lemma_level_decode_encode(a, emit_level(b));
        assert(is_prefix(emit_level(a), s));
        lemma_leading_level(a, s);
        let rest = after_leading_level(s);
        assert(rest =~= emit_level(b));
        lemma_level_decode_encode(b, Seq::empty());
        assert(emit_level(b) + Seq::<u8>::empty() =~= emit_level(b));
        assert(is_prefix(emit_level(b), rest));
        lemma_leading_level(b, rest);
    }
}

impl ReplayFn for IsLevelDefEq {
    /// Decodes the two levels of the record's input, and checks that
    /// encoding them again gives the input back.
    fn replay(&self, record: &Record) -> (r: ReplayOutcome)
        ensures
            match replay_detail(record.input@) {
                None => r is Match,
                Some(d) => r matches ReplayOutcome::Diverged { detail } && detail@ == d,
            },
    {
        let input = record.input.as_slice();
        let (lhs, rest) = match decode_level_prefix(input) {
            Ok(p) => p,
            Err(e) => {
                let mut detail = "decode lhs: ".to_owned();
                detail.append(e.variant_name());
                return ReplayOutcome::Diverged { detail };
            },
        };
        proof {
            assert(input@.subrange(0, emit_level(lhs@).len() as int) =~= emit_level(lhs@));
            lemma_leading_level(lhs@, input@);
            assert(rest@ =~= after_leading_level(input@));
        }
        let (rhs, rest2) = match decode_level_prefix(rest) {
            Ok(p) => p,
            Err(e) => {
                let mut detail = "decode rhs: ".to_owned();
                detail.append(e.variant_name());
                return ReplayOutcome::Diverged { detail };
            },
        };
        proof {
            assert(rest@.subrange(0, emit_level(rhs@).len() as int) =~= emit_level(rhs@));
            lemma_leading_level(rhs@, rest@);
            assert(rest2@ =~= after_leading_level(rest@));
        }
        if rest2.len() != 0 {
            let mut detail = "input has ".to_owned();
            let count = decimal_string(rest2.len());
            detail.append(count.as_str());
            detail.append(" trailing bytes after lhs+rhs");
            return ReplayOutcome::Diverged { detail };
        }
        let mut roundtrip: Vec<u8> = Vec::with_capacity(input.len());
        if let Err(e) = encode_decoded_level(&lhs, &mut roundtrip) {
            let mut detail = "encode lhs: ".to_owned();
            detail.append(e.variant_name());
            return ReplayOutcome::Diverged { detail };
        }
        if let Err(e) = encode_decoded_level(&rhs, &mut roundtrip) {
            let mut detail = "encode rhs: ".to_owned();
            detail.append(e.variant_name());
            return ReplayOutcome::Diverged { detail };
        }
        proof {
            assert(rest2@ =~= Seq::<u8>::empty());
            assert(input@ =~= roundtrip@);
        }
        if !bytes_eq(roundtrip.as_slice(), input) {
            let mut detail = "roundtrip ".to_owned();
            detail.append(decimal_string(roundtrip.len()).as_str());
            detail.append(" bytes != original ");
            detail.append(decimal_string(input.len()).as_str());
            detail.append(" bytes");
            return ReplayOutcome::Diverged { detail };
        }
        ReplayOutcome::Match
    }
}

/// The replay function of `isLevelDefEq`, as the registry holds it.
pub open spec fn level_def_eq_replay() -> Box<dyn ReplayFn> {
    Box::new(IsLevelDefEq)
}

/// Registers `IsLevelDefEq` under `FQN`.
pub fn register(registry: &mut Registry)
    ensures
        final(registry).keys().to_set() == old(registry).keys().to_set().insert(FQN@),
        names_sorted(final(registry).keys()),
        final(registry).value_of(FQN@) == level_def_eq_replay(),
        forall|k: Seq<char>|
            k != FQN@ && old(registry).keys().contains(k) ==> #[trigger] final(registry).value_of(k)
                == old(registry).value_of(k),
{
    let f: Box<dyn ReplayFn> = Box::new(IsLevelDefEq);
    registry.register(FQN, f);
}

} // verus!
