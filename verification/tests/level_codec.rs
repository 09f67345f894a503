use lib::level::{DecodedLevel, DecodedName, LevelKind, NameKind};
use lib::level_codec::{
    decode_level, decode_level_prefix, decode_name, encode_decoded_level, encode_decoded_name,
    DecodeError, NAME_ANONYMOUS, NAME_NUM, NAME_STR, TAG_IMAX, TAG_MAX, TAG_MVAR, TAG_PARAM,
    TAG_SUCC, TAG_ZERO,
};

fn zero() -> DecodedLevel {
    DecodedLevel::Zero
}
fn succ(u: DecodedLevel) -> DecodedLevel {
    DecodedLevel::Succ(Box::new(u))
}
fn str_name(s: &[u8]) -> DecodedName {
    DecodedName::Str(Box::new(DecodedName::Anonymous), s.to_vec())
}
fn param(s: &[u8]) -> DecodedLevel {
    DecodedLevel::Param(str_name(s))
}

fn level_roundtrips(d: DecodedLevel) {
    let mut out = Vec::new();
    encode_decoded_level(&d, &mut out).unwrap();
    assert_eq!(decode_level(&out).unwrap(), d, "level encode/decode roundtrip");
}

fn name_roundtrips(d: DecodedName) {
    let mut out = Vec::new();
    encode_decoded_name(&d, &mut out).unwrap();
    assert_eq!(decode_name(&out).unwrap(), d, "name encode/decode roundtrip");
}

#[test]
fn encode_level_zero() {
    let z = DecodedLevel::Zero;
    let mut out = Vec::new();
    encode_decoded_level(&z, &mut out).unwrap();
    assert_eq!(out, vec![TAG_ZERO]);
}

#[test]
fn build_zero_roundtrip() {
    level_roundtrips(zero());
}

#[test]
fn build_succ_roundtrip() {
    level_roundtrips(succ(succ(zero())));
}

#[test]
fn build_max_imax_roundtrip() {
    level_roundtrips(DecodedLevel::Max(
        Box::new(succ(param(b"u"))),
        Box::new(DecodedLevel::IMax(Box::new(param(b"v")), Box::new(zero()))),
    ));
}

#[test]
fn build_param_roundtrip() {
    level_roundtrips(param(b"u"));
}

#[test]
fn build_mvar_roundtrip() {
    level_roundtrips(DecodedLevel::MVar(DecodedName::Num(
        Box::new(str_name(b"_uniq")),
        42,
    )));
}

#[test]
fn build_anonymous_name_roundtrip() {
    name_roundtrips(DecodedName::Anonymous);
}

#[test]
fn build_str_name_roundtrip() {
    name_roundtrips(str_name(b"hello"));
}

#[test]
fn build_nested_name_roundtrip() {
    name_roundtrips(DecodedName::Num(
        Box::new(DecodedName::Str(
            Box::new(str_name(b"Lean")),
            b"Meta".to_vec(),
        )),
        7,
    ));
}

#[test]
fn encoding_layout() {
    let mut out = Vec::new();
    encode_decoded_level(
        &DecodedLevel::Max(Box::new(succ(zero())), Box::new(param(b"u"))),
        &mut out,
    )
    .unwrap();
    assert_eq!(
        out,
        vec![TAG_MAX, TAG_SUCC, TAG_ZERO, TAG_PARAM, NAME_STR, NAME_ANONYMOUS, 1, 0, 0, 0, b'u']
    );
    let mut out = Vec::new();
    encode_decoded_name(&DecodedName::Num(Box::new(DecodedName::Anonymous), 0x0102), &mut out)
        .unwrap();
    assert_eq!(out, vec![NAME_NUM, NAME_ANONYMOUS, 2, 1, 0, 0, 0, 0, 0, 0]);
    let mut out = Vec::new();
    encode_decoded_level(
        &DecodedLevel::IMax(Box::new(zero()), Box::new(DecodedLevel::MVar(DecodedName::Anonymous))),
        &mut out,
    )
    .unwrap();
    assert_eq!(out, vec![TAG_IMAX, TAG_ZERO, TAG_MVAR, NAME_ANONYMOUS]);
}

#[test]
fn prefix_decoding_returns_rest() {
    let mut out = Vec::new();
    encode_decoded_level(&succ(zero()), &mut out).unwrap();
    out.extend_from_slice(&[7, 8]);
    let (l, rest) = decode_level_prefix(&out).unwrap();
    assert_eq!(l, succ(zero()));
    assert_eq!(rest, &[7, 8]);
}

#[test]
fn decode_errors() {
    assert_eq!(decode_level(&[]), Err(DecodeError::Malformed));
    assert_eq!(decode_level(&[TAG_SUCC]), Err(DecodeError::Malformed));
    assert_eq!(decode_level(&[9]), Err(DecodeError::Malformed));
    assert_eq!(decode_level(&[TAG_ZERO, 0]), Err(DecodeError::TrailingBytes));
    assert_eq!(decode_name(&[NAME_STR, NAME_ANONYMOUS, 5, 0, 0, 0, b'a']), Err(DecodeError::Malformed));
    assert_eq!(decode_name(&[NAME_NUM, NAME_ANONYMOUS, 1, 2, 3]), Err(DecodeError::Malformed));
    assert_eq!(decode_name(&[NAME_ANONYMOUS, 1]), Err(DecodeError::TrailingBytes));
    assert!(decode_level_prefix(&[TAG_MAX, TAG_ZERO]).is_err());
}

#[test]
fn kinds() {
    assert_eq!(zero().kind(), LevelKind::Zero);
    assert_eq!(succ(zero()).kind(), LevelKind::Succ);
    assert_eq!(DecodedLevel::Max(Box::new(zero()), Box::new(zero())).kind(), LevelKind::Max);
    assert_eq!(DecodedLevel::IMax(Box::new(zero()), Box::new(zero())).kind(), LevelKind::IMax);
    assert_eq!(param(b"u").kind(), LevelKind::Param);
    assert_eq!(DecodedLevel::MVar(DecodedName::Anonymous).kind(), LevelKind::MVar);
    assert_eq!(DecodedName::Anonymous.kind(), NameKind::Anonymous);
    assert_eq!(str_name(b"x").kind(), NameKind::Str);
    assert_eq!(DecodedName::Num(Box::new(DecodedName::Anonymous), 1).kind(), NameKind::Num);
}
