use lib::level::{DecodedLevel, DecodedName};
use lib::level_codec::encode_decoded_level;
use lib::level_def_eq::{capture_record, quick_is_level_def_eq};

fn zero() -> DecodedLevel {
    DecodedLevel::Zero
}
fn succ(u: DecodedLevel) -> DecodedLevel {
    DecodedLevel::Succ(Box::new(u))
}
fn max(a: DecodedLevel, b: DecodedLevel) -> DecodedLevel {
    DecodedLevel::Max(Box::new(a), Box::new(b))
}
fn param(s: &[u8]) -> DecodedLevel {
    DecodedLevel::Param(DecodedName::Str(Box::new(DecodedName::Anonymous), s.to_vec()))
}

#[test]
fn same_base_decides() {
    assert_eq!(quick_is_level_def_eq(&succ(param(b"u")), &succ(param(b"u"))), Ok(true));
    assert_eq!(quick_is_level_def_eq(&succ(succ(zero())), &succ(zero())), Ok(false));
    assert_eq!(quick_is_level_def_eq(&zero(), &zero()), Ok(true));
    assert_eq!(
        quick_is_level_def_eq(&max(param(b"u"), zero()), &succ(max(param(b"u"), zero()))),
        Ok(false)
    );
}

#[test]
fn different_base_is_handed_on_stripped() {
    let (u, v) = (param(b"u"), param(b"v"));
    assert_eq!(quick_is_level_def_eq(&u, &v), Err((&u, &v)));
    let (u, v) = (succ(succ(succ(param(b"u")))), succ(zero()));
    assert_eq!(
        quick_is_level_def_eq(&u, &v),
        Err((&succ(succ(param(b"u"))), &zero()))
    );
    let (u, v) = (max(param(b"u"), zero()), succ(param(b"u")));
    assert_eq!(quick_is_level_def_eq(&u, &v), Err((&u, &v)));
}

#[test]
fn capture_record_holds_both_encodings() {
    let u = succ(param(b"u"));
    let v = zero();
    let rec = capture_record(&u, &v).unwrap();
    let mut expected = Vec::new();
    encode_decoded_level(&u, &mut expected).unwrap();
    encode_decoded_level(&v, &mut expected).unwrap();
    assert_eq!(rec.input, expected);
    assert!(rec.state_in.is_empty() && rec.output.is_empty());
    assert!(rec.state_out.is_empty() && rec.message_delta.is_empty());
}
