use lib::level::{DecodedLevel, DecodedName};

fn zero() -> DecodedLevel {
    DecodedLevel::Zero
}
fn succ(u: DecodedLevel) -> DecodedLevel {
    DecodedLevel::Succ(Box::new(u))
}
fn max(a: DecodedLevel, b: DecodedLevel) -> DecodedLevel {
    DecodedLevel::Max(Box::new(a), Box::new(b))
}
fn param(s: &[u8]) -> DecodedLevel {
    DecodedLevel::Param(DecodedName::Str(
        Box::new(DecodedName::Anonymous),
        s.to_vec(),
    ))
}

#[test]
fn occurs_reflexive_and_nested() {
    assert!(param(b"u").occurs(&param(b"u")));
    assert!(param(b"u").occurs(&succ(succ(param(b"u")))));
    assert!(param(b"u").occurs(&max(zero(), param(b"u"))));
    assert!(!param(b"u").occurs(&max(zero(), param(b"v"))));
    assert!(!param(b"u").occurs(&succ(param(b"v"))));
}

#[test]
fn strict_occurs_max_proper_subterm() {
    assert!(param(b"u").strict_occurs_max(&max(succ(param(b"u")), param(b"v"))));
    assert!(!param(b"u").strict_occurs_max(&max(param(b"u"), param(b"v"))));
    assert!(!param(b"u").strict_occurs_max(&succ(param(b"u"))));
    assert!(!param(b"u").strict_occurs_max(&param(b"u")));
    assert!(param(b"u").strict_occurs_max(&max(param(b"v"), succ(param(b"u")))));
}

#[test]
fn strict_occurs_max_looks_into_nested_max() {
    assert!(param(b"u").strict_occurs_max(&max(param(b"v"), max(param(b"w"), succ(param(b"u"))))));
    assert!(!param(b"u").strict_occurs_max(&max(param(b"v"), max(param(b"w"), param(b"u")))));
}

#[test]
fn occurs_is_transitive_on_example() {
    let a = succ(param(b"u"));
    let b = max(zero(), succ(a.clone()));
    assert!(param(b"u").occurs(&a));
    assert!(a.occurs(&b));
    assert!(param(b"u").occurs(&b));
}
