use lib::level::{DecodedLevel, DecodedName};

fn zero() -> DecodedLevel {
    DecodedLevel::Zero
}

fn succ(u: DecodedLevel) -> DecodedLevel {
    DecodedLevel::Succ(Box::new(u))
}

fn max(a: DecodedLevel, b: DecodedLevel) -> DecodedLevel {
    DecodedLevel::Max(Box::new(a), Box::new(b))
}

fn imax(a: DecodedLevel, b: DecodedLevel) -> DecodedLevel {
    DecodedLevel::IMax(Box::new(a), Box::new(b))
}

fn param(s: &[u8]) -> DecodedLevel {
    DecodedLevel::Param(DecodedName::Str(
        Box::new(DecodedName::Anonymous),
        s.to_vec(),
    ))
}

fn mvar(s: &[u8]) -> DecodedLevel {
    DecodedLevel::MVar(DecodedName::Str(
        Box::new(DecodedName::Anonymous),
        s.to_vec(),
    ))
}

fn numeral(n: usize) -> DecodedLevel {
    let mut l = zero();
    for _ in 0..n {
        l = succ(l);
    }
    l
}

#[test]
fn cheap_levels_are_unchanged() {
    assert_eq!(zero().normalize(), zero());
    assert_eq!(numeral(3).normalize(), numeral(3));
    assert_eq!(param(b"u").normalize(), param(b"u"));
    assert_eq!(succ(param(b"u")).normalize(), succ(param(b"u")));
}

#[test]
fn max_of_equal_collapses() {
    assert_eq!(max(param(b"u"), param(b"u")).normalize(), param(b"u"));
}

#[test]
fn max_with_zero_drops_zero() {
    assert_eq!(max(zero(), param(b"u")).normalize(), param(b"u"));
    assert_eq!(max(param(b"u"), zero()).normalize(), param(b"u"));
}

#[test]
fn max_keeps_larger_offset() {
    assert_eq!(
        max(param(b"u"), succ(param(b"u"))).normalize(),
        succ(param(b"u"))
    );
    assert_eq!(
        max(succ(param(b"u")), param(b"u")).normalize(),
        succ(param(b"u"))
    );
}

#[test]
fn max_of_explicit_numerals() {
    assert_eq!(max(numeral(1), numeral(3)).normalize(), numeral(3));
    assert_eq!(max(numeral(3), numeral(1)).normalize(), numeral(3));
}

#[test]
fn imax_with_zero_rhs_is_zero() {
    assert_eq!(imax(param(b"u"), zero()).normalize(), zero());
}

#[test]
fn imax_with_never_zero_rhs_becomes_max() {
    assert_eq!(
        imax(param(b"u"), succ(zero())).normalize(),
        max(succ(zero()), param(b"u")).normalize()
    );
}

#[test]
fn normalize_is_idempotent() {
    let samples = [
        max(param(b"v"), max(param(b"u"), param(b"v"))),
        imax(param(b"u"), max(param(b"v"), succ(zero()))),
        max(succ(max(param(b"a"), param(b"b"))), param(b"a")),
        max(param(b"b"), param(b"a")),
    ];
    for s in samples {
        let n = s.normalize();
        assert_eq!(n.normalize(), n, "not idempotent on {s:?}");
    }
}

#[test]
fn param_order_is_lexicographic() {
    assert_eq!(
        max(param(b"b"), param(b"a")).normalize(),
        max(param(b"a"), param(b"b"))
    );
}

#[test]
fn succ_distributes_over_max() {
    assert_eq!(
        succ(max(param(b"a"), param(b"b"))).normalize(),
        max(succ(param(b"a")), succ(param(b"b")))
    );
}

#[test]
fn explicit_numeral_subsumed_by_offset() {
    assert_eq!(max(numeral(1), succ(param(b"u"))).normalize(), succ(param(b"u")));
    assert_eq!(
        max(numeral(2), succ(param(b"u"))).normalize(),
        max(numeral(2), succ(param(b"u")))
    );
}

#[test]
fn imax_with_param_rhs_stays() {
    assert_eq!(
        imax(param(b"u"), param(b"v")).normalize(),
        imax(param(b"u"), param(b"v"))
    );
    assert_eq!(imax(zero(), param(b"v")).normalize(), param(b"v"));
    assert_eq!(imax(numeral(1), param(b"v")).normalize(), param(b"v"));
    assert_eq!(imax(param(b"v"), param(b"v")).normalize(), param(b"v"));
}

#[test]
fn params_before_mvars() {
    assert_eq!(
        max(mvar(b"a"), param(b"z")).normalize(),
        max(param(b"z"), mvar(b"a"))
    );
}

#[test]
fn numeric_names_before_string_names() {
    let num = DecodedLevel::Param(DecodedName::Num(Box::new(DecodedName::Anonymous), 3));
    assert_eq!(
        max(param(b"a"), num.clone()).normalize(),
        max(num.clone(), param(b"a"))
    );
}

#[test]
fn order_helpers() {
    assert!(DecodedLevel::norm_lt(&zero(), &param(b"u")));
    assert!(!DecodedLevel::norm_lt(&param(b"u"), &zero()));
    assert!(DecodedLevel::norm_lt(&param(b"u"), &succ(param(b"u"))));
    assert_eq!(succ(succ(param(b"u"))).get_offset(), 2);
    assert_eq!(*succ(succ(param(b"u"))).get_level_offset(), param(b"u"));
    assert!(max(zero(), succ(zero())).is_never_zero());
    assert!(!imax(succ(zero()), param(b"u")).is_never_zero());
    assert_eq!(param(b"u").add_offset(2), succ(succ(param(b"u"))));
}

#[test]
fn normal_forms_without_imax_are_fixed() {
    let samples = [
        succ(max(numeral(3), max(succ(param(b"u")), mvar(b"m")))),
        max(max(param(b"w"), numeral(1)), max(succ(succ(param(b"w"))), param(b"a"))),
        max(numeral(4), max(numeral(2), succ(succ(mvar(b"x"))))),
        succ(succ(max(param(b"a"), param(b"a")))),
    ];
    for s in samples {
        let n = s.normalize();
        assert_eq!(n.normalize(), n, "not idempotent on {s:?}");
    }
}

#[test]
fn offset_over_imax_with_never_zero_rhs_is_not_a_fixed_point() {
    let l = succ(imax(param(b"u"), succ(param(b"v"))));
    let n = l.normalize();
    assert_eq!(n, succ(max(param(b"u"), succ(param(b"v")))));
    assert_eq!(
        n.normalize(),
        max(succ(param(b"u")), succ(succ(param(b"v"))))
    );

    let l = succ(imax(zero(), max(param(b"u"), param(b"v"))));
    let n = l.normalize();
    assert_eq!(n, succ(max(param(b"u"), param(b"v"))));
    assert_eq!(n.normalize(), max(succ(param(b"u")), succ(param(b"v"))));
}

#[test]
fn sorting_orders_by_base_then_offset() {
    let sorted = DecodedLevel::sort_by_norm_lt(vec![
        mvar(b"a"),
        succ(param(b"b")),
        numeral(2),
        param(b"b"),
        param(b"a"),
    ]);
    assert_eq!(
        sorted,
        vec![numeral(2), param(b"a"), param(b"b"), succ(param(b"b")), mvar(b"a")]
    );
}

fn last_component(n: &DecodedName) -> Vec<u8> {
    match n {
        DecodedName::Str(_, s) => s.clone(),
        _ => Vec::new(),
    }
}

fn value(l: &DecodedLevel, params: &dyn Fn(&[u8]) -> u64, mvars: &dyn Fn(&[u8]) -> u64) -> u64 {
    match l {
        DecodedLevel::Zero => 0,
        DecodedLevel::Succ(u) => value(u, params, mvars) + 1,
        DecodedLevel::Max(a, b) => value(a, params, mvars).max(value(b, params, mvars)),
        DecodedLevel::IMax(a, b) => {
            let vb = value(b, params, mvars);
            if vb == 0 {
                0
            } else {
                value(a, params, mvars).max(vb)
            }
        }
        DecodedLevel::Param(n) => params(&last_component(n)),
        DecodedLevel::MVar(n) => mvars(&last_component(n)),
    }
}

#[test]
fn normalization_keeps_the_value() {
    let samples = [
        succ(imax(param(b"u"), succ(param(b"v")))),
        max(numeral(3), max(succ(param(b"u")), imax(param(b"v"), param(b"u")))),
        imax(max(param(b"u"), numeral(1)), max(param(b"v"), zero())),
        succ(succ(max(imax(numeral(1), param(b"w")), mvar(b"m")))),
        max(max(param(b"b"), numeral(2)), max(succ(param(b"b")), imax(param(b"a"), param(b"a")))),
    ];
    let assignments: [(u64, u64, u64, u64); 4] = [(0, 0, 0, 0), (1, 0, 2, 5), (0, 3, 0, 1), (7, 7, 1, 0)];
    for s in samples.iter() {
        let n = s.normalize();
        for &(u, v, w, m) in assignments.iter() {
            let params = |name: &[u8]| {
                if name == b"u" {
                    u
                } else if name == b"v" {
                    v
                } else if name == b"w" {
                    w
                } else if name == b"a" {
                    u + 1
                } else {
                    v + w
                }
            };
            let mvars = |_: &[u8]| m;
            assert_eq!(value(&n, &params, &mvars), value(s, &params, &mvars), "{s:?} vs {n:?}");
        }
    }
}

#[test]
fn normal_forms_with_imax_are_fixed() {
    let samples = [
        max(imax(param(b"u"), param(b"v")), param(b"w")),
        succ(succ(imax(param(b"u"), param(b"v")))),
        imax(max(param(b"u"), numeral(1)), max(param(b"v"), zero())),
        max(succ(imax(param(b"u"), param(b"v"))), imax(param(b"u"), param(b"v"))),
        imax(param(b"u"), max(param(b"v"), succ(zero()))),
    ];
    for s in samples {
        let n = s.normalize();
        assert_eq!(n.normalize(), n, "not idempotent on {s:?}");
    }
    assert_eq!(
        max(succ(imax(param(b"u"), param(b"v"))), imax(param(b"u"), param(b"v"))).normalize(),
        succ(imax(param(b"u"), param(b"v")))
    );
}

#[test]
fn skip_explicit_from_any_start() {
    let lvls = vec![zero(), numeral(2), param(b"u"), numeral(1)];
    assert_eq!(DecodedLevel::skip_explicit(&lvls, 0), 2);
    assert_eq!(DecodedLevel::skip_explicit(&lvls, 2), 2);
    assert_eq!(DecodedLevel::skip_explicit(&lvls, 3), 4);
    assert_eq!(DecodedLevel::skip_explicit(&lvls, 4), 4);
    assert_eq!(DecodedLevel::skip_explicit(&lvls, 9), 9);
}
