use lib::level::{DecodedLevel, DecodedName};
use lib::level_codec::{encode_decoded_level, TAG_SUCC};
use lib::record::Record;
use lib::registry::{Registry, ReplayFn, ReplayOutcome};
use lib::replay::{register, IsLevelDefEq, FQN};
use lib::text::decimal_string;

fn encode_pair(lhs: &DecodedLevel, rhs: &DecodedLevel) -> Vec<u8> {
    let mut out = Vec::new();
    encode_decoded_level(lhs, &mut out).unwrap();
    encode_decoded_level(rhs, &mut out).unwrap();
    out
}

fn record_with(input: Vec<u8>) -> Record {
    Record {
        input,
        state_in: vec![],
        output: vec![],
        state_out: vec![],
        message_delta: vec![],
    }
}

#[test]
fn zero_pair_matches() {
    let bytes = encode_pair(&DecodedLevel::Zero, &DecodedLevel::Zero);
    assert_eq!(
        IsLevelDefEq.replay(&record_with(bytes)),
        ReplayOutcome::Match
    );
}

#[test]
fn nontrivial_pair_matches() {
    let lhs = DecodedLevel::Succ(Box::new(DecodedLevel::Zero));
    let rhs = DecodedLevel::Max(
        Box::new(DecodedLevel::Zero),
        Box::new(DecodedLevel::Param(DecodedName::Str(
            Box::new(DecodedName::Anonymous),
            b"u".to_vec(),
        ))),
    );
    let bytes = encode_pair(&lhs, &rhs);
    assert_eq!(
        IsLevelDefEq.replay(&record_with(bytes)),
        ReplayOutcome::Match
    );
}

#[test]
fn truncated_input_diverges() {
    let bytes = vec![TAG_SUCC];
    match IsLevelDefEq.replay(&record_with(bytes)) {
        ReplayOutcome::Diverged { .. } => {}
        other => panic!("expected Diverged, got {other:?}"),
    }
}

#[test]
fn trailing_bytes_diverge() {
    let mut bytes = encode_pair(&DecodedLevel::Zero, &DecodedLevel::Zero);
    bytes.push(0xff);
    match IsLevelDefEq.replay(&record_with(bytes)) {
        ReplayOutcome::Diverged { .. } => {}
        other => panic!("expected Diverged, got {other:?}"),
    }
}

#[test]
fn divergence_details() {
    assert_eq!(
        IsLevelDefEq.replay(&record_with(vec![TAG_SUCC])),
        ReplayOutcome::Diverged {
            detail: "decode lhs: Malformed".to_string()
        }
    );
    assert_eq!(
        IsLevelDefEq.replay(&record_with(vec![0, 9])),
        ReplayOutcome::Diverged {
            detail: "decode rhs: Malformed".to_string()
        }
    );
    let mut bytes = encode_pair(&DecodedLevel::Zero, &DecodedLevel::Zero);
    bytes.extend_from_slice(&[0; 12]);
    assert_eq!(
        IsLevelDefEq.replay(&record_with(bytes)),
        ReplayOutcome::Diverged {
            detail: "input has 12 trailing bytes after lhs+rhs".to_string()
        }
    );
}

#[test]
fn decimal_notation() {
    assert_eq!(decimal_string(0), "0");
    assert_eq!(decimal_string(7), "7");
    assert_eq!(decimal_string(10), "10");
    assert_eq!(decimal_string(1234567890), "1234567890");
}

#[test]
fn register_adds_is_level_def_eq() {
    let mut r: Registry = Registry::new();
    register(&mut r);
    assert_eq!(r.names(), vec![FQN]);
    assert_eq!(FQN, "Lean.Meta.isLevelDefEqAuxImpl");
    let bytes = encode_pair(&DecodedLevel::Zero, &DecodedLevel::Zero);
    assert_eq!(
        r.get(FQN).unwrap().replay(&record_with(bytes)),
        ReplayOutcome::Match
    );
    let mut extra = encode_pair(&DecodedLevel::Zero, &DecodedLevel::Zero);
    extra.push(0);
    assert_eq!(
        r.get(FQN).unwrap().replay(&record_with(extra.clone())),
        IsLevelDefEq.replay(&record_with(extra))
    );
    assert!(matches!(
        r.get(FQN).unwrap().replay(&record_with(vec![])),
        ReplayOutcome::Diverged { .. }
    ));
}
