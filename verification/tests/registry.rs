use lib::record::Record;
use lib::registry::{builtin, Registry, ReplayFn, ReplayOutcome};

struct AlwaysMatch;
impl ReplayFn for AlwaysMatch {
    fn replay(&self, _record: &Record) -> ReplayOutcome {
        ReplayOutcome::Match
    }
}

struct AlwaysSkip;
impl ReplayFn for AlwaysSkip {
    fn replay(&self, _record: &Record) -> ReplayOutcome {
        ReplayOutcome::Skipped {
            reason: "skip".to_string(),
        }
    }
}

#[test]
fn register_and_lookup() {
    let mut r: Registry = Registry::new();
    assert!(r.get("Foo.bar").is_none());
    r.register("Foo.bar", Box::new(AlwaysMatch));
    assert!(r.get("Foo.bar").is_some());
    assert!(r.get("Other").is_none());
    let names: Vec<&str> = r.names();
    assert_eq!(names, vec!["Foo.bar"]);
}

#[test]
fn always_match_outcome() {
    let f = AlwaysMatch;
    let rec = Record::default();
    assert_eq!(f.replay(&rec), ReplayOutcome::Match);
}

#[test]
fn builtin_starts_empty() {
    let r = builtin();
    assert_eq!(r.names().len(), 0);
}

#[test]
fn names_come_in_order_and_replace() {
    let mut r: Registry = Registry::default();
    r.register("b", Box::new(AlwaysMatch));
    r.register("a", Box::new(AlwaysMatch));
    r.register("c", Box::new(AlwaysMatch));
    r.register("b", Box::new(AlwaysSkip));
    assert_eq!(r.names(), vec!["a", "b", "c"]);
    let rec = Record::default();
    assert_eq!(r.get("a").unwrap().replay(&rec), ReplayOutcome::Match);
    assert_eq!(
        r.get("b").unwrap().replay(&rec),
        ReplayOutcome::Skipped {
            reason: "skip".to_string()
        }
    );
}
