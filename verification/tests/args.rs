use lib::args::{parse_args, Command, USAGE};

fn argv(xs: &[&str]) -> Vec<String> {
    xs.iter().map(|s| s.to_string()).collect()
}

fn run(xs: &[&str]) -> Result<(String, String, Option<usize>), String> {
    match parse_args(&argv(xs))? {
        Command::Help => Err("help".to_string()),
        Command::Run(a) => Ok((a.function, a.corpus, a.limit)),
    }
}

#[test]
fn parses_all_options() {
    assert_eq!(
        run(&["--function", "Lean.Meta.isLevelDefEqAuxImpl", "--corpus", "x.bin", "--limit", "12"]),
        Ok(("Lean.Meta.isLevelDefEqAuxImpl".to_string(), "x.bin".to_string(), Some(12)))
    );
    assert_eq!(
        run(&["--corpus", "c", "--function", "f"]),
        Ok(("f".to_string(), "c".to_string(), None))
    );
    assert_eq!(
        run(&["--corpus", "c", "--function", "f", "--limit", "+7"]),
        Ok(("f".to_string(), "c".to_string(), Some(7)))
    );
}

#[test]
fn help_wins() {
    assert!(matches!(parse_args(&argv(&["--help"])), Ok(Command::Help)));
    assert!(matches!(parse_args(&argv(&["--function", "f", "-h", "--bogus"])), Ok(Command::Help)));
    assert!(USAGE.starts_with("usage: lean-diff"));
}

#[test]
fn errors() {
    assert_eq!(run(&[]), Err("--function is required".to_string()));
    assert_eq!(run(&["--function", "f"]), Err("--corpus is required".to_string()));
    assert_eq!(run(&["--function"]), Err("--function requires a value".to_string()));
    assert_eq!(run(&["--corpus"]), Err("--corpus requires a value".to_string()));
    assert_eq!(run(&["--limit"]), Err("--limit requires a value".to_string()));
    assert_eq!(run(&["--bogus"]), Err("unknown argument: --bogus".to_string()));
    assert_eq!(
        run(&["--limit", "x"]),
        Err(format!("--limit: {}", "x".parse::<usize>().unwrap_err()))
    );
}
