//! The command line of the differential test runner.
use vstd::prelude::*;
use vstd::string::*;

use crate::level::bytes_eq;

verus! {

broadcast use vstd::utf8::encode_utf8_decode_utf8;

/// What the runner is asked to do.
pub struct Args {
    /// The Lean function whose corpus to replay.
    pub function: String,
    /// The path of the corpus file.
    pub corpus: String,
    /// Stop after this many records.
    pub limit: Option<usize>,
}

/// A parsed command line.
pub enum Command {
    /// Show the usage and exit.
    Help,
    /// Replay a corpus.
    Run(Args),
}

/// The view of a parsed command line.
pub enum SpecCommand {
    Help,
    Run { function: Seq<char>, corpus: Seq<char>, limit: Option<usize> },
}

/// The usage text.
pub const USAGE: &'static str = "usage: lean-diff --function <fqn> --corpus <path>

  --function <fqn>    Lean function whose corpus to replay (e.g. Lean.Meta.isLevelDefEqAuxImpl)
  --corpus  <path>    path to the corpus file (typically <fqn>.bin)
  --limit   <N>       stop after N records (default: all)
  --help              show this help and exit
";

/// The value of a string of decimal digits.
pub open spec fn digits_value(s: Seq<char>) -> nat
    decreases s.len(),
{
    if s.len() == 0 {
        0
    } else {
        digits_value(s.drop_last()) * 10 + ((s.last() as nat) - ('0' as nat)) as nat
    }
}

/// Every character of `s` is an ASCII digit.
pub open spec fn all_digits(s: Seq<char>) -> bool {
    forall|i: int| 0 <= i < s.len() ==> '0' <= #[trigger] s[i] <= '9'
}

/// The value of `s` as an unsigned decimal number: an optional `+` followed
/// by one or more ASCII digits.
pub open spec fn decimal_value(s: Seq<char>) -> Option<nat> {
    let t = if s.len() > 0 && s[0] == '+' {
        s.drop_first()
    } else {
        s
    };
    if t.len() > 0 && all_digits(t) {
        Some(digits_value(t))
    } else {
        None
    }
}

/// The message of the error that parsing `s` as a `usize` fails with.
pub uninterp spec fn parse_usize_error_text(s: Seq<char>) -> Seq<char>;

/// Calls `str::parse::<usize>`. Per its documentation it succeeds exactly
/// on an optional `+` followed by digits whose value fits, with that value;
/// the text of its error (`ParseIntError`'s `Display`) is left unstated
/// beyond being a function of the input.
#[verifier::external_body]
fn parse_usize(s: &str) -> (r: Result<usize, String>)
    ensures
        match decimal_value(s@) {
            Some(n) => if n <= usize::MAX {
                r == Ok::<usize, String>(n as usize)
            } else {
                r matches Err(e) && e@ == parse_usize_error_text(s@)
            },
            None => r matches Err(e) && e@ == parse_usize_error_text(s@),
        },
{
    match s.parse::<usize>() {
        Ok(n) => Ok(n),
        Err(e) => Err(e.to_string()),
    }
}

/// The result of parsing `--limit`'s value `v`.
pub open spec fn limit_result(v: Seq<char>) -> Result<usize, Seq<char>> {
    match decimal_value(v) {
        Some(n) => if n <= usize::MAX {
            Ok(n as usize)
        } else {
            Err("--limit: "@ + parse_usize_error_text(v))
        },
        None => Err("--limit: "@ + parse_usize_error_text(v)),
    }
}

/// Parses the arguments from index `i` on, given what was parsed before.
pub open spec fn parse_from(
    argv: Seq<Seq<char>>,
    i: int,
    function: Option<Seq<char>>,
    corpus: Option<Seq<char>>,
    limit: Option<usize>,
) -> Result<SpecCommand, Seq<char>>
    decreases argv.len() - i,
{
    if i < 0 || i >= argv.len() {
        match (function, corpus) {
            (None, _) => Err("--function is required"@),
            (Some(_), None) => Err("--corpus is required"@),
            (Some(f), Some(c)) => Ok(SpecCommand::Run { function: f, corpus: c, limit }),
        }
    } else {
        let arg = argv[i];
        if arg == "--help"@ || arg == "-h"@ {
            Ok(SpecCommand::Help)
        } else if arg == "--function"@ {
            if i + 1 >= argv.len() {
                Err("--function requires a value"@)
            } else {
                parse_from(argv, i + 2, Some(argv[i + 1]), corpus, limit)
            }
        } else if arg == "--corpus"@ {
            if i + 1 >= argv.len() {
                Err("--corpus requires a value"@)
            } else {
                parse_from(argv, i + 2, function, Some(argv[i + 1]), limit)
            }
        } else if arg == "--limit"@ {
            if i + 1 >= argv.len() {
                Err("--limit requires a value"@)
            } else {
                match limit_result(argv[i + 1]) {
                    Ok(n) => parse_from(argv, i + 2, function, corpus, Some(n)),
                    Err(e) => Err(e),
                }
            }
        } else {
            Err("unknown argument: "@ + arg)
        }
    }
}

/// The view of a parsed command line.
pub open spec fn command_view(c: Command) -> SpecCommand {
    match c {
        Command::Help => SpecCommand::Help,
        Command::Run(a) => SpecCommand::Run { function: a.function@, corpus: a.corpus@, limit: a.limit },
    }
}

/// The views of the arguments.
pub open spec fn arg_views(argv: Seq<String>) -> Seq<Seq<char>> {
    argv.map_values(|a: String| a@)
}

/// `s` is the literal `lit`.
fn is_literal(s: &String, lit: &str) -> (r: bool)
    ensures
        r == (s@ == lit@),
{
    let r = bytes_eq(s.as_str().as_bytes(), lit.as_bytes());
    proof {
        assert(vstd::utf8::decode_utf8(vstd::utf8::encode_utf8(s@)) == s@);
        assert(vstd::utf8::decode_utf8(vstd::utf8::encode_utf8(lit@)) == lit@);
    }
    r
}

/// Parses the arguments of the runner (without the program name).
pub fn parse_args(argv: &[String]) -> (r: Result<Command, String>)
    ensures
        match (r, parse_from(arg_views(argv@), 0, None, None, None)) {
            (Ok(c), Ok(sc)) => command_view(c) == sc,
            (Err(e), Err(se)) => e@ == se,
            _ => false,
        },
{
    let ghost av = arg_views(argv@);
    let mut function: Option<String> = None;
    let mut corpus: Option<String> = None;
    let mut limit: Option<usize> = None;
    let mut i: usize = 0;
    while i < argv.len()
        invariant
            av == arg_views(argv@),
            i <= argv@.len(),
            parse_from(av, 0, None, None, None) == parse_from(
                av,
                i as int,
                match function {
                    Some(f) => Some(f@),
                    None => None,
                },
                match corpus {
                    Some(c) => Some(c@),
                    None => None,
                },
                limit,
            ),
        decreases argv@.len() - i,
    {
        let arg = &argv[i];
        assert(av[i as int] == arg@);
        if is_literal(arg, "--help") || is_literal(arg, "-h") {
            return Ok(Command::Help);
        } else if is_literal(arg, "--function") {
            if i + 1 >= argv.len() {
                return Err("--function requires a value".to_owned());
            }
            assert(av[i + 1] == argv@[i + 1]@);
            function = Some(argv[i + 1].clone());
            i = i + 2;
        } else if is_literal(arg, "--corpus") {
            if i + 1 >= argv.len() {
                return Err("--corpus requires a value".to_owned());
            }
            assert(av[i + 1] == argv@[i + 1]@);
            corpus = Some(argv[i + 1].clone());
            i = i + 2;
        } else if is_literal(arg, "--limit") {
            if i + 1 >= argv.len() {
                return Err("--limit requires a value".to_owned());
            }
            assert(av[i + 1] == argv@[i + 1]@);
            match parse_usize(argv[i + 1].as_str()) {
                Ok(n) => {
                    limit = Some(n);
                },
                Err(e) => {
                    let mut msg = "--limit: ".to_owned();
                    msg.append(e.as_str());
                    return Err(msg);
                },
            }
            i = i + 2;
        } else {
            let mut msg = "unknown argument: ".to_owned();
            msg.append(arg.as_str());
            return Err(msg);
        }
    }
    match (function, corpus) {
        (None, _) => Err("--function is required".to_owned()),
        (Some(_), None) => Err("--corpus is required".to_owned()),
        (Some(function), Some(corpus)) => Ok(Command::Run(Args { function, corpus, limit })),
    }
}


/// `p` is whole `--function` and `--corpus` options, each followed by its
/// value.
pub open spec fn value_options(p: Seq<Seq<char>>) -> bool {
    &&& p.len() % 2 == 0
    &&& forall|j: int|
        0 <= j < p.len() && j % 2 == 0 ==> #[trigger] p[j] == "--function"@ || p[j] == "--corpus"@
}

/// `r` with its limit set to `n` where it is a run.
pub open spec fn with_limit(r: Result<SpecCommand, Seq<char>>, n: usize) -> Result<
    SpecCommand,
    Seq<char>,
> {
    match r {
        Ok(SpecCommand::Run { function, corpus, limit: _ }) => Ok(
            SpecCommand::Run { function, corpus, limit: Some(n) },
        ),
        _ => r,
    }
}

proof fn lemma_limit_in_rest(
    a: Seq<Seq<char>>,
    b: Seq<Seq<char>>,
    j: int,
    function: Option<Seq<char>>,
    corpus: Option<Seq<char>>,
    limit: Option<usize>,
    n: usize,
)
    requires
        0 <= j <= b.len(),
        a.len() == b.len() + 2,
        forall|k: int| j <= k < b.len() ==> #[trigger] b[k] == a[k + 2] && b[k] != "--limit"@,
    ensures
        parse_from(a, j + 2, function, corpus, Some(n)) == with_limit(
            parse_from(b, j, function, corpus, limit),
            n,
        ),
    decreases b.len() - j,
{
    if j < b.len() {
        assert(b[j] == a[j + 2]);
        if j + 1 < b.len() {
            assert(b[j + 1] == a[j + 3]);
        }
        if b[j] == "--function"@ && j + 1 < b.len() {
            lemma_limit_in_rest(a, b, j + 2, Some(b[j + 1]), corpus, limit, n);
        } else if b[j] == "--corpus"@ && j + 1 < b.len() {
            lemma_limit_in_rest(a, b, j + 2, function, Some(b[j + 1]), limit, n);
        }
    }
}

proof fn lemma_limit_after_options(
    p: Seq<Seq<char>>,
    v: Seq<char>,
    r: Seq<Seq<char>>,
    i: int,
    function: Option<Seq<char>>,
    corpus: Option<Seq<char>>,
    limit: Option<usize>,
    n: usize,
)
    requires
        value_options(p),
        0 <= i <= p.len(),
        i % 2 == 0,
        forall|k: int| 0 <= k < r.len() ==> #[trigger] r[k] != "--limit"@,
        decimal_value(v) == Some(n as nat),
    ensures
        parse_from(p + seq!["--limit"@, v] + r, i, function, corpus, limit) == with_limit(
            parse_from(p + r, i, function, corpus, limit),
            n,
        ),
    decreases p.len() - i,
{
    let a = p + seq!["--limit"@, v] + r;
    let b = p + r;
    reveal_strlit("--help");
    reveal_strlit("-h");
    reveal_strlit("--function");
    reveal_strlit("--corpus");
    reveal_strlit("--limit");
    if i == p.len() {
        assert(a[i] == "--limit"@);
        assert(a[i + 1] == v);
        assert(limit_result(v) == Ok::<usize, Seq<char>>(n));
        assert forall|k: int| i <= k < b.len() implies #[trigger] b[k] == a[k + 2] && b[k]
            != "--limit"@ by {
            assert(b[k] == r[k - i]);
            assert(a[k + 2] == r[k - i]);
        }
        lemma_limit_in_rest(a, b, i, function, corpus, limit, n);
    } else {
        assert(p[i] == "--function"@ || p[i] == "--corpus"@);
        assert(a[i] == p[i] && b[i] == p[i]);
        assert(a[i + 1] == p[i + 1] && b[i + 1] == p[i + 1]);
        if p[i] == "--function"@ {
            lemma_limit_after_options(p, v, r, i + 2, Some(p[i + 1]), corpus, limit, n);
        } else {
            lemma_limit_after_options(p, v, r, i + 2, function, Some(p[i + 1]), limit, n);
        }
    }
}

/// A `--limit n` given after whole `--function`/`--corpus` options, with no
/// other `--limit` after it, sets the limit of the run to `n` whatever
/// comes after it, and changes nothing else: parsing gives what parsing
/// the arguments without it gives, with the limit of a run set to `n`.
pub proof fn lemma_limit_is_kept(p: Seq<Seq<char>>, v: Seq<char>, r: Seq<Seq<char>>, n: usize)
    requires
        value_options(p),
        forall|k: int| 0 <= k < r.len() ==> #[trigger] r[k] != "--limit"@,
        decimal_value(v) == Some(n as nat),
    ensures
        parse_from(p + seq!["--limit"@, v] + r, 0, None, None, None) == with_limit(
            parse_from(p + r, 0, None, None, None),
            n,
        ),
        parse_from(p + seq!["--limit"@, v] + r, 0, None, None, None) matches Ok(
            SpecCommand::Run { limit, .. },
        ) ==> limit == Some(n),
{
    lemma_limit_after_options(p, v, r, 0, None, None, None, n);
}

} // verus!
