//! Command-line arguments.
use vstd::prelude::*;
use crate::parser::strs;
use crate::suggest::{hinted, with_hint};
use crate::text::{
    all_digits, chars_eq, chars_of, digits_value, has_prefix, is_digit, parse_u128, push_chars,
    starts_with, string_from, written_number,
};

verus! {

/// The settings of one run.
#[derive(Debug, Clone)]
pub struct CliArgs {
    pub file: String,
    pub jobs: usize,
    pub target: Option<String>,
    pub clean: bool,
    pub dry_run: bool,
    pub verbose: bool,
    pub json: bool,
}

pub struct CliView {
    pub file: Seq<char>,
    pub jobs: usize,
    pub target: Option<Seq<char>>,
    pub clean: bool,
    pub dry_run: bool,
    pub verbose: bool,
    pub json: bool,
}

impl View for CliArgs {
    type V = CliView;

    open spec fn view(&self) -> CliView {
        CliView {
            file: self.file@,
            jobs: self.jobs,
            target: match self.target {
                Some(t) => Some(t@),
                None => None,
            },
            clean: self.clean,
            dry_run: self.dry_run,
            verbose: self.verbose,
            json: self.json,
        }
    }
}

/// What the arguments ask for.
#[derive(Debug)]
pub enum ParseOutcome {
    /// A build with these settings.
    Run(CliArgs),
    /// Text to print before exiting successfully (`--help`, `--version`).
    Info(String),
}

pub enum OutcomeView {
    Run(CliView),
    Info(Seq<char>),
}

impl View for ParseOutcome {
    type V = OutcomeView;

    open spec fn view(&self) -> OutcomeView {
        match self {
            ParseOutcome::Run(c) => OutcomeView::Run(c@),
            ParseOutcome::Info(s) => OutcomeView::Info(s@),
        }
    }
}

/// The settings before any argument: `Buildfile`, `jobs` parallel jobs, no
/// target, every switch off.
pub open spec fn default_view(jobs: usize) -> CliView {
    CliView {
        file: "Buildfile"@,
        jobs,
        target: None,
        clean: false,
        dry_run: false,
        verbose: false,
        json: false,
    }
}

impl CliArgs {
    /// The settings before any argument, with `jobs` parallel jobs.
    pub fn defaults(jobs: usize) -> (r: CliArgs)
        requires
            jobs >= 1,
        ensures
            r@ == default_view(jobs),
    {
        CliArgs {
            file: "Buildfile".to_owned(),
            jobs,
            target: None,
            clean: false,
            dry_run: false,
            verbose: false,
            json: false,
        }
    }
}


/// Reads a decimal number that fits in a `usize`, as `usize::from_str` does.
pub fn parse_usize(s: &Vec<char>) -> (r: Option<usize>)
    ensures
        match written_number(s@) {
            Some(v) => if v <= usize::MAX {
                r == Some(v as usize)
            } else {
                r is None
            },
            None => r is None,
        },
{
    match parse_u128(s) {
        Some(v) => if v <= usize::MAX as u128 {
            Some(v as usize)
        } else {
            None
        },
        None => None,
    }
}

/// `s` is `p` followed by at least one ASCII digit and nothing else.
pub open spec fn glued_digits(s: Seq<char>, p: Seq<char>) -> bool {
    has_prefix(s, p) && s.len() > p.len() && all_digits(s.subrange(p.len() as int, s.len() as int))
}

/// A job count glued to its flag, as in `-j4` or `--jobs=4`.
pub open spec fn is_glued(s: Seq<char>) -> bool {
    glued_digits(s, "-j"@) || glued_digits(s, "--jobs="@)
}

fn glued_digits_exec(s: &Vec<char>, p: &str) -> (r: bool)
    ensures
        r == glued_digits(s@, p@),
{
    let pv = chars_of(p);
    if !starts_with(s, &pv) || s.len() <= pv.len() {
        return false;
    }
    let mut i = pv.len();
    while i < s.len()
        invariant
            pv@ == p@,
            pv@.len() <= i <= s@.len(),
            forall|j: int| pv@.len() <= j < i ==> is_digit(#[trigger] s@[j]),
        decreases s@.len() - i,
    {
        if !('0' <= s[i] && s[i] <= '9') {
            assert(!is_digit(s@.subrange(pv@.len() as int, s@.len() as int)[i - pv@.len()]));
            return false;
        }
        i += 1;
    }
    assert forall|j: int| 0 <= j < s@.len() - pv@.len() implies is_digit(
        #[trigger] s@.subrange(pv@.len() as int, s@.len() as int)[j],
    ) by {
        assert(s@.subrange(pv@.len() as int, s@.len() as int)[j] == s@[j + pv@.len()]);
    }
    true
}

/// Whether `s` glues a job count to its flag (`-j4`, `--jobs=4`).
pub fn is_glued_jobs(s: &str) -> (r: bool)
    ensures
        r == is_glued(s@),
{
    let v = chars_of(s);
    glued_digits_exec(&v, "-j") || glued_digits_exec(&v, "--jobs=")
}

pub open spec fn flag_names() -> Seq<Seq<char>> {
    seq![
        "--file"@,
        "-f"@,
        "--jobs"@,
        "-j"@,
        "--clean"@,
        "--dry-run"@,
        "-n"@,
        "--json"@,
        "--verbose"@,
        "-v"@,
        "--version"@,
        "-V"@,
        "--help"@,
        "-h"@,
    ]
}

/// The text `--version` prints.
pub open spec fn version_text() -> Seq<char> {
    "minibuild 0.1.0"@
}

/// The text `--help` prints.
pub open spec fn usage_text() -> Seq<char> {
    "Usage: minibuild [OPTIONS] [TARGET]\n\nOptions:\n  --file, -f <FILE>   Build file path (default: Buildfile)\n  --jobs, -j <N>      Max parallel jobs (default: number of CPU cores)\n  --clean             Remove the build cache and rebuild everything\n  --dry-run, -n       Print what would be executed without running anything\n  --json              Write dry-run plan as JSON to stdout (requires --dry-run)\n  --verbose, -v       Show detailed execution info\n  --version, -V       Show version\n  --help, -h          Show help"@
}

/// The help text.
pub fn usage() -> (r: String)
    ensures
        r@ == usage_text(),
{
    "Usage: minibuild [OPTIONS] [TARGET]\n\nOptions:\n  --file, -f <FILE>   Build file path (default: Buildfile)\n  --jobs, -j <N>      Max parallel jobs (default: number of CPU cores)\n  --clean             Remove the build cache and rebuild everything\n  --dry-run, -n       Print what would be executed without running anything\n  --json              Write dry-run plan as JSON to stdout (requires --dry-run)\n  --verbose, -v       Show detailed execution info\n  --version, -V       Show version\n  --help, -h          Show help".to_owned()
}

/// The outcome of the arguments from `args[i]` on, read after `c`.
pub open spec fn cli_from(args: Seq<Seq<char>>, i: int, c: CliView) -> Result<OutcomeView, Seq<char>>
    decreases args.len() - i,
{
    if i < 0 || i >= args.len() {
        if c.json && !c.dry_run {
            Err("--json requires --dry-run"@)
        } else {
            Ok(OutcomeView::Run(c))
        }
    } else {
        let a = args[i];
        if a == "--file"@ || a == "-f"@ {
            if i + 1 >= args.len() {
                Err("--file requires a value"@)
            } else {
                cli_from(args, i + 2, CliView { file: args[i + 1], ..c })
            }
        } else if a == "--jobs"@ || a == "-j"@ {
            if i + 1 >= args.len() {
                Err("--jobs requires a value"@)
            } else {
                match written_number(args[i + 1]) {
                    Some(v) => if v > usize::MAX {
                        Err("invalid --jobs value: "@ + args[i + 1])
                    } else if v == 0 {
                        Err("--jobs must be at least 1"@)
                    } else {
                        cli_from(args, i + 2, CliView { jobs: v as usize, ..c })
                    },
                    None => Err("invalid --jobs value: "@ + args[i + 1]),
                }
            }
        } else if a == "--clean"@ {
            cli_from(args, i + 1, CliView { clean: true, ..c })
        } else if a == "--dry-run"@ || a == "-n"@ {
            cli_from(args, i + 1, CliView { dry_run: true, ..c })
        } else if a == "--json"@ {
            cli_from(args, i + 1, CliView { json: true, ..c })
        } else if a == "--verbose"@ || a == "-v"@ {
            cli_from(args, i + 1, CliView { verbose: true, ..c })
        } else if a == "--version"@ || a == "-V"@ {
            Ok(OutcomeView::Info(version_text()))
        } else if a == "--help"@ || a == "-h"@ {
            Ok(OutcomeView::Info(usage_text()))
        } else if a.len() > 0 && a[0] == '-' {
            if is_glued(a) {
                Err("use `-j 4` or `--jobs 4`"@)
            } else {
                Err(hinted("unknown flag: "@ + a, a, flag_names()))
            }
        } else if c.target is Some {
            Err("unexpected argument: "@ + a)
        } else {
            cli_from(args, i + 1, CliView { target: Some(a), ..c })
        }
    }
}

fn is_lit(a: &Vec<char>, lit: &str) -> (r: bool)
    ensures
        r == (a@ == lit@),
{
    chars_eq(a, &chars_of(lit))
}

/// Reads the command-line arguments (without the program name). `jobs` is
/// the number of parallel jobs when `--jobs` is not given.
pub fn parse_args(args: &[String], jobs: usize) -> (r: Result<ParseOutcome, String>)
    requires
        jobs >= 1,
    ensures
        match (r, cli_from(strs(args@), 0, default_view(jobs))) {
            (Ok(o), Ok(v)) => o@ == v,
            (Err(e), Err(m)) => e@ == m,
            _ => false,
        },
        r matches Ok(ParseOutcome::Run(a)) ==> a.jobs >= 1,
{
    let ghost av = strs(args@);
    let mut cli = CliArgs::defaults(jobs);
    let mut i: usize = 0;
    while i < args.len()
        invariant
            av == strs(args@),
            i <= args@.len(),
            cli_from(av, i as int, cli@) == cli_from(av, 0, default_view(jobs)),
            cli.jobs >= 1,
        decreases args@.len() - i,
    {
        let a = chars_of(args[i].as_str());
        assert(a@ == av[i as int]);
        if is_lit(&a, "--file") || is_lit(&a, "-f") {
            if i + 1 >= args.len() {
                return Err("--file requires a value".to_owned());
            }
            cli.file = args[i + 1].clone();
            i += 2;
            continue;
        }
        if is_lit(&a, "--jobs") || is_lit(&a, "-j") {
            if i + 1 >= args.len() {
                return Err("--jobs requires a value".to_owned());
            }
            let v = chars_of(args[i + 1].as_str());
            assert(v@ == av[i + 1]);
            match parse_usize(&v) {
                None => {
                    let mut m = "invalid --jobs value: ".to_owned();
                    m.append(args[i + 1].as_str());
                    return Err(m);
                },
                Some(n) => {
                    if n == 0 {
                        return Err("--jobs must be at least 1".to_owned());
                    }
                    cli.jobs = n;
                },
            }
            i += 2;
            continue;
        }
        if is_lit(&a, "--clean") {
            cli.clean = true;
        } else if is_lit(&a, "--dry-run") || is_lit(&a, "-n") {
            cli.dry_run = true;
        } else if is_lit(&a, "--json") {
            cli.json = true;
        } else if is_lit(&a, "--verbose") || is_lit(&a, "-v") {
            cli.verbose = true;
        } else if is_lit(&a, "--version") || is_lit(&a, "-V") {
            return Ok(ParseOutcome::Info("minibuild 0.1.0".to_owned()));
        } else if is_lit(&a, "--help") || is_lit(&a, "-h") {
            return Ok(ParseOutcome::Info(usage()));
        } else if a.len() > 0 && a[0] == '-' {
            if is_glued_jobs(args[i].as_str()) {
                return Err("use `-j 4` or `--jobs 4`".to_owned());
            }
            let flags: [&str; 14] = [
                "--file",
                "-f",
                "--jobs",
                "-j",
                "--clean",
                "--dry-run",
                "-n",
                "--json",
                "--verbose",
                "-v",
                "--version",
                "-V",
                "--help",
                "-h",
            ];
            assert(flags@.map_values(|c: &str| c@) =~= flag_names());
            let mut base = "unknown flag: ".to_owned();
            base.append(args[i].as_str());
            return Err(with_hint(base.as_str(), args[i].as_str(), &flags));
        } else {
            if cli.target.is_some() {
                let mut m = "unexpected argument: ".to_owned();
                m.append(args[i].as_str());
                return Err(m);
            }
            cli.target = Some(args[i].clone());
        }
        i += 1;
    }
    if cli.json && !cli.dry_run {
        return Err("--json requires --dry-run".to_owned());
    }
    Ok(ParseOutcome::Run(cli))
}

/// Reading `args[i..]` from the settings `c` turns a switch on only when
/// `c` had it on or its own flag occurs in `args[i..]`.
proof fn lemma_switches_from(args: Seq<Seq<char>>, i: int, c: CliView)
    requires
        0 <= i,
    ensures
        cli_from(args, i, c) matches Ok(OutcomeView::Run(v)) ==> {
            &&& v.dry_run ==> c.dry_run || exists|j: int|
                i <= j < args.len() && (#[trigger] args[j] == "--dry-run"@ || args[j] == "-n"@)
            &&& v.clean ==> c.clean || exists|j: int| i <= j < args.len() && #[trigger] args[j] == "--clean"@
            &&& v.verbose ==> c.verbose || exists|j: int|
                i <= j < args.len() && (#[trigger] args[j] == "--verbose"@ || args[j] == "-v"@)
            &&& v.json ==> c.json || exists|j: int| i <= j < args.len() && #[trigger] args[j] == "--json"@
        },
    decreases args.len() - i,
{
    if i < args.len() {
        let a = args[i];
        if a == "--file"@ || a == "-f"@ {
            if i + 1 < args.len() {
                lemma_switches_from(args, i + 2, CliView { file: args[i + 1], ..c });
            }
        } else if a == "--jobs"@ || a == "-j"@ {
            if i + 1 < args.len() {
                match written_number(args[i + 1]) {
                    Some(v) => {
                        if v <= usize::MAX && v != 0 {
                            lemma_switches_from(args, i + 2, CliView { jobs: v as usize, ..c });
                        }
                    },
                    None => {},
                }
            }
        } else if a == "--clean"@ {
            lemma_switches_from(args, i + 1, CliView { clean: true, ..c });
        } else if a == "--dry-run"@ || a == "-n"@ {
            lemma_switches_from(args, i + 1, CliView { dry_run: true, ..c });
        } else if a == "--json"@ {
            lemma_switches_from(args, i + 1, CliView { json: true, ..c });
        } else if a == "--verbose"@ || a == "-v"@ {
            lemma_switches_from(args, i + 1, CliView { verbose: true, ..c });
        } else if a == "--version"@ || a == "-V"@ {
        } else if a == "--help"@ || a == "-h"@ {
        } else if a.len() > 0 && a[0] == '-' {
        } else if c.target is Some {
        } else {
            lemma_switches_from(args, i + 1, CliView { target: Some(a), ..c });
        }
    }
}

/// Each switch sets only its own setting: in the settings read from `args`,
/// a dry run is on only if `--dry-run` or `-n` occurs, a clean build only
/// if `--clean` occurs, verbose output only if `--verbose` or `-v` occurs,
/// and JSON output only if `--json` occurs.
pub proof fn lemma_switches_need_flags(args: Seq<Seq<char>>, jobs: usize)
    ensures
        cli_from(args, 0, default_view(jobs)) matches Ok(OutcomeView::Run(v)) ==> {
            &&& v.dry_run ==> args.contains("--dry-run"@) || args.contains("-n"@)
            &&& v.clean ==> args.contains("--clean"@)
            &&& v.verbose ==> args.contains("--verbose"@) || args.contains("-v"@)
            &&& v.json ==> args.contains("--json"@)
        },
{
    lemma_switches_from(args, 0, default_view(jobs));
    if let Ok(OutcomeView::Run(v)) = cli_from(args, 0, default_view(jobs)) {
        if v.dry_run {
            let j = choose|j: int| 0 <= j < args.len() && (#[trigger] args[j] == "--dry-run"@ || args[j] == "-n"@);
            assert(args.contains(args[j]));
        }
        if v.clean {
            let j = choose|j: int| 0 <= j < args.len() && #[trigger] args[j] == "--clean"@;
            assert(args.contains(args[j]));
        }
        if v.verbose {
            let j = choose|j: int| 0 <= j < args.len() && (#[trigger] args[j] == "--verbose"@ || args[j] == "-v"@);
            assert(args.contains(args[j]));
        }
        if v.json {
            let j = choose|j: int| 0 <= j < args.len() && #[trigger] args[j] == "--json"@;
            assert(args.contains(args[j]));
        }
    }
}

} // verus!
