use minibuild::cli::{is_glued_jobs, parse_args, usage, CliArgs, ParseOutcome};

/// The default job count handed to the parser in these tests.
const JOBS: usize = 4;

fn parse(args: &[&str]) -> Result<ParseOutcome, String> {
    let args: Vec<String> = args.iter().map(|s| s.to_string()).collect();
    parse_args(&args, JOBS)
}

/// Extract CliArgs from a ParseOutcome::Run, panicking on Info or Err.
fn unwrap_run(result: Result<ParseOutcome, String>) -> CliArgs {
    match result {
        Ok(ParseOutcome::Run(cli)) => cli,
        Ok(ParseOutcome::Info(msg)) => panic!("expected Run, got Info: {msg}"),
        Err(e) => panic!("expected Run, got Err: {e}"),
    }
}

#[test]
fn test_defaults() {
    let cli = unwrap_run(parse(&[]));
    assert_eq!(cli.file, "Buildfile");
    assert!(cli.jobs >= 1);
    assert!(cli.target.is_none());
}

#[test]
fn test_all_flags() {
    let cli = unwrap_run(parse(&[
        "--file",
        "build.mb",
        "--jobs",
        "8",
        "--clean",
        "--dry-run",
        "--json",
        "--verbose",
        "all",
    ]));
    assert_eq!(cli.file, "build.mb");
    assert_eq!(cli.jobs, 8);
    assert!(cli.clean);
    assert!(cli.dry_run);
    assert!(cli.json);
    assert!(cli.verbose);
    assert_eq!(cli.target.as_deref(), Some("all"));
}

#[test]
fn test_zero_jobs_rejected() {
    assert!(parse(&["--jobs", "0"]).is_err());
}

#[test]
fn test_version_flag() {
    match parse(&["--version"]).unwrap() {
        ParseOutcome::Info(msg) => assert!(msg.starts_with("minibuild ")),
        other => panic!("expected Info, got {other:?}"),
    }
}

#[test]
fn test_help_flag() {
    match parse(&["--help"]).unwrap() {
        ParseOutcome::Info(msg) => {
            assert!(msg.contains("Usage: minibuild [OPTIONS] [TARGET]"));
            assert!(msg.contains("--file, -f <FILE>   Build file path (default: Buildfile)"));
            assert!(msg.contains(
                "--jobs, -j <N>      Max parallel jobs (default: number of CPU cores)"
            ));
            assert!(msg.contains("--clean             Remove the build cache and rebuild everything"));
            assert!(msg.contains(
                "--dry-run, -n       Print what would be executed without running anything"
            ));
            assert!(msg.contains(
                "--json              Write dry-run plan as JSON to stdout (requires --dry-run)"
            ));
            assert!(msg.contains("--verbose, -v       Show detailed execution info"));
            assert!(msg.contains("--version, -V       Show version"));
            assert!(msg.contains("--help, -h          Show help"));
        }
        other => panic!("expected Info, got {other:?}"),
    }
}

#[test]
fn test_help_short_flag() {
    match parse(&["-h"]).unwrap() {
        ParseOutcome::Info(msg) => assert!(msg.contains("Usage:")),
        other => panic!("expected Info, got {other:?}"),
    }
}

#[test]
fn test_unknown_flag() {
    let err = parse(&["--unknown"]).unwrap_err();
    assert!(err.contains("unknown flag"));
}

#[test]
fn test_unknown_flag_suggests_jobs() {
    let err = parse(&["--job"]).unwrap_err();
    assert!(err.contains("unknown flag"), "got: {err}");
    assert!(err.contains("did you mean `--jobs`"), "got: {err}");
}

#[test]
fn test_glued_short_jobs() {
    let err = parse(&["-j4"]).unwrap_err();
    assert!(err.contains("use `-j 4` or `--jobs 4`"), "got: {err}");
}

#[test]
fn test_glued_long_jobs() {
    let err = parse(&["--jobs=4"]).unwrap_err();
    assert!(err.contains("use `-j 4` or `--jobs 4`"), "got: {err}");
}

#[test]
fn test_file_missing_value() {
    let err = parse(&["--file"]).unwrap_err();
    assert!(err.contains("requires a value"));
}

#[test]
fn test_jobs_invalid_value() {
    let err = parse(&["--jobs", "abc"]).unwrap_err();
    assert!(err.contains("invalid --jobs value"));
}

#[test]
fn test_duplicate_target() {
    let err = parse(&["target1", "target2"]).unwrap_err();
    assert!(err.contains("unexpected argument"));
}

#[test]
fn test_json_flag() {
    for args in [vec!["--dry-run", "--json"], vec!["--json", "--dry-run"]] {
        let cli = unwrap_run(parse(&args));
        assert!(cli.json);
        assert!(cli.dry_run);
    }
}

#[test]
fn test_json_requires_dry_run() {
    let err = parse(&["--json"]).unwrap_err();
    assert!(err.contains("--json requires --dry-run"), "got: {err}");
}

#[test]
fn test_short_flags() {
    let cli = unwrap_run(parse(&["-f", "my.build", "-j", "2", "-n", "-v"]));
    assert_eq!(cli.file, "my.build");
    assert_eq!(cli.jobs, 2);
    assert!(cli.dry_run);
    assert!(cli.verbose);
}

#[test]
fn default_jobs_come_from_the_caller() {
    let args: Vec<String> = Vec::new();
    match parse_args(&args, 7).unwrap() {
        ParseOutcome::Run(cli) => assert_eq!(cli.jobs, 7),
        other => panic!("expected Run, got {other:?}"),
    }
}

#[test]
fn version_text_is_exact() {
    match parse(&["-V"]).unwrap() {
        ParseOutcome::Info(msg) => assert_eq!(msg, "minibuild 0.1.0"),
        other => panic!("expected Info, got {other:?}"),
    }
}

#[test]
fn help_text_is_the_usage() {
    match parse(&["--help"]).unwrap() {
        ParseOutcome::Info(msg) => assert_eq!(msg, usage()),
        other => panic!("expected Info, got {other:?}"),
    }
}

#[test]
fn later_value_wins_and_help_stops_parsing() {
    let cli = unwrap_run(parse(&["-j", "3", "--jobs", "5", "-f", "a", "--file", "b"]));
    assert_eq!(cli.jobs, 5);
    assert_eq!(cli.file, "b");
    assert!(matches!(parse(&["--help", "--bogus"]).unwrap(), ParseOutcome::Info(_)));
}

#[test]
fn jobs_accepts_plus_sign_and_rejects_overflow() {
    let cli = unwrap_run(parse(&["--jobs", "+6"]));
    assert_eq!(cli.jobs, 6);
    let err = parse(&["--jobs", "99999999999999999999999999"]).unwrap_err();
    assert!(err.contains("invalid --jobs value"), "got: {err}");
    let err = parse(&["--jobs"]).unwrap_err();
    assert!(err.contains("requires a value"), "got: {err}");
}

#[test]
fn glued_jobs_detection() {
    assert!(is_glued_jobs("-j4"));
    assert!(is_glued_jobs("--jobs=4"));
    assert!(!is_glued_jobs("-j"));
    assert!(!is_glued_jobs("-jx"));
    assert!(!is_glued_jobs("--jobs"));
}
