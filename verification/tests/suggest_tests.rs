use minibuild::suggest::{closest, levenshtein, with_hint};

#[test]
fn test_closest_typical_typo() {
    let flags = [
        "--file",
        "-f",
        "--jobs",
        "-j",
        "--clean",
        "--dry-run",
        "-n",
        "--json",
        "--verbose",
        "-v",
        "--version",
        "-V",
        "--help",
        "-h",
    ];
    assert_eq!(closest("--job", &flags), Some("--jobs"));
    assert_eq!(closest("--verbos", &flags), Some("--verbose"));
}

#[test]
fn test_closest_rejects_exact_match() {
    assert_eq!(closest("jobs", &["jobs"]), None);
    assert_eq!(closest("jobs", &["jobs", "job"]), Some("job"));
}

#[test]
fn test_closest_too_far() {
    assert_eq!(closest("zzzzzzzz", &["env", "default", "rule"]), None);
    assert_eq!(closest("ghost", &["a"]), None);
}

#[test]
fn test_closest_empty() {
    assert_eq!(closest("jobs", &[]), None);
    assert_eq!(closest("", &["env"]), None);
}

#[test]
fn test_with_hint() {
    assert_eq!(
        with_hint("unknown flag: --job", "--job", &["--jobs", "--help"]),
        "unknown flag: --job (did you mean `--jobs`?)"
    );
    assert_eq!(
        with_hint("unknown flag: --zzzz", "--zzzz", &["--jobs"]),
        "unknown flag: --zzzz"
    );
}

#[test]
fn test_levenshtein_known_distances() {
    assert_eq!(levenshtein("", "abc"), 3);
    assert_eq!(levenshtein("abc", "abc"), 0);
    assert_eq!(levenshtein("job", "jobs"), 1);
    assert_eq!(levenshtein("kitten", "sitting"), 3);
    assert_eq!(levenshtein("defualt", "default"), 2);
}

#[test]
fn closest_prefers_first_of_equal_distance() {
    // "ab" is one edit from both "abc" and "abd"; the earlier one wins.
    assert_eq!(closest("ab", &["abd", "abc"]), Some("abd"));
    assert_eq!(closest("ab", &["abc", "abd"]), Some("abc"));
}

#[test]
fn levenshtein_counts_characters_not_bytes() {
    assert_eq!(levenshtein("café", "cafe"), 1);
    assert_eq!(levenshtein("é", ""), 1);
}
