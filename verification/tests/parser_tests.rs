use minibuild::env::EnvMap;
use minibuild::parser::{
    all_distinct, dir_from_parent, display_name, expand_vars, parent_dir, parse, path_display, scan, IncludeCtx,
    IncludeStep, Statement,
};

#[test]
fn test_parse_minimal() {
    let input = "rule hello\n  run echo hello\n";
    let bf = parse(input).unwrap();
    assert_eq!(bf.rules.len(), 1);
    assert_eq!(bf.rule("hello").unwrap().commands, vec!["echo hello"]);
}

#[test]
fn test_parse_full() {
    let input = "\
env CC = gcc
env CFLAGS = -Wall

default all

rule all
  deps compile link
  description Build everything
  phony true

rule compile
  inputs src/main.c
  outputs build/main.o
  env EXTRA = -DDEBUG
  run $CC $CFLAGS -c src/main.c -o build/main.o

rule link
  deps compile
  inputs build/main.o
  outputs build/app
  run $CC build/main.o -o build/app
";
    let bf = parse(input).unwrap();
    assert_eq!(bf.rules.len(), 3);
    assert_eq!(bf.global_env.get("CC").unwrap(), "gcc");
    assert_eq!(bf.default_target.as_deref(), Some("all"));
    assert!(bf.rule("all").unwrap().phony);
    assert_eq!(bf.rule("all").unwrap().deps, vec!["compile", "link"]);
    assert_eq!(bf.rule("compile").unwrap().inputs, vec!["src/main.c"]);
    assert_eq!(bf.rule("compile").unwrap().outputs, vec!["build/main.o"]);
    assert_eq!(bf.rule("compile").unwrap().env.get("EXTRA").unwrap(), "-DDEBUG");
}

#[test]
fn test_parse_duplicate_rule() {
    let input = "rule a\n  run echo a\nrule a\n  run echo b\n";
    let err = parse(input).unwrap_err();
    assert!(err.contains("duplicate rule"), "got: {err}");
}

#[test]
fn test_parse_empty() {
    assert!(parse("").is_err());
    assert!(parse("# just comments\n").is_err());
}

#[test]
fn test_expand_vars() {
    let mut env = EnvMap::new();
    env.insert("CC".to_string(), "gcc".to_string());
    env.insert("FLAGS".to_string(), "-O2".to_string());
    assert_eq!(expand_vars("$CC $FLAGS -c foo.c", &env), "gcc -O2 -c foo.c");
    assert_eq!(expand_vars("${CC} ${FLAGS}", &env), "gcc -O2");
}

#[test]
fn test_expand_vars_missing() {
    let env = EnvMap::new();
    assert_eq!(expand_vars("$MISSING test", &env), " test");
}

#[test]
fn test_expand_vars_utf8_literal() {
    let env = EnvMap::new();
    assert_eq!(expand_vars("echo café", &env), "echo café");
}

#[test]
fn test_expand_vars_utf8_value() {
    let mut env = EnvMap::new();
    env.insert("GREETING".to_string(), "café".to_string());
    assert_eq!(expand_vars("echo $GREETING", &env), "echo café");
}

#[test]
fn test_parse_indented_line_outside_rule() {
    let input = "  run echo orphan\n";
    let err = parse(input).unwrap_err();
    assert!(err.contains("indented line outside of a rule block"));
}

#[test]
fn test_parse_empty_rule_name() {
    let input = "rule\n  run echo test\n";
    let err = parse(input).unwrap_err();
    assert!(err.contains("rule has no name"));
}

#[test]
fn test_parse_rule_trailing_whitespace_only() {
    let input = "rule   \n  run echo test\n";
    let err = parse(input).unwrap_err();
    assert!(err.contains("rule has no name"));
}

#[test]
fn test_parse_unknown_top_level_directive() {
    let input = "unknown_directive something\n";
    let err = parse(input).unwrap_err();
    assert!(err.contains("unexpected top-level directive"));
}

#[test]
fn test_parse_unknown_top_level_suggests() {
    let err = parse("rul hello\n").unwrap_err();
    assert!(err.contains("unexpected top-level directive"), "got: {err}");
    assert!(err.contains("did you mean `rule`"), "got: {err}");
}

#[test]
fn test_parse_unknown_rule_directive() {
    let input = "rule a\n  badkey value\n";
    let err = parse(input).unwrap_err();
    assert!(err.contains("unknown rule directive"));
}

#[test]
fn test_parse_unknown_rule_suggests() {
    let err = parse("rule a\n  dep b\n").unwrap_err();
    assert!(err.contains("unknown rule directive"), "got: {err}");
    assert!(err.contains("did you mean `deps`"), "got: {err}");
}

#[test]
fn test_expand_vars_bare_dollar_at_end() {
    let env = EnvMap::new();
    assert_eq!(expand_vars("hello$", &env), "hello$");
}

#[test]
fn test_expand_vars_unclosed_brace() {
    let env = EnvMap::new();
    assert_eq!(expand_vars("${UNCLOSED", &env), "${UNCLOSED");
}

#[test]
fn test_parse_env_empty_key() {
    let input = "env  = value\nrule a\n  run echo a\n";
    let err = parse(input).unwrap_err();
    assert!(err.contains("empty key"));
}

#[test]
fn test_expand_vars_double_dollar() {
    let mut env = EnvMap::new();
    env.insert("X".to_string(), "val".to_string());
    let result = expand_vars("$$X", &env);
    assert_eq!(result, "$val");
}

#[test]
fn test_parse_unicode_rule_name() {
    let input = "rule caf\u{00e9}\n  run echo hello\n";
    let bf = parse(input).unwrap();
    assert!(bf.contains_rule("caf\u{00e9}"));
}

#[test]
fn test_parse_many_deps() {
    let mut input = String::from("rule top\n  deps");
    for i in 0..50 {
        input.push_str(&format!(" dep{i}"));
    }
    input.push('\n');
    for i in 0..50 {
        input.push_str(&format!("rule dep{i}\n  run echo {i}\n"));
    }
    let bf = parse(&input).unwrap();
    assert_eq!(bf.rule("top").unwrap().deps.len(), 50);
}

#[test]
fn test_parse_env_missing_equals() {
    let input = "env BROKEN\nrule a\n  run echo a\n";
    assert!(parse(input).is_err());
}

#[test]
fn test_parse_include_rejects_without_filesystem() {
    let err = parse("include x\n").unwrap_err();
    assert!(
        err.contains("include requires a file path; use parse_file"),
        "got: {err}"
    );
    assert!(!err.contains("cannot include"), "got: {err}");
    assert!(!err.contains("cannot read"), "got: {err}");
}

#[test]
fn error_messages_carry_line_numbers() {
    assert_eq!(parse("rule a\n\nrule\n").unwrap_err(), "line 3: rule has no name");
    assert_eq!(
        parse("rule a\n  run x\nrule a\n").unwrap_err(),
        "line 3: duplicate rule 'a'"
    );
    assert_eq!(
        parse("env BROKEN\n").unwrap_err(),
        "line 1: expected KEY = VALUE, got: BROKEN"
    );
    assert_eq!(
        parse("rule a\n  dep b\n").unwrap_err(),
        "line 2: unknown rule directive: dep b (did you mean `deps`?)"
    );
    assert_eq!(parse("include\n").unwrap_err(), "line 1: include has no path");
}

#[test]
fn duplicate_rule_reported_at_line_that_closes_it() {
    // the second block is closed by the third `rule` line
    assert_eq!(
        parse("rule a\nrule a\nrule b\n").unwrap_err(),
        "line 3: duplicate rule 'a'"
    );
}

#[test]
fn earlier_error_wins() {
    // the duplicate (closed at line 3) comes before the bad directive on line 3
    assert_eq!(
        parse("rule a\nrule a\nbogus\n").unwrap_err(),
        "line 3: duplicate rule 'a'"
    );
}

#[test]
fn no_rules_message() {
    assert_eq!(parse("env A = 1\n").unwrap_err(), "Buildfile contains no rules");
}

#[test]
fn parse_keeps_rule_order_and_settings() {
    let bf = parse(
        "rule b\n  run  two spaces\n  description   tidy  \n  phony TRUE\nrule a\n  phony no\n",
    )
    .unwrap();
    assert_eq!(bf.rules[0].name, "b");
    assert_eq!(bf.rules[1].name, "a");
    assert_eq!(bf.rules[0].commands, vec![" two spaces"]);
    assert_eq!(bf.rules[0].description, "tidy");
    assert!(bf.rules[0].phony);
    assert!(!bf.rules[1].phony);
}

#[test]
fn crlf_lines_and_tabs() {
    let bf = parse("rule a\r\n\tdeps b\r\nrule b\r\n").unwrap();
    assert_eq!(bf.rule("a").unwrap().deps, vec!["b"]);
}

#[test]
fn later_env_setting_wins() {
    let bf = parse("env X = 1\nenv X = 2\nrule a\n  env Y = 3\n  env Y = 4\n").unwrap();
    assert_eq!(bf.global_env.get("X").unwrap(), "2");
    assert_eq!(bf.rule("a").unwrap().env.get("Y").unwrap(), "4");
    assert!(!bf.global_env.contains_key("Y"));
}

#[test]
fn scan_lists_statements_in_order() {
    let sc = scan("env A = 1\ninclude common.mb\nrule x\ndefault x\n");
    assert!(sc.error.is_none());
    assert_eq!(sc.statements.len(), 4);
    assert!(matches!(&sc.statements[0], Statement::Env(k, v) if k == "A" && v == "1"));
    assert!(matches!(&sc.statements[1], Statement::Include(p, 2) if p == "common.mb"));
    assert!(matches!(&sc.statements[2], Statement::Rule(r, 4) if r.name == "x"));
    assert!(matches!(&sc.statements[3], Statement::Default(t) if t == "x"));
}

#[test]
fn scan_stops_at_first_syntax_error() {
    let sc = scan("rule a\nbad\nrule b\n");
    assert_eq!(sc.statements.len(), 1);
    assert_eq!(
        sc.error.as_deref(),
        Some("line 2: unexpected top-level directive: bad")
    );
}

#[test]
fn expand_vars_braced_unknown_and_underscores() {
    let mut env = EnvMap::new();
    env.insert("A_1".to_string(), "x".to_string());
    assert_eq!(expand_vars("$A_1-${A_1}-${NOPE}-$", &env), "x-x--$");
    assert_eq!(expand_vars("${}", &env), "");
}

#[test]
fn parent_dir_of_paths() {
    assert_eq!(parent_dir("a/b/Buildfile"), "a/b");
    assert_eq!(parent_dir("Buildfile"), ".");
    assert_eq!(parent_dir("/"), ".");
    assert_eq!(parent_dir("/etc/build.mb"), "/etc");
}

#[test]
fn path_display_is_the_file_name() {
    assert_eq!(path_display("dir/x.mb"), "x.mb");
    assert_eq!(path_display("Buildfile"), "Buildfile");
    assert_eq!(path_display(".."), "..");
}

#[test]
fn include_bookkeeping() {
    let mut ctx = IncludeCtx::new("main.mb".to_string(), 0);
    assert!(matches!(ctx.check("a.mb", 1), IncludeStep::Load));
    ctx.enter("a.mb", 1);
    match ctx.check("main.mb", 0) {
        IncludeStep::Cycle(m) => assert_eq!(m, "include cycle: main.mb -> a.mb -> main.mb"),
        other => panic!("expected a cycle, got {other:?}"),
    }
    match ctx.check("self.mb", 1) {
        IncludeStep::Cycle(m) => assert_eq!(m, "include cycle: a.mb -> self.mb"),
        other => panic!("expected a cycle, got {other:?}"),
    }
    ctx.leave(true);
    assert!(matches!(ctx.check("a.mb", 1), IncludeStep::AlreadyLoaded));
    ctx.enter("b.mb", 2);
    ctx.leave(false);
    assert!(matches!(ctx.check("b.mb", 2), IncludeStep::Load));
}

#[test]
fn text_without_dollar_expands_to_itself() {
    let mut env = EnvMap::new();
    env.insert("A".to_string(), "x".to_string());
    assert_eq!(expand_vars("plain text { } A", &env), "plain text { } A");
}

#[test]
fn directory_and_display_from_path_parts() {
    assert_eq!(dir_from_parent(Some("a/b".to_string())), "a/b");
    assert_eq!(dir_from_parent(Some(String::new())), ".");
    assert_eq!(dir_from_parent(None), ".");
    assert_eq!(display_name("x/y.mb", Some("y.mb".to_string())), "y.mb");
    assert_eq!(display_name("..", None), "..");
}

#[test]
fn distinctness_checks() {
    let v: Vec<String> = vec!["a".into(), "b".into(), "c".into()];
    assert!(all_distinct(&v));
    let w: Vec<String> = vec!["a".into(), "b".into(), "a".into()];
    assert!(!all_distinct(&w));
    assert!(all_distinct(&Vec::new()));
    let mut bf = parse("rule a\n  run x\nrule b\n  run y\n").unwrap();
    assert!(bf.has_distinct_names());
    let copy = bf.rules[0].clone();
    bf.rules.push(copy);
    assert!(!bf.has_distinct_names());
}

#[test]
fn empty_brackets_declare_no_dependencies() {
    let bf = parse("rule compile\n  deps []\n  run echo c\n").unwrap();
    assert!(bf.rule("compile").unwrap().deps.is_empty());
    assert!(minibuild::graph::build_graph(&bf).is_ok());
    let bf = parse("rule a\n  deps [] b\nrule b\n").unwrap();
    assert_eq!(bf.rule("a").unwrap().deps, vec!["[]", "b"]);
}

#[test]
fn parse_into_adds_to_an_existing_description() {
    let mut bf = parse("env A = 1\nrule a\n").unwrap();
    assert!(minibuild::parser::parse_into("default b\nrule b\n  deps a\n", &mut bf).is_ok());
    assert_eq!(bf.rules.len(), 2);
    assert_eq!(bf.default_target, Some("b".to_string()));
    let err = minibuild::parser::parse_into("rule c\nrule a\n", &mut bf).unwrap_err();
    assert!(err.contains("duplicate rule 'a'"), "got: {err}");
    assert_eq!(bf.rules.len(), 3);
}

#[test]
fn apply_until_include_stops_at_each_include() {
    let s = scan("env A = 1\ninclude x.mb\nrule a\ninclude y.mb\n");
    let mut bf = minibuild::parser::BuildFile::empty();
    assert_eq!(bf.apply_until_include(&s.statements, 0).unwrap(), Some(1));
    assert_eq!(bf.apply_until_include(&s.statements, 2).unwrap(), Some(3));
    assert_eq!(bf.rules.len(), 1);
    assert_eq!(bf.apply_until_include(&s.statements, 4).unwrap(), None);
}
