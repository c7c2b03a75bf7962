use minibuild::env::EnvMap;
use minibuild::executor::{
    command_outcome, expanded_commands, keeps_running, notify_dependents, rule_env, run_outcome, tally, RuleResult,
    Scheduler, Start, Step,
};
use minibuild::graph::{build_graph, reachable_from, topological_sort};
use minibuild::parser::parse;

/// Runs the schedule of `target` without running any command: the rules in
/// `fail` fail, those in `fresh` match the cache.
fn simulate(
    input: &str,
    target: &str,
    jobs: usize,
    fail: &[&str],
    fresh: &[&str],
    dry_run: bool,
) -> (Vec<RuleResult>, Vec<String>, usize) {
    let bf = parse(input).unwrap();
    let g = build_graph(&bf).unwrap();
    let reach = reachable_from(target, &g).unwrap();
    let order = topological_sort(&g, &reach);
    let mut s = Scheduler::new(&bf, &g, &order);
    let mut running: Vec<usize> = Vec::new();
    let mut launched: Vec<String> = Vec::new();
    let mut most_running = 0;
    loop {
        match s.pop(jobs) {
            Step::DependencyFailed(_) => {}
            Step::Launch(p) => {
                let name = s.name(p).clone();
                launched.push(name.clone());
                if let Start::Run = s.start(p, fresh.contains(&name.as_str()), dry_run) {
                    running.push(p);
                    most_running = most_running.max(s.running());
                }
            }
            Step::Wait => {
                let p = running.remove(0);
                let name = s.name(p).clone();
                let outcome = if fail.contains(&name.as_str()) {
                    Err("command 'exit 1' exited with code 1".to_string())
                } else {
                    Ok(())
                };
                s.finish(p, outcome);
            }
            Step::Finished => break,
        }
    }
    (s.into_results(), launched, most_running)
}

fn successes(results: &[RuleResult]) -> Vec<&str> {
    results
        .iter()
        .filter_map(|r| match r {
            RuleResult::Success(n) => Some(n.as_str()),
            _ => None,
        })
        .collect()
}

fn failures(results: &[RuleResult]) -> Vec<(&str, &str)> {
    results
        .iter()
        .filter_map(|r| match r {
            RuleResult::Failed(n, m) => Some((n.as_str(), m.as_str())),
            _ => None,
        })
        .collect()
}

const CHAIN: &str = "rule top\n  deps mid\n  run echo top\nrule mid\n  deps bottom\n  run echo mid\nrule bottom\n  run echo bottom\n";

#[test]
fn chain_runs_dependencies_first() {
    let (results, _, _) = simulate(CHAIN, "top", 1, &[], &[], false);
    assert_eq!(successes(&results), vec!["bottom", "mid", "top"]);
}

#[test]
fn failure_cancels_everything_downstream() {
    let (results, launched, _) = simulate(CHAIN, "top", 1, &["bottom"], &[], false);
    assert_eq!(
        failures(&results),
        vec![
            ("bottom", "command 'exit 1' exited with code 1"),
            ("mid", "dependency failed"),
            ("top", "dependency failed"),
        ]
    );
    assert_eq!(launched, vec!["bottom"]);
}

#[test]
fn independent_branch_survives_a_failure() {
    let input = "rule all\n  deps good_branch bad_branch\n  phony true\n  run echo all\nrule good_branch\n  run echo success\nrule bad_branch\n  run exit 1\n";
    let (results, _, _) = simulate(input, "all", 4, &["bad_branch"], &[], false);
    assert_eq!(successes(&results), vec!["good_branch"]);
    let f = failures(&results);
    assert!(f.contains(&("bad_branch", "command 'exit 1' exited with code 1")));
    assert!(f.contains(&("all", "dependency failed")));
    assert_eq!(results.len(), 3);
}

#[test]
fn independent_rules_run_in_parallel_up_to_the_limit() {
    let input = "rule a\n  run echo a\nrule b\n  run echo b\nrule c\n  run echo c\nrule d\n  run echo d\nrule all\n  deps a b c d\n  phony true\n  run echo all done\n";
    let (results, launched, most) = simulate(input, "all", 4, &[], &[], false);
    assert_eq!(successes(&results).len(), 5);
    assert_eq!(most, 4);
    assert_eq!(launched, vec!["a", "b", "c", "d", "all"]);
    let (_, _, most) = simulate(input, "all", 2, &[], &[], false);
    assert_eq!(most, 2);
}

#[test]
fn ready_rules_start_in_name_order() {
    let input = "rule all\n  deps zeta alpha mid\n  run echo\nrule zeta\n  run echo\nrule alpha\n  run echo\nrule mid\n  run echo\n";
    let (_, launched, _) = simulate(input, "all", 1, &[], &[], false);
    assert_eq!(launched, vec!["alpha", "mid", "zeta", "all"]);
}

#[test]
fn diamond_respects_every_edge() {
    let input = "rule a\n  deps b c\n  run echo a\nrule b\n  deps d\n  run echo b\nrule c\n  deps d\n  run echo c\nrule d\n  run echo d\n";
    let (results, _, _) = simulate(input, "a", 4, &[], &[], false);
    let s = successes(&results);
    assert_eq!(s.len(), 4);
    let pos = |n: &str| s.iter().position(|&x| x == n).unwrap();
    assert!(pos("d") < pos("b"));
    assert!(pos("d") < pos("c"));
    assert!(pos("b") < pos("a"));
    assert!(pos("c") < pos("a"));
}

#[test]
fn long_chain_and_wide_fanout() {
    let mut input = String::new();
    for i in 0..120 {
        if i == 0 {
            input.push_str("rule r0\n  run echo r0\n");
        } else {
            input.push_str(&format!("rule r{}\n  deps r{}\n  run echo r{}\n", i, i - 1, i));
        }
    }
    let (results, _, _) = simulate(&input, "r119", 8, &[], &[], false);
    assert_eq!(successes(&results).len(), 120);

    let leaves: Vec<String> = (0..110).map(|i| format!("leaf{}", i)).collect();
    let mut input = format!("rule root\n  deps {}\n  phony true\n  run echo done\n", leaves.join(" "));
    for l in &leaves {
        input.push_str(&format!("rule {}\n  run echo {}\n", l, l));
    }
    let (results, _, most) = simulate(&input, "root", 16, &[], &[], false);
    assert_eq!(successes(&results).len(), 111);
    assert_eq!(most, 16);
}

#[test]
fn dry_run_skips_without_running() {
    let (results, _, most) = simulate("rule test\n  run echo should not print\n", "test", 1, &[], &[], true);
    assert!(matches!(&results[0], RuleResult::Skipped(n) if n == "test"));
    assert_eq!(most, 0);
}

#[test]
fn only_checked_rules_can_be_up_to_date() {
    let input = "rule build\n  inputs in.txt\n  outputs out.txt\n  run cp in.txt out.txt\nrule always\n  phony true\n  inputs in.txt\n  run echo\nrule noinputs\n  run echo\n";
    let (results, _, _) = simulate(input, "build", 1, &[], &["build"], false);
    assert!(matches!(&results[0], RuleResult::Skipped(n) if n == "build"));
    let (results, _, _) = simulate(input, "always", 1, &[], &["always"], false);
    assert!(matches!(&results[0], RuleResult::Success(n) if n == "always"));
    let (results, _, _) = simulate(input, "noinputs", 1, &[], &["noinputs"], false);
    assert!(matches!(&results[0], RuleResult::Success(n) if n == "noinputs"));
}

#[test]
fn finish_asks_to_record_only_non_phony_rules() {
    let input = "rule all\n  deps x\n  phony true\n  run echo\nrule x\n  run echo\n";
    let bf = parse(input).unwrap();
    let g = build_graph(&bf).unwrap();
    let order = topological_sort(&g, &reachable_from("all", &g).unwrap());
    let mut s = Scheduler::new(&bf, &g, &order);
    let Step::Launch(p) = s.pop(1) else { panic!("expected a launch") };
    assert_eq!(s.name(p), "x");
    assert!(matches!(s.start(p, false, false), Start::Run));
    assert!(matches!(s.pop(1), Step::Wait));
    assert!(s.finish(p, Ok(())));
    let Step::Launch(q) = s.pop(1) else { panic!("expected a launch") };
    assert_eq!(s.name(q), "all");
    assert!(matches!(s.start(q, true, false), Start::Run));
    assert!(!s.finish(q, Ok(())));
    assert!(matches!(s.pop(1), Step::Finished));
    assert_eq!(s.results().len(), 2);
}

#[test]
fn zero_jobs_launch_nothing() {
    let bf = parse("rule a\n  run echo a\n").unwrap();
    let g = build_graph(&bf).unwrap();
    let order = topological_sort(&g, &reachable_from("a", &g).unwrap());
    let mut s = Scheduler::new(&bf, &g, &order);
    assert!(matches!(s.pop(0), Step::Finished));
    assert!(s.results().is_empty());
}

#[test]
fn environment_and_tally() {
    let input = "env GREETING = hello\nrule test\n  env NAME = world\n  env GREETING = hi\n  run echo $GREETING ${NAME}\n";
    let bf = parse(input).unwrap();
    let rule = bf.rule("test").unwrap();
    let env: EnvMap = rule_env(&bf, rule);
    assert_eq!(expanded_commands(rule, &env), vec!["echo hi world"]);
    let results = vec![
        RuleResult::Success("a".to_string()),
        RuleResult::Skipped("b".to_string()),
        RuleResult::Failed("c".to_string(), "x".to_string()),
        RuleResult::Success("d".to_string()),
    ];
    let t = tally(&results);
    assert_eq!((t.succeeded, t.skipped, t.failed), (2, 1, 1));
}

#[test]
fn command_outcome_reports_the_exit_code() {
    assert!(command_outcome("true", Some(0)).is_ok());
    assert_eq!(command_outcome("exit 3", Some(3)).unwrap_err(), "command 'exit 3' exited with code 3");
    assert_eq!(command_outcome("kill -9 $$", None).unwrap_err(), "command 'kill -9 $$' exited with code -1");
    assert_eq!(command_outcome("x", Some(-12)).unwrap_err(), "command 'x' exited with code -12");
    assert_eq!(command_outcome("y", Some(255)).unwrap_err(), "command 'y' exited with code 255");
}

#[test]
fn commands_stop_at_the_first_failure() {
    let cmds = vec!["a".to_string(), "b".to_string(), "c".to_string()];
    assert!(keeps_running(&vec![]));
    assert!(keeps_running(&vec![Some(0), Some(0)]));
    assert!(!keeps_running(&vec![Some(0), Some(2)]));
    assert!(!keeps_running(&vec![None]));
    assert!(run_outcome(&cmds, &vec![Some(0), Some(0), Some(0)]).is_ok());
    assert!(run_outcome(&vec![], &vec![]).is_ok());
    assert_eq!(run_outcome(&cmds, &vec![Some(0), Some(2)]).unwrap_err(), "command 'b' exited with code 2");
    assert_eq!(run_outcome(&cmds, &vec![None]).unwrap_err(), "command 'a' exited with code -1");
}

#[test]
fn notify_dependents_lowers_counts_and_releases_in_key_order() {
    let mut indeg = vec![2, 1, 2, 1];
    let keys: Vec<Vec<char>> = ["c", "b", "a", "d"].iter().map(|k| k.chars().collect()).collect();
    let ready = notify_dependents(&mut indeg, &vec![0, 1, 0, 2], &keys);
    assert_eq!(indeg, vec![0, 0, 1, 1]);
    assert_eq!(ready, vec![1, 0]);
}
