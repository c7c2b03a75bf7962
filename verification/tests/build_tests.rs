use std::collections::HashSet;

use minibuild::cache::BuildCache;
use minibuild::executor::{
    expanded_commands, rule_env, ExecOptions, RuleResult, Scheduler, Start, Step,
};
use minibuild::graph::{build_graph, reachable_from, topological_sort};
use minibuild::parser::{parse, BuildFile};

/// Stands in for `sh -c`: `exit N` fails with code N, everything else
/// succeeds.
fn fake_shell(cmd: &str) -> Result<(), String> {
    match cmd.trim().strip_prefix("exit ") {
        Some(code) if code.trim() != "0" => {
            Err(format!("command '{}' exited with code {}", cmd, code.trim()))
        }
        _ => Ok(()),
    }
}

/// Runs the plan `order` of `bf` the way the command does, with the fake
/// shell, one rule finishing at a time in launch order.
fn execute(bf: &BuildFile, order: &Vec<String>, cache: &mut BuildCache, opts: &ExecOptions) -> Vec<RuleResult> {
    let g = build_graph(bf).unwrap();
    let mut s = Scheduler::new(bf, &g, order);
    let mut running: Vec<(usize, Result<(), String>)> = Vec::new();
    loop {
        match s.pop(opts.jobs) {
            Step::DependencyFailed(_) => {}
            Step::Launch(p) => {
                let name = s.name(p).clone();
                let rule = bf.rule(&name).unwrap();
                let fresh = s.is_checked(p) && cache.is_up_to_date(&name, &Vec::new(), &Vec::new());
                if let Start::Run = s.start(p, fresh, opts.dry_run) {
                    let env = rule_env(bf, rule);
                    let outcome = expanded_commands(rule, &env)
                        .iter()
                        .try_for_each(|c| fake_shell(c));
                    running.push((p, outcome));
                }
            }
            Step::Wait => {
                let (p, outcome) = running.remove(0);
                let name = s.name(p).clone();
                if s.finish(p, outcome) {
                    cache.record(&name, Vec::new(), Vec::new());
                }
            }
            Step::Finished => break,
        }
    }
    s.into_results()
}

fn run_build(input: &str, target: Option<&str>, jobs: usize) -> Vec<RuleResult> {
    let bf = parse(input).unwrap();
    let graph = build_graph(&bf).unwrap();
    let target_name = target
        .map(String::from)
        .or_else(|| bf.default_target.clone())
        .unwrap_or_else(|| bf.rules[0].name.clone());
    let reachable = reachable_from(&target_name, &graph).unwrap();
    let order = topological_sort(&graph, &reachable);
    let mut cache = BuildCache::new();
    let opts = ExecOptions { jobs, dry_run: false, verbose: false };
    execute(&bf, &order, &mut cache, &opts)
}

fn full_build(input: &str, target: &str, jobs: usize, cache: &mut BuildCache) -> Vec<RuleResult> {
    let bf = parse(input).unwrap();
    let g = build_graph(&bf).unwrap();
    let reachable = reachable_from(target, &g).unwrap();
    let order = topological_sort(&g, &reachable);
    let opts = ExecOptions { jobs, dry_run: false, verbose: false };
    execute(&bf, &order, cache, &opts)
}

#[test]
fn test_simple_execution() {
    let results = run_build("rule hello\n  run echo hello world\n", None, 1);
    assert_eq!(results.len(), 1);
    assert!(matches!(&results[0], RuleResult::Success(n) if n == "hello"));
}

#[test]
fn test_dependency_order() {
    let input = "\
rule top\n  deps mid\n  run echo top
rule mid\n  deps bottom\n  run echo mid
rule bottom\n  run echo bottom\n";
    let results = run_build(input, Some("top"), 1);
    assert_eq!(results.len(), 3);
    let names: Vec<&str> = results
        .iter()
        .filter_map(|r| match r {
            RuleResult::Success(n) => Some(n.as_str()),
            _ => None,
        })
        .collect();
    assert_eq!(names, vec!["bottom", "mid", "top"]);
}

#[test]
fn test_failure_propagation() {
    let input = "\
rule top\n  deps failing\n  run echo should not run
rule failing\n  run exit 1\n";
    let results = run_build(input, Some("top"), 1);
    let failed_count = results
        .iter()
        .filter(|r| matches!(r, RuleResult::Failed(_, _)))
        .count();
    assert_eq!(failed_count, 2);
}

#[test]
fn test_parallel_execution() {
    let input = "\
rule a\n  run echo a
rule b\n  run echo b
rule c\n  run echo c
rule d\n  run echo d
rule all\n  deps a b c d\n  phony true\n  run echo all done\n";
    let results = run_build(input, Some("all"), 4);
    let success_count = results
        .iter()
        .filter(|r| matches!(r, RuleResult::Success(_)))
        .count();
    assert_eq!(success_count, 5);
}

#[test]
fn test_env_expansion() {
    let input = "\
env GREETING = hello
rule test\n  env NAME = world\n  run echo $GREETING $NAME\n";
    let results = run_build(input, Some("test"), 1);
    assert!(matches!(&results[0], RuleResult::Success(_)));
}

#[test]
fn test_diamond_dependency() {
    let input = "\
rule a
  deps b c
  run echo a

rule b
  deps d
  run echo b

rule c
  deps d
  run echo c

rule d
  run echo d
";
    let mut cache = BuildCache::new();
    let results = full_build(input, "a", 4, &mut cache);
    let successes: Vec<&str> = results
        .iter()
        .filter_map(|r| match r {
            RuleResult::Success(n) => Some(n.as_str()),
            _ => None,
        })
        .collect();
    assert_eq!(successes.len(), 4);
    let pos = |name: &str| successes.iter().position(|&n| n == name).unwrap();
    assert!(pos("d") < pos("b"));
    assert!(pos("d") < pos("c"));
    assert!(pos("b") < pos("a"));
    assert!(pos("c") < pos("a"));
}

#[test]
fn test_large_chain_graph() {
    let mut input = String::new();
    let n = 120;
    for i in 0..n {
        if i == 0 {
            input.push_str(&format!("rule r{}\n  run echo r{}\n", i, i));
        } else {
            input.push_str(&format!("rule r{}\n  deps r{}\n  run echo r{}\n", i, i - 1, i));
        }
    }
    let mut cache = BuildCache::new();
    let results = full_build(&input, &format!("r{}", n - 1), 8, &mut cache);
    let success_count = results
        .iter()
        .filter(|r| matches!(r, RuleResult::Success(_)))
        .count();
    assert_eq!(success_count, n);
}

#[test]
fn test_large_fanout_graph() {
    let n = 110;
    let mut input = String::new();
    let dep_list: Vec<String> = (0..n).map(|i| format!("leaf{}", i)).collect();
    input.push_str(&format!(
        "rule root\n  deps {}\n  phony true\n  run echo done\n",
        dep_list.join(" ")
    ));
    for i in 0..n {
        input.push_str(&format!("rule leaf{}\n  run echo leaf{}\n", i, i));
    }
    let mut cache = BuildCache::new();
    let results = full_build(&input, "root", 16, &mut cache);
    let success_count = results
        .iter()
        .filter(|r| matches!(r, RuleResult::Success(_)))
        .count();
    assert_eq!(success_count, n + 1);
}

#[test]
fn test_failure_propagation_chain() {
    let input = "\
rule top
  deps mid
  run echo top

rule mid
  deps bottom
  run echo mid

rule bottom
  run exit 1
";
    let mut cache = BuildCache::new();
    let results = full_build(input, "top", 1, &mut cache);
    let failed_names: HashSet<&str> = results
        .iter()
        .filter_map(|r| match r {
            RuleResult::Failed(n, _) => Some(n.as_str()),
            _ => None,
        })
        .collect();
    assert!(failed_names.contains("bottom"));
    assert!(failed_names.contains("mid"));
    assert!(failed_names.contains("top"));
}

#[test]
fn test_partial_failure() {
    let input = "\
rule all
  deps good_branch bad_branch
  phony true
  run echo all

rule good_branch
  run echo success

rule bad_branch
  run exit 1
";
    let mut cache = BuildCache::new();
    let results = full_build(input, "all", 4, &mut cache);
    let succeeded: HashSet<&str> = results
        .iter()
        .filter_map(|r| match r {
            RuleResult::Success(n) => Some(n.as_str()),
            _ => None,
        })
        .collect();
    let failed: HashSet<&str> = results
        .iter()
        .filter_map(|r| match r {
            RuleResult::Failed(n, _) => Some(n.as_str()),
            _ => None,
        })
        .collect();
    assert!(succeeded.contains("good_branch"));
    assert!(failed.contains("bad_branch"));
    assert!(failed.contains("all"));
}

#[test]
fn test_dry_run() {
    let input = "rule test\n  run echo should not print\n";
    let bf = parse(input).unwrap();
    let g = build_graph(&bf).unwrap();
    let reachable = reachable_from("test", &g).unwrap();
    let order = topological_sort(&g, &reachable);
    let mut cache = BuildCache::new();
    let opts = ExecOptions { jobs: 1, dry_run: true, verbose: false };
    let results = execute(&bf, &order, &mut cache, &opts);
    assert!(matches!(&results[0], RuleResult::Skipped(_)));
}

#[test]
fn test_phony_never_cached() {
    let input = "\
rule always_run
  phony true
  run echo running
";
    let mut cache = BuildCache::new();
    let results1 = full_build(input, "always_run", 1, &mut cache);
    assert!(matches!(&results1[0], RuleResult::Success(_)));
    let results2 = full_build(input, "always_run", 1, &mut cache);
    assert!(matches!(&results2[0], RuleResult::Success(_)));
}

#[test]
fn rule_with_inputs_is_skipped_once_recorded() {
    let input = "rule build\n  inputs in.txt\n  outputs out.txt\n  run cp in.txt out.txt\n";
    let mut cache = BuildCache::new();
    let first = full_build(input, "build", 1, &mut cache);
    assert!(matches!(&first[0], RuleResult::Success(_)));
    let second = full_build(input, "build", 1, &mut cache);
    assert!(matches!(&second[0], RuleResult::Skipped(_)));
    cache.invalidate("build");
    let third = full_build(input, "build", 1, &mut cache);
    assert!(matches!(&third[0], RuleResult::Success(_)));
}
