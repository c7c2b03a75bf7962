use minibuild::graph::{build_graph, reachable_from, topological_sort};
use minibuild::parser::{parse, BuildFile};

fn make_buildfile(input: &str) -> BuildFile {
    parse(input).unwrap()
}

fn pos(order: &[String], name: &str) -> usize {
    order.iter().position(|n| n == name).unwrap()
}

#[test]
fn test_simple_graph() {
    let bf = make_buildfile("rule a\n  deps b\n  run echo a\nrule b\n  run echo b\n");
    let g = build_graph(&bf).unwrap();
    assert_eq!(g.deps_of("a").unwrap(), vec!["b"]);
    assert!(g.deps_of("b").unwrap().is_empty());
}

#[test]
fn test_cycle_detection() {
    let bf = make_buildfile("rule a\n  deps b\n  run echo a\nrule b\n  deps a\n  run echo b\n");
    let result = build_graph(&bf);
    assert!(result.is_err());
    let err = result.unwrap_err();
    assert!(err.contains("circular dependency"), "got: {err}");
}

#[test]
fn test_three_node_cycle() {
    let bf = make_buildfile(
        "rule a\n  deps b\n  run echo a\nrule b\n  deps c\n  run echo b\nrule c\n  deps a\n  run echo c\n",
    );
    let result = build_graph(&bf);
    assert!(result.is_err());
    assert!(result.unwrap_err().contains("circular dependency"));
}

#[test]
fn test_missing_dependency() {
    let bf = make_buildfile("rule a\n  deps ghost\n  run echo a\n");
    let result = build_graph(&bf);
    assert!(result.is_err());
    assert!(result.unwrap_err().contains("not defined"));
}

#[test]
fn test_diamond_topo_sort() {
    let bf = make_buildfile(
        "\
rule a\n  deps b c\n  run echo a
rule b\n  deps d\n  run echo b
rule c\n  deps d\n  run echo c
rule d\n  run echo d\n",
    );
    let g = build_graph(&bf).unwrap();
    let all: Vec<String> = g.nodes.clone();
    let order = topological_sort(&g, &all);
    assert_eq!(order.len(), 4);
    assert!(pos(&order, "d") < pos(&order, "b"));
    assert!(pos(&order, "d") < pos(&order, "c"));
    assert!(pos(&order, "b") < pos(&order, "a"));
    assert!(pos(&order, "c") < pos(&order, "a"));
}

#[test]
fn test_reachable_from() {
    let bf = make_buildfile(
        "\
rule a\n  deps b c\n  run echo a
rule b\n  deps d\n  run echo b
rule c\n  run echo c
rule d\n  run echo d
rule e\n  run echo e\n",
    );
    let g = build_graph(&bf).unwrap();
    let reachable = reachable_from("a", &g).unwrap();
    let has = |n: &str| reachable.iter().any(|r| r == n);
    assert!(has("a"));
    assert!(has("b"));
    assert!(has("c"));
    assert!(has("d"));
    assert!(!has("e"));
}

#[test]
fn test_reachable_from_unknown() {
    let bf = make_buildfile("rule a\n  run echo a\n");
    let g = build_graph(&bf).unwrap();
    assert!(reachable_from("ghost", &g).is_err());
}

#[test]
fn missing_dependency_message_names_rule_and_dependency() {
    let bf = make_buildfile("rule a\n  deps ghost\n  run echo a\n");
    assert_eq!(
        build_graph(&bf).unwrap_err(),
        "rule 'a' depends on 'ghost', which is not defined"
    );
}

#[test]
fn cycle_message_lists_the_cycle() {
    let bf = make_buildfile("rule a\n  deps b\nrule b\n  deps a\n");
    assert_eq!(
        build_graph(&bf).unwrap_err(),
        "circular dependency detected: a -> b -> a"
    );
}

#[test]
fn self_dependency_is_a_cycle() {
    let bf = make_buildfile("rule a\n  deps a\n");
    assert_eq!(
        build_graph(&bf).unwrap_err(),
        "circular dependency detected: a -> a"
    );
}

#[test]
fn unknown_target_message() {
    let bf = make_buildfile("rule a\n  run echo a\n");
    let g = build_graph(&bf).unwrap();
    assert_eq!(reachable_from("ghost", &g).unwrap_err(), "target 'ghost' is not defined");
}

#[test]
fn topological_sort_breaks_ties_by_name() {
    let bf = make_buildfile("rule top\n  deps z y x\nrule x\nrule y\nrule z\n");
    let g = build_graph(&bf).unwrap();
    let all = reachable_from("top", &g).unwrap();
    assert_eq!(topological_sort(&g, &all), vec!["x", "y", "z", "top"]);
}

#[test]
fn topological_sort_of_subset_ignores_outside_dependencies() {
    let bf = make_buildfile("rule a\n  deps b\nrule b\n  deps c\nrule c\n");
    let g = build_graph(&bf).unwrap();
    let subset = vec!["a".to_string(), "b".to_string()];
    assert_eq!(topological_sort(&g, &subset), vec!["b", "a"]);
}

#[test]
fn reverse_edges_follow_dependencies() {
    let bf = make_buildfile("rule a\n  deps c\nrule b\n  deps c\nrule c\n");
    let g = build_graph(&bf).unwrap();
    assert_eq!(g.rdeps[2], vec![0, 1]);
    assert!(g.rdeps[0].is_empty());
}

#[test]
fn topological_sort_orders_by_ready_time_before_name() {
    let bf = make_buildfile("rule a\n  deps z\nrule b\nrule z\nrule c\n  deps b\n");
    let g = build_graph(&bf).unwrap();
    let subset = vec!["a".to_string(), "b".to_string(), "c".to_string(), "z".to_string()];
    // b and z are ready at once; c became ready when b was taken, a when z was
    assert_eq!(topological_sort(&g, &subset), vec!["b", "z", "c", "a"]);
}

#[test]
fn detect_cycle_names_a_self_loop() {
    let g = minibuild::graph::BuildGraph {
        nodes: vec!["a".to_string(), "b".to_string()],
        deps: vec![vec![0], vec![]],
        rdeps: vec![vec![0], vec![]],
    };
    assert_eq!(
        minibuild::graph::detect_cycle(&g).unwrap_err(),
        "circular dependency detected: a -> a"
    );
}

#[test]
fn detect_cycle_accepts_a_chain() {
    let bf = make_buildfile("rule a\n  deps b\nrule b\n");
    let g = build_graph(&bf).unwrap();
    assert!(minibuild::graph::detect_cycle(&g).is_ok());
}
