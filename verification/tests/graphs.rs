use ci_pipeline::dag::{Dag, DagError};
use ci_pipeline::models::{IsolationMode, Job, JobStatus, Step};
use ci_pipeline::reporting::ascii_dag_lines;
use ci_pipeline::string_map::StringMap;

fn make_job(name: &str, deps: Vec<&str>) -> Job {
    Job {
        name: name.to_string(),
        stage: None,
        depends_on: deps.into_iter().map(|s| s.to_string()).collect(),
        steps: vec![Step {
            name: None,
            run: "echo hi".to_string(),
            env: StringMap::new(),
            allow_failure: false,
        }],
        condition: None,
        timeout: None,
        retry: None,
        artifacts: vec![],
        cache: vec![],
        services: vec![],
        matrix: None,
        needs_artifacts: vec![],
        env: StringMap::new(),
        isolation: IsolationMode::Host,
        image: None,
    }
}

fn statuses(pairs: &[(&str, JobStatus)]) -> StringMap<JobStatus> {
    let mut m = StringMap::new();
    for (k, s) in pairs {
        m.insert(k.to_string(), *s);
    }
    m
}

fn diamond() -> Dag {
    let jobs = vec![
        make_job("deploy", vec!["test", "lint"]),
        make_job("test", vec!["build"]),
        make_job("lint", vec!["build"]),
        make_job("build", vec![]),
        make_job("docs", vec![]),
    ];
    Dag::build(&jobs).unwrap()
}

#[test]
fn test_dag_build() {
    let jobs = vec![
        make_job("a", vec![]),
        make_job("b", vec!["a"]),
        make_job("c", vec!["a", "b"]),
    ];
    let dag = Dag::build(&jobs).unwrap();
    let order = dag.topological_order().unwrap();
    assert_eq!(order[0], "a");
    assert!(order.iter().position(|x| x == "b") < order.iter().position(|x| x == "c"));
}

#[test]
fn order_puts_dependencies_first() {
    let dag = diamond();
    let order = dag.topological_order().unwrap();
    assert_eq!(order.len(), 5);
    let at = |n: &str| order.iter().position(|x| x == n).unwrap();
    assert!(at("build") < at("test"));
    assert!(at("build") < at("lint"));
    assert!(at("test") < at("deploy"));
    assert!(at("lint") < at("deploy"));
}

#[test]
fn order_of_cycle_is_refused() {
    let jobs = vec![make_job("a", vec!["b"]), make_job("b", vec!["a"])];
    let dag = Dag::build(&jobs).unwrap();
    match dag.topological_order() {
        Err(DagError::Cycle) => {}
        _ => panic!("a cycle has no order"),
    }
    assert_eq!(DagError::Cycle.message(), "Cycle detected in DAG");
}

#[test]
fn self_dependency_is_a_cycle() {
    let dag = Dag::build(&[make_job("a", vec!["a"])]).unwrap();
    assert!(dag.topological_order().is_err());
}

#[test]
fn dependencies_come_last_edge_first() {
    let dag = diamond();
    assert_eq!(dag.dependencies_of("deploy"), vec!["lint", "test"]);
    assert_eq!(dag.dependencies_of("build"), Vec::<String>::new());
    assert_eq!(dag.dependencies_of("missing"), Vec::<String>::new());
    assert_eq!(dag.dependents_of("build"), vec!["lint", "test"]);
    assert_eq!(dag.dependents_of("deploy"), Vec::<String>::new());
}

#[test]
fn unknown_dependencies_are_ignored() {
    let dag = Dag::build(&[make_job("a", vec!["ghost"])]).unwrap();
    assert_eq!(dag.dependencies_of("a"), Vec::<String>::new());
    assert_eq!(dag.topological_order().unwrap(), vec!["a"]);
}

#[test]
fn dependency_checks() {
    let dag = diamond();
    let none = statuses(&[]);
    assert!(dag.has_dependencies_met("build", &none));
    assert!(dag.all_deps_success("build", &none));
    assert!(!dag.has_dependencies_met("deploy", &none));

    let mixed = statuses(&[("test", JobStatus::Success), ("lint", JobStatus::Skipped)]);
    assert!(dag.has_dependencies_met("deploy", &mixed));
    assert!(!dag.all_deps_success("deploy", &mixed));
    assert!(!dag.any_dep_failed("deploy", &mixed));

    let broken = statuses(&[("test", JobStatus::Success), ("lint", JobStatus::Failed)]);
    assert!(!dag.has_dependencies_met("deploy", &broken));
    assert!(dag.any_dep_failed("deploy", &broken));

    let cancelled = statuses(&[("test", JobStatus::Cancelled)]);
    assert!(dag.any_dep_failed("deploy", &cancelled));
}

#[test]
fn filter_keeps_what_is_needed() {
    let dag = diamond();
    let kept = dag.filter_by_pattern("te*").unwrap();
    assert_eq!(kept, vec!["build", "test"]);
    let all = dag.filter_by_pattern("dep*").unwrap();
    assert_eq!(all.len(), 4);
    assert_eq!(all[0], "build");
    assert_eq!(all[3], "deploy");
    assert_eq!(dag.filter_by_pattern("nothing").unwrap(), Vec::<String>::new());
}

#[test]
fn malformed_filter_is_refused() {
    let dag = diamond();
    match dag.filter_by_pattern("a[") {
        Err(DagError::Pattern(m)) => {
            let e = glob::Pattern::new("a[").unwrap_err();
            assert_eq!(m, e.to_string());
            assert_eq!(
                DagError::Pattern(m.clone()).message(),
                format!("Invalid filter pattern: {}", m)
            );
        }
        _ => panic!("the pattern is malformed"),
    }
}

#[test]
fn keep_needed_follows_flags() {
    let dag = Dag::build(&[make_job("a", vec![]), make_job("b", vec!["a"]), make_job("c", vec![])]).unwrap();
    assert_eq!(dag.keep_needed(&vec![false, true, false]).unwrap(), vec!["a", "b"]);
    assert_eq!(dag.keep_needed(&vec![false, false, false]).unwrap(), Vec::<String>::new());
}

#[test]
fn dot_lists_nodes_then_edges() {
    let dag = Dag::build(&[make_job("my-lib/a", vec![]), make_job("say \"b\"", vec!["my-lib/a"])]).unwrap();
    assert_eq!(
        dag.as_dot(),
        "digraph pipeline {\n  rankdir=LR;\n  node [shape=box, style=filled, fillcolor=lightblue];\n  \"my_lib_a\" [label=\"my-lib/a\"];\n  \"say \"b\"\" [label=\"say \\\"b\\\"\"];\n  \"my_lib_a\" -> \"say \"b\"\";\n}\n"
    );
}

#[test]
fn ascii_drawing() {
    let dag = Dag::build(&[make_job("a", vec![]), make_job("bb", vec!["a"])]).unwrap();
    let lines = ascii_dag_lines(&dag);
    let rule = "─".repeat(24);
    assert_eq!(
        lines,
        vec![
            "".to_string(),
            "DAG (Topological Order):".to_string(),
            rule.clone(),
            format!("  {:<3} {} {:<width$} ← depends on: {}", 1, "◯", "a", "─", width = 4),
            format!("  {:<3} {} {:<width$} ← depends on: {}", 2, "◉", "bb", "a", width = 4),
            rule,
            "  ◯ = root (no deps), ◉ = has dependencies".to_string(),
            "".to_string(),
        ]
    );
}

#[test]
fn jobs_are_found_by_name() {
    let dag = diamond();
    assert_eq!(dag.job("lint").unwrap().depends_on, vec!["build"]);
    assert!(dag.job("missing").is_none());
}
