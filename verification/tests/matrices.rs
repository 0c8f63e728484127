use ci_pipeline::matrix::{
    build_matrix_suffix, cartesian_product, expand_depends_on, expand_matrix_jobs, generate_combinations,
    matrix_dependencies_ok,
};
use ci_pipeline::models::{IsolationMode, Job, Step};
use ci_pipeline::string_map::StringMap;

fn plain(name: &str) -> Job {
    Job {
        name: name.to_string(),
        stage: None,
        depends_on: vec![],
        steps: vec![],
        condition: None,
        timeout: None,
        retry: None,
        artifacts: vec![],
        cache: vec![],
        services: vec![],
        matrix: None,
        needs_artifacts: vec![],
        env: StringMap::new(),
        isolation: IsolationMode::Host,
        image: None,
    }
}

#[test]
fn test_cartesian_product() {
    let first = vec!["linux".to_string(), "macos".to_string()];
    let second = vec!["amd64".to_string(), "arm64".to_string()];
    let lists: Vec<&Vec<String>> = vec![&first, &second];
    let result = cartesian_product(&lists);
    assert_eq!(result.len(), 4);
    assert!(result.contains(&vec!["linux".to_string(), "amd64".to_string()]));
    assert!(result.contains(&vec!["linux".to_string(), "arm64".to_string()]));
    assert!(result.contains(&vec!["macos".to_string(), "amd64".to_string()]));
    assert!(result.contains(&vec!["macos".to_string(), "arm64".to_string()]));
}

#[test]
fn test_expand_matrix_jobs() {
    let jobs = vec![Job {
        name: "build".to_string(),
        stage: None,
        depends_on: vec![],
        steps: vec![Step {
            name: Some("build".to_string()),
            run: "echo build".to_string(),
            env: StringMap::new(),
            allow_failure: false,
        }],
        condition: None,
        timeout: None,
        retry: None,
        artifacts: vec![],
        cache: vec![],
        services: vec![],
        matrix: Some({
            let mut m = StringMap::new();
            m.insert("os".to_string(), vec!["linux".to_string(), "macos".to_string()]);
            m.insert("arch".to_string(), vec!["amd64".to_string(), "arm64".to_string()]);
            m
        }),
        needs_artifacts: vec![],
        env: StringMap::new(),
        isolation: IsolationMode::Host,
        image: None,
    }];
    let expanded = expand_matrix_jobs(jobs);
    assert_eq!(expanded.len(), 4);
    let names: Vec<&str> = expanded.iter().map(|j| j.name.as_str()).collect();
    assert!(names.iter().any(|n| n.contains("build/")));
}

#[test]
fn product_of_nothing_is_one_empty_combination() {
    let lists: Vec<&Vec<String>> = vec![];
    assert_eq!(cartesian_product(&lists), vec![Vec::<String>::new()]);
    let empty: Vec<String> = vec![];
    let one = vec!["x".to_string()];
    assert_eq!(cartesian_product(&[&one, &empty]), Vec::<Vec<String>>::new());
}

#[test]
fn product_varies_the_last_list_fastest() {
    let a = vec!["1".to_string(), "2".to_string()];
    let b = vec!["x".to_string(), "y".to_string()];
    let r = cartesian_product(&[&a, &b]);
    let shown: Vec<String> = r.iter().map(|c| c.join("")).collect();
    assert_eq!(shown, vec!["1x", "1y", "2x", "2y"]);
}

#[test]
fn variants_carry_their_combination() {
    let mut job = plain("build");
    job.depends_on = vec!["setup".to_string()];
    let mut m = StringMap::new();
    m.insert("os".to_string(), vec!["linux".to_string(), "macos".to_string()]);
    m.insert("arch".to_string(), vec!["arm".to_string()]);
    job.matrix = Some(m);
    job.env.insert("os".to_string(), "overridden".to_string());
    let out = expand_matrix_jobs(vec![plain("setup"), job]);
    let names: Vec<&str> = out.iter().map(|j| j.name.as_str()).collect();
    assert_eq!(names, vec!["setup", "build/arm-linux", "build/arm-macos"]);
    let v = &out[2];
    assert_eq!(v.env.get("os").unwrap(), "macos");
    assert_eq!(v.env.get("arch").unwrap(), "arm");
    assert_eq!(v.env.get("MATRIX_JOB_INDEX").unwrap(), "1");
    assert_eq!(v.env.get("MATRIX_COMBINATION").unwrap(), "os=macos arch=arm");
    assert_eq!(v.env.get("ORIGINAL_JOB_NAME").unwrap(), "build");
    assert_eq!(v.depends_on, vec!["setup"]);
    assert!(v.matrix.is_none());
}

#[test]
fn single_combination_keeps_the_name() {
    let mut job = plain("only");
    let mut m = StringMap::new();
    m.insert("os".to_string(), vec!["linux".to_string()]);
    job.matrix = Some(m);
    let out = expand_matrix_jobs(vec![job]);
    assert_eq!(out.len(), 1);
    assert_eq!(out[0].name, "only");
    assert_eq!(out[0].env.get("os").unwrap(), "linux");
}

#[test]
fn expanding_twice_changes_nothing() {
    let mut job = plain("b");
    let mut m = StringMap::new();
    m.insert("v".to_string(), vec!["1".to_string(), "2".to_string()]);
    job.matrix = Some(m);
    let once = expand_matrix_jobs(vec![job]);
    let names: Vec<String> = once.iter().map(|j| j.name.clone()).collect();
    let twice = expand_matrix_jobs(once);
    let again: Vec<String> = twice.iter().map(|j| j.name.clone()).collect();
    assert_eq!(names, again);
    assert_eq!(names, vec!["b/1", "b/2"]);
}

#[test]
fn suffix_follows_sorted_keys() {
    let mut combo = StringMap::new();
    combo.insert("z".to_string(), "last".to_string());
    combo.insert("a".to_string(), "first".to_string());
    assert_eq!(build_matrix_suffix(&combo), "first-last");
}

#[test]
fn combinations_pair_keys_with_values() {
    let mut m = StringMap::new();
    m.insert("k".to_string(), vec!["1".to_string(), "2".to_string()]);
    let combos = generate_combinations(&m);
    assert_eq!(combos.len(), 2);
    assert_eq!(combos[1].get("k").unwrap(), "2");
    assert_eq!(expand_depends_on(&vec!["x".to_string()], &m), vec!["x"]);
    assert!(matrix_dependencies_ok(&[], &plain("a"), &[]));
}
