use ci_pipeline::executor::{container_failed_line, container_line, shown_warning};
use ci_pipeline::matrix::expand_matrix_jobs;
use ci_pipeline::models::{IsolationMode, Job, Pipeline, Step, TriggerConfig};
use ci_pipeline::paths::{archived_name, components_of, path_le_of, sort_paths};
use ci_pipeline::prepare::{Beginning, Refusal};
use ci_pipeline::scheduler::{Scheduler, SchedulerConfig};
use ci_pipeline::string_map::StringMap;
use ci_pipeline::syntax::check_condition_syntax;
use ci_pipeline::trigger::compute_trigger_skipped_jobs;
use ci_pipeline::validator::fits_of;
use std::path::{Component, Path, PathBuf};

fn job(name: &str, deps: &[&str]) -> Job {
    Job {
        name: name.to_string(),
        stage: None,
        depends_on: deps.iter().map(|d| d.to_string()).collect(),
        steps: vec![Step { name: None, run: "true".to_string(), env: StringMap::new(), allow_failure: false }],
        condition: None,
        timeout: None,
        retry: None,
        artifacts: vec![],
        cache: vec![],
        services: vec![],
        matrix: None,
        needs_artifacts: vec![],
        env: StringMap::new(),
        isolation: IsolationMode::Host,
        image: None,
    }
}

fn with_matrix(mut j: Job, name: &str, values: &[&str]) -> Job {
    let mut m = StringMap::new();
    m.insert(name.to_string(), values.iter().map(|v| v.to_string()).collect());
    j.matrix = Some(m);
    j
}

fn pipeline(jobs: Vec<Job>) -> Pipeline {
    Pipeline { variables: StringMap::new(), stages: vec!["s".to_string()], jobs }
}

fn random(x: &mut u64) -> u64 {
    *x = x.wrapping_mul(6364136223846793005).wrapping_add(1442695040888963407);
    *x >> 33
}

#[test]
fn sound_pipelines_are_prepared() {
    let mut config = SchedulerConfig::in_dir("/w");
    config.changed_files = vec!["docs/x".to_string()];
    let scheduler = Scheduler::new(config.clone());
    let mut a = with_matrix(job("a", &[]), "os", &["x", "y"]);
    a.stage = Some("s".to_string());
    let trigger = Some(TriggerConfig { paths_include: vec!["src/*".to_string()], paths_exclude: vec![] });
    let run = scheduler.prepare(pipeline(vec![a.clone(), job("b", &[])]), &trigger).ok().unwrap();
    let names: Vec<&str> = run.pipeline.jobs.iter().map(|j| j.name.as_str()).collect();
    assert_eq!(names, vec!["a/x", "a/y", "b"]);
    assert_eq!(run.skipped, vec!["a/x", "a/y"]);
    assert_eq!(run.order.len(), 3);
    assert_eq!(scheduler.beginning(&run.order), Beginning::Run);
    assert_eq!(Beginning::Run.text(), None);

    let none = scheduler.prepare(pipeline(vec![a.clone(), job("b", &[])]), &None).ok().unwrap();
    assert_eq!(none.skipped, Vec::<String>::new());

    config.filter = Some("b".to_string());
    config.dry_run = true;
    let scheduler = Scheduler::new(config.clone());
    let run = scheduler.prepare(pipeline(vec![job("a", &[]), job("b", &["a"]), job("c", &[])]), &None).ok().unwrap();
    assert_eq!(run.order, vec!["a", "b"]);
    assert_eq!(scheduler.beginning(&run.order), Beginning::ShowOnly);
    assert_eq!(Beginning::ShowOnly.text(), Some("\n--dry-run mode: no jobs executed."));

    config.filter = Some("z".to_string());
    let scheduler = Scheduler::new(config);
    let run = scheduler.prepare(pipeline(vec![job("a", &[])]), &None).ok().unwrap();
    assert_eq!(scheduler.beginning(&run.order), Beginning::Nothing);
    assert_eq!(Beginning::Nothing.text(), Some("No jobs match the filter pattern."));
}

#[test]
fn backslashes_do_not_hide_other_files() {
    let mut a = job("a", &[]);
    a.stage = Some("s".to_string());
    let p = pipeline(vec![a, job("b", &[])]);
    let trigger = |wanted: &[&str], unwanted: &[&str]| TriggerConfig {
        paths_include: wanted.iter().map(|s| s.to_string()).collect(),
        paths_exclude: unwanted.iter().map(|s| s.to_string()).collect(),
    };
    let files = |v: &[&str]| -> Vec<String> { v.iter().map(|s| s.to_string()).collect() };
    let none: Vec<String> = Vec::new();
    assert_eq!(compute_trigger_skipped_jobs(&p, &trigger(&[], &[]), &files(&["\\a"])), none);
    let src = trigger(&["src/**"], &[]);
    assert_eq!(compute_trigger_skipped_jobs(&p, &src, &files(&["src/main.rs", "a\\b"])), none);
    assert_eq!(compute_trigger_skipped_jobs(&p, &src, &files(&["\\a", "src/main.rs"])), none);
    let odd = trigger(&["q\\z", "src/**"], &["docs/*"]);
    assert_eq!(compute_trigger_skipped_jobs(&p, &odd, &files(&["src/main.rs"])), none);
    assert_eq!(compute_trigger_skipped_jobs(&p, &odd, &files(&["lib/x"])), vec!["a"]);
    assert_eq!(compute_trigger_skipped_jobs(&p, &odd, &files(&["docs/x"])), vec!["a", "b"]);
    assert_eq!(compute_trigger_skipped_jobs(&p, &trigger(&["***"], &["***"]), &files(&["x"])), none);
}

#[test]
fn filters_keep_no_more_than_they_must() {
    let mut config = SchedulerConfig::in_dir("/w");
    let jobs = || vec![job("a", &[]), job("b", &["a"]), job("c", &["b"]), job("d", &["c"]), job("e", &[])];
    let all = Scheduler::new(config.clone()).prepare(pipeline(jobs()), &None).ok().unwrap().order;
    config.filter = Some("c".to_string());
    let kept = Scheduler::new(config.clone()).prepare(pipeline(jobs()), &None).ok().unwrap().order;
    assert_eq!(kept, vec!["a", "b", "c"]);
    let same: Vec<String> = all.into_iter().filter(|n| kept.contains(n)).collect();
    assert_eq!(same, kept);
    config.filter = Some("z".to_string());
    assert!(Scheduler::new(config).prepare(pipeline(jobs()), &None).ok().unwrap().order.is_empty());
}

#[test]
fn unsound_pipelines_are_refused() {
    let mut config = SchedulerConfig::in_dir("/w");
    let scheduler = Scheduler::new(config.clone());
    match scheduler.prepare(pipeline(vec![job("a", &["z"]), job("a", &[])]), &None) {
        Err(r) => {
            match &r {
                Refusal::Invalid(errors) => assert_eq!(errors.len(), 2),
                _ => panic!("the pipeline has errors"),
            }
            assert_eq!(r.message(), "Pipeline validation failed with 2 errors");
        }
        Ok(_) => panic!("the pipeline has errors"),
    }
    let mut cut = job("a", &[]);
    cut.condition = Some("é${{ x }}".to_string());
    match scheduler.prepare(pipeline(vec![cut]), &None) {
        Err(r) => assert!(matches!(r, Refusal::Unchecked)),
        Ok(_) => panic!("the condition cannot be checked"),
    }
    let knot = vec![with_matrix(job("a", &["c"]), "x", &["y", "z"]), job("a/y", &[]), job("c", &["a/y"])];
    match scheduler.prepare(pipeline(knot), &None) {
        Err(r) => {
            assert!(matches!(r, Refusal::Order(_)));
            assert_eq!(r.message(), "Cycle detected in DAG");
        }
        Ok(_) => panic!("the variant and the job of the same name depend on each other"),
    }
    config.filter = Some("***".to_string());
    match Scheduler::new(config).prepare(pipeline(vec![job("a", &[])]), &None) {
        Err(r) => {
            assert!(matches!(r, Refusal::Order(_)));
            assert!(r.message().starts_with("Invalid filter pattern: "));
        }
        Ok(_) => panic!("the pattern is refused"),
    }
    assert!(fits_of(&[job("a", &["b"]), job("b", &[])]));
}

#[test]
fn variants_run_where_their_job_runs() {
    let mut a = with_matrix(job("a", &[]), "os", &["x", "y"]);
    a.isolation = IsolationMode::Container;
    a.image = Some("rust".to_string());
    let jobs = expand_matrix_jobs(vec![a, job("a/x", &[])]);
    assert_eq!(jobs.len(), 3);
    for j in &jobs[..2] {
        assert_eq!(j.isolation, IsolationMode::Container);
        assert_eq!(j.image, Some("rust".to_string()));
    }
    assert_eq!(jobs[2].isolation, IsolationMode::Host);
    assert_eq!(jobs[2].image, None);
    assert_eq!(container_line("rust"), "=== Starting container with image 'rust' ===");
    assert_eq!(container_failed_line("no"), "=== Failed to start container: no ===");
}

#[test]
fn warnings_are_yellow() {
    colored::control::set_override(true);
    assert_eq!(shown_warning("slow"), "\u{1b}[33mslow\u{1b}[0m");
}

fn some_path(x: &mut u64) -> String {
    let parts = ["a", "b", "a-", ".", "..", "", "é", "ab", "A"];
    let n = 1 + random(x) % 4;
    let picked: Vec<&str> = (0..n).map(|_| parts[(random(x) % parts.len() as u64) as usize]).collect();
    let rooted = if random(x) % 3 == 0 { "/" } else { "" };
    format!("{}{}", rooted, picked.join("/"))
}

#[test]
fn paths_agree_with_the_standard_library() {
    let mut x: u64 = 11;
    for _ in 0..3000 {
        let (a, b) = (some_path(&mut x), some_path(&mut x));
        let (p, q) = (Path::new(&a), Path::new(&b));
        let parts: Vec<String> = p.components().map(|c| c.as_os_str().to_string_lossy().to_string()).collect();
        assert_eq!(components_of(&a), parts, "{}", a);
        assert_eq!(path_le_of(&a, &b), p <= q, "{} {}", a, b);
        let expected: PathBuf = match p.strip_prefix(q) {
            Ok(r) => r.components().collect(),
            Err(_) => p.file_name().map(PathBuf::from).unwrap_or_else(|| p.to_path_buf()),
        };
        assert_eq!(PathBuf::from(archived_name(&a, &b)), expected, "{} {}", a, b);
    }
    assert!(Path::new("./a").components().next() == Some(Component::CurDir));
    assert_eq!(archived_name("/w/sub/f.o", "/w"), "sub/f.o");
    assert_eq!(archived_name("/v/f.o", "/w"), "f.o");
    assert_eq!(archived_name("..", "/w"), "..");
}

#[test]
fn paths_are_sorted_by_components() {
    let given: Vec<String> = ["a/b", "a-b", "b", "a//b", "/z", ".", ".."].iter().map(|s| s.to_string()).collect();
    assert_eq!(sort_paths(&given), vec!["/z", ".", "..", "a/b", "a//b", "a-b", "b"]);
    let mut x: u64 = 5;
    for _ in 0..200 {
        let given: Vec<String> = (0..8).map(|_| some_path(&mut x)).collect();
        let mut expected: Vec<PathBuf> = given.iter().map(PathBuf::from).collect();
        expected.sort();
        let sorted: Vec<PathBuf> = sort_paths(&given).into_iter().map(PathBuf::from).collect();
        let texts: Vec<String> = sorted.iter().map(|p| p.to_string_lossy().to_string()).collect();
        let wanted: Vec<String> = expected.iter().map(|p| p.to_string_lossy().to_string()).collect();
        assert_eq!(texts, wanted);
    }
}

#[test]
fn conditions_are_balanced_and_closed() {
    assert!(matches!(check_condition_syntax("(success()) && ${{ a }} == 'x'"), Some(None)));
    for bad in ["(", ")", ")(", "${{ }}", "${{ a", "${{ a }} ${{ b", "${{}}"] {
        assert!(matches!(check_condition_syntax(bad), Some(Some(_))), "{}", bad);
    }
    assert!(matches!(check_condition_syntax("${{ a ${{ b }}"), Some(None)));
}
