use ci_pipeline::cli::{
    error_lines, exit_code, format_size, gc_lines, lint_lines, list_lines, overview_lines, parse_changed_files,
    reads_input, stats_lines, validation_summary, CachePullArgs, CachePushArgs, CleanArgs, CleanOutcome, CleanTarget,
    Cleaning, OutputFormat, RunArgs, ValidateArgs,
};
use ci_pipeline::logging::OutputMode;
use ci_pipeline::models::{JobResult, JobStatus, Pipeline, Timestamp};
use ci_pipeline::parser::{check_parsed, ParseContext, ParseError};
use ci_pipeline::remote_cache::{CacheEntryInfo, GcResult, ServerStats};
use ci_pipeline::scheduler::unrun_result;
use ci_pipeline::string_map::StringMap;
use ci_pipeline::validator::{LintWarning, ValidationError};

fn run_args() -> RunArgs {
    RunArgs {
        file: "p.yml".to_string(),
        parallel: 3,
        output: OutputFormat::Junit,
        resume: true,
        dry_run: false,
        filter: Some("a*".to_string()),
        working_dir: None,
        timeout: 60,
        retry: 1,
        changed_files: Some("a, b ,,c".to_string()),
    }
}

fn results(statuses: &[JobStatus]) -> Vec<JobResult> {
    statuses
        .iter()
        .map(|s| unrun_result("j", *s, "", Timestamp { secs: 0, nanos: 0, offset: 0 }))
        .collect()
}

#[test]
fn output_formats_are_modes() {
    assert!(OutputMode::from(OutputFormat::Terminal) == OutputMode::Terminal);
    assert!(OutputMode::from(OutputFormat::Json) == OutputMode::Json);
    assert!(OutputMode::from(OutputFormat::Junit) == OutputMode::Junit);
    assert!(OutputMode::from(OutputFormat::Html) == OutputMode::Html);
}

#[test]
fn changed_files_are_listed() {
    let arg = |s: &str| Some(s.to_string());
    assert_eq!(parse_changed_files(&arg("a, b ,,c"), "ignored"), vec!["a", "b", "c"]);
    assert_eq!(parse_changed_files(&arg("a b\nc"), ""), vec!["a b\nc"]);
    assert_eq!(parse_changed_files(&arg("-"), "a b\nc,,d \n"), vec!["a", "b", "c", "d"]);
    assert_eq!(parse_changed_files(&None, "a"), Vec::<String>::new());
    assert!(reads_input(&arg("-")));
    assert!(!reads_input(&arg("--")));
    assert!(!reads_input(&None));
}

#[test]
fn run_arguments_become_settings() {
    let config = run_args().config("/here", "");
    assert_eq!(config.file, "p.yml");
    assert_eq!(config.parallel, 3);
    assert!(config.output_mode == OutputMode::Junit);
    assert!(config.resume);
    assert!(!config.dry_run);
    assert_eq!(config.filter, Some("a*".to_string()));
    assert_eq!(config.working_dir, "/here");
    assert_eq!(config.cache_ttl_days, 7);
    assert_eq!(config.default_timeout, 60);
    assert_eq!(config.default_retry, 1);
    assert_eq!(config.changed_files, vec!["a", "b", "c"]);
    assert!(!config.remote_cache.enabled);
    let mut args = run_args();
    args.working_dir = Some("/there".to_string());
    assert_eq!(args.config("/here", "").working_dir, "/there");
}

#[test]
fn exit_codes() {
    assert_eq!(exit_code(&results(&[])), 0);
    assert_eq!(exit_code(&results(&[JobStatus::Success, JobStatus::Skipped])), 0);
    assert_eq!(exit_code(&results(&[JobStatus::Success, JobStatus::Failed, JobStatus::Cancelled])), 1);
    assert_eq!(exit_code(&results(&[JobStatus::Success, JobStatus::Cancelled])), 0);
    assert_eq!(exit_code(&results(&[JobStatus::Running, JobStatus::Cancelled])), 130);
    assert_eq!(exit_code(&results(&[JobStatus::Cancelled, JobStatus::Pending])), 130);
    assert_eq!(exit_code(&results(&[JobStatus::Running])), 0);
}

#[test]
fn validation_output() {
    let errors = vec![
        ValidationError { location: "jobs.a".to_string(), message: "bad".to_string() },
        ValidationError { location: "pipeline".to_string(), message: "worse".to_string() },
    ];
    assert_eq!(
        error_lines(&errors),
        vec!["✗ Validation failed with 2 error(s):", "  1. [jobs.a] bad", "  2. [pipeline] worse"]
    );
    let mut variables = StringMap::new();
    variables.insert("A".to_string(), "1".to_string());
    let p = Pipeline { variables, stages: vec!["s".to_string(), "t".to_string()], jobs: vec![] };
    assert_eq!(
        overview_lines(&p, 4),
        vec![
            "  - Stages: 2",
            "  - Jobs defined: 0",
            "  - Jobs after matrix expansion: 4",
            "  - Variables: 1"
        ]
    );
}

#[test]
fn lint_output() {
    assert_eq!(lint_lines(&vec![]), vec!["✓ Lint passed (no warnings)"]);
    let w = vec![LintWarning { location: "jobs.a".to_string(), message: "odd".to_string() }];
    assert_eq!(lint_lines(&w), vec!["⚠ Lint found 1 warning(s):", "  1. [warning] [jobs.a] odd"]);
    let args = |lint, strict| ValidateArgs { file: String::new(), lint, strict };
    assert!(!args(true, true).accepts(&w));
    assert!(args(true, false).accepts(&w));
    assert!(args(false, true).accepts(&w));
    assert!(args(true, true).accepts(&vec![]));
    assert_eq!(validation_summary(true), "Summary: Pipeline definition is valid.");
    assert_eq!(validation_summary(false), "Summary: Pipeline definition has validation errors (strict mode).");
}

#[test]
fn cleaning_targets() {
    let some = CleanArgs { all: false }.targets();
    assert!(some[2] == CleanTarget::ExpiredCache);
    let all = CleanArgs { all: true }.targets();
    assert!(all[2] == CleanTarget::Cache);
    let paths: Vec<String> = all.iter().map(|t| t.path("/w")).collect();
    assert_eq!(
        paths,
        vec![
            "/w/.ci/logs",
            "/w/.ci/artifacts",
            "/w/.ci/cache",
            "/w/.ci/state.json",
            "/w/.ci/report.html",
            "/w/.ci/junit.xml"
        ]
    );
}

#[test]
fn cleaning_is_counted() {
    let mut c = Cleaning::new();
    assert_eq!(c.summary(), "Nothing to clean (run with --all to also remove cache).");
    let ok = CleanOutcome::Removed(1);
    let no = CleanOutcome::Failed("denied".to_string());
    assert_eq!(c.note(CleanTarget::Logs, "/l", &ok), "✓ Removed logs directory: /l");
    assert_eq!(c.note(CleanTarget::Artifacts, "/a", &no), "⚠ Failed to remove artifacts: denied");
    assert_eq!(c.note(CleanTarget::ExpiredCache, "/c", &CleanOutcome::Removed(0)), "ℹ No expired cache entries found");
    assert_eq!(
        c.note(CleanTarget::ExpiredCache, "/c", &CleanOutcome::Removed(3)),
        "✓ Cleaned 3 expired cache entries"
    );
    assert_eq!(c.note(CleanTarget::ExpiredCache, "/c", &no), "⚠ Failed to cleanup cache: denied");
    assert_eq!(c.note(CleanTarget::Cache, "/c", &ok), "✓ Removed cache directory: /c");
    assert_eq!(c.note(CleanTarget::State, "/s", &ok), "✓ Removed: /s");
    assert_eq!(c.note(CleanTarget::Junit, "/j", &no), "⚠ Failed to remove /j: denied");
    assert_eq!(c.removed, 6);
    assert_eq!(c.summary(), "\nCleanup complete. Removed 6 item(s).");
}

#[test]
fn sizes_agree_with_double_precision() {
    let shown = |bytes: u64| {
        if bytes < 1024 {
            format!("{} B", bytes)
        } else if bytes < 1024 * 1024 {
            format!("{:.1} KB", bytes as f64 / 1024.0)
        } else if bytes < 1024 * 1024 * 1024 {
            format!("{:.1} MB", bytes as f64 / (1024.0 * 1024.0))
        } else {
            format!("{:.2} GB", bytes as f64 / (1024.0 * 1024.0 * 1024.0))
        }
    };
    for bytes in 0u64..5000 {
        assert_eq!(format_size(bytes), shown(bytes));
    }
    let mut x: u64 = 11;
    for _ in 0..5000 {
        x = x.wrapping_mul(6364136223846793005).wrapping_add(1442695040888963407);
        let bytes = x >> (x % 54);
        assert_eq!(format_size(bytes), shown(bytes));
    }
    for bytes in [1023, 1024, 1024 * 1024 - 1, 1024 * 1024, (1 << 30) - 1, 1 << 30, u64::MAX] {
        assert_eq!(format_size(bytes), shown(bytes));
    }
}

#[test]
fn cache_listing() {
    let long = "k".repeat(60);
    let entries = vec![CacheEntryInfo { key: long.clone(), size_bytes: 2048, last_accessed: "then".to_string() }];
    assert_eq!(
        list_lines("ns", &entries),
        vec![
            "Remote Cache Entries (namespace: ns)".to_string(),
            "─".repeat(80),
            format!("  {:<50} {:>10}  last accessed: {}", format!("{}...", &long[..45]), "2.0 KB", "then"),
            "".to_string(),
            "Total: 1 entries".to_string(),
        ]
    );
    assert_eq!(list_lines("ns", &vec![])[2], "  (empty)");
}

#[test]
fn transfer_output() {
    let push = CachePushArgs { path: "f".to_string(), key: "k".to_string(), namespace: None };
    assert_eq!(push.lines(), vec!["Pushing to remote cache...", "  Key: k", "  File: f"]);
    let pull = CachePullArgs { key: "k".to_string(), output: "o".to_string(), namespace: Some("n".to_string()) };
    assert_eq!(pull.lines(), vec!["Pulling from remote cache...", "  Key: k", "  Output: o", "  Namespace: n"]);
}

#[test]
fn server_output() {
    assert_eq!(
        gc_lines(&GcResult { removed: 2, freed_bytes: 1536 }),
        vec!["✓ GC complete", "  Removed: 2 entries", "  Freed: 1.5 KB"]
    );
    let mut stats = ServerStats {
        total_entries: 3,
        total_size_bytes: 10,
        hits_last_24h: 4,
        misses_last_24h: 5,
        namespace_counts: StringMap::new(),
    };
    assert_eq!(
        stats_lines(&stats),
        vec![
            "Remote Cache Statistics".to_string(),
            "─".repeat(80),
            "  Total entries: 3".to_string(),
            "  Total size: 10 B".to_string(),
            "  Hits (24h): 4".to_string(),
            "  Misses (24h): 5".to_string(),
            "".to_string(),
            "  Namespace distribution:".to_string(),
            "    (none)".to_string(),
            "".to_string(),
        ]
    );
    stats.namespace_counts.insert("main".to_string(), 3);
    assert_eq!(stats_lines(&stats)[8], "    main: 3 entries");
}

#[test]
fn pipelines_need_jobs() {
    let empty = Pipeline { variables: StringMap::new(), stages: vec![], jobs: vec![] };
    match check_parsed(empty) {
        Err(e) => assert_eq!(e.message(), "Pipeline must define at least one job"),
        Ok(_) => panic!("there is no job"),
    }
    let context = ParseContext::new("x.yml");
    assert_eq!(context.file_path, "x.yml");
    assert_eq!(context.not_found().message(), "Pipeline file not found: x.yml");
    assert_eq!(context.unreadable().message(), "Failed to read pipeline file: x.yml");
    assert_eq!(
        ParseError::malformed(Some((3, 7)), "what\nelse").message(),
        "YAML parse error at line 3, column 7: what"
    );
    assert_eq!(ParseError::malformed(None, "").message(), "YAML parse error at line 0, column 0: ");
}
