use ci_pipeline::dag::Dag;
use ci_pipeline::executor::{
    after_step, command_env_of, command_of, exit_error, finished_line, image_or_default, note_line, parse_set_output,
    shell, slow_threshold, slow_warning, spawn_error, started_line, step_header, step_name_of, timeout_error,
    AfterFailure, AfterStep, Attempt, Executor, ExecutorConfig,
};
use ci_pipeline::flow::{artifact_key_str, record_outputs, settle, JobStage};
use ci_pipeline::history::{averages, compute_slow_jobs, entry_of, remember};
use ci_pipeline::logging::OutputMode;
use ci_pipeline::models::{
    ArtifactConfig, HistoryEntry, IsolationMode, Job, JobResult, JobStatus, Pipeline, RuntimeJob, Step, Timestamp,
    TriggerConfig,
};
use ci_pipeline::plan::refusal_str;
use ci_pipeline::scheduler::{
    unrun_result, Decision, RoundContext, RunState, Scheduler, SchedulerConfig, SkipReason,
};
use ci_pipeline::string_map::StringMap;
use ci_pipeline::trigger::{compute_trigger_skipped_jobs, skipped_jobs, TriggerFacts};
use ci_pipeline::variables::VariableResolver;

fn at(secs: i64) -> Timestamp {
    Timestamp { secs, nanos: 0, offset: 0 }
}

fn step(run: &str) -> Step {
    Step { name: None, run: run.to_string(), env: StringMap::new(), allow_failure: false }
}

fn job(name: &str, deps: &[&str]) -> Job {
    Job {
        name: name.to_string(),
        stage: None,
        depends_on: deps.iter().map(|d| d.to_string()).collect(),
        steps: vec![step("true")],
        condition: None,
        timeout: None,
        retry: None,
        artifacts: vec![],
        cache: vec![],
        services: vec![],
        matrix: None,
        needs_artifacts: vec![],
        env: StringMap::new(),
        isolation: IsolationMode::Host,
        image: None,
    }
}

fn pipeline(jobs: Vec<Job>) -> Pipeline {
    Pipeline { variables: StringMap::new(), stages: vec![], jobs }
}

fn result(name: &str, status: JobStatus, ms: u64) -> JobResult {
    let mut r = unrun_result(name, status, "", at(0));
    r.duration_ms = ms;
    r
}

fn resolver() -> VariableResolver {
    VariableResolver::new(&pipeline(vec![]), StringMap::new())
}

fn names(v: &[(String, Decision)], d: Decision) -> Vec<String> {
    v.iter().filter(|x| x.1 == d).map(|x| x.0.clone()).collect()
}

#[test]
fn jobs_start_when_their_dependencies_are_done() {
    let jobs = vec![job("a", &[]), job("b", &["a"]), job("c", &[])];
    let dag = Dag::build(&jobs).unwrap();
    let order = dag.topological_order().unwrap();
    let previous: StringMap<JobResult> = StringMap::new();
    let skipped: Vec<String> = vec![];
    let r = resolver();
    let ctx = RoundContext { graph: &dag, previous: &previous, skipped: &skipped, parallel: 4, resolver: &r };
    let mut run = RunState::start(&order, &previous);
    let first = run.round(&ctx, at(1)).unwrap();
    let mut started = names(&first, Decision::Start);
    started.sort();
    assert_eq!(started, vec!["a", "c"]);
    assert_eq!(names(&first, Decision::Wait), vec!["b"]);
    assert_eq!(run.running().len(), 2);
    run.finish(result("a", JobStatus::Success, 5));
    let second = run.round(&ctx, at(2)).unwrap();
    assert_eq!(names(&second, Decision::Start), vec!["b"]);
    run.finish(result("b", JobStatus::Success, 5));
    assert!(!run.is_done());
    run.finish(result("c", JobStatus::Failed, 5));
    assert!(run.is_done());
    let results = run.results(&order);
    assert_eq!(results.len(), 3);
}

#[test]
fn parallel_limit_holds() {
    let jobs = vec![job("a", &[]), job("b", &[]), job("c", &[])];
    let dag = Dag::build(&jobs).unwrap();
    let order = dag.topological_order().unwrap();
    let previous: StringMap<JobResult> = StringMap::new();
    let skipped: Vec<String> = vec![];
    let r = resolver();
    let ctx = RoundContext { graph: &dag, previous: &previous, skipped: &skipped, parallel: 2, resolver: &r };
    let mut run = RunState::start(&order, &previous);
    let first = run.round(&ctx, at(1)).unwrap();
    assert_eq!(names(&first, Decision::Start).len(), 2);
    assert_eq!(run.running().len(), 2);
    let second = run.round(&ctx, at(2)).unwrap();
    assert_eq!(names(&second, Decision::Start).len(), 0);
    assert_eq!(run.pending().len(), 1);
}

#[test]
fn skips_have_reasons() {
    let mut never = job("never", &[]);
    never.condition = Some("false".to_string());
    let mut after = job("after", &["never"]);
    after.condition = Some("success()".to_string());
    let jobs = vec![never, after, job("untouched", &[])];
    let dag = Dag::build(&jobs).unwrap();
    let order = dag.topological_order().unwrap();
    let previous: StringMap<JobResult> = StringMap::new();
    let skipped = vec!["untouched".to_string()];
    let r = resolver();
    let ctx = RoundContext { graph: &dag, previous: &previous, skipped: &skipped, parallel: 4, resolver: &r };
    let mut run = RunState::start(&order, &previous);
    let first = run.round(&ctx, at(1)).unwrap();
    assert_eq!(names(&first, Decision::Skip(SkipReason::ConditionNotMet)), vec!["never"]);
    assert_eq!(names(&first, Decision::Skip(SkipReason::TriggerNotMatched)), vec!["untouched"]);
    assert_eq!(names(&first, Decision::Wait), vec!["after"]);
    let never_result = run.completed().get("never").unwrap();
    assert_eq!(never_result.message, Some("Condition not met".to_string()));
    assert!(never_result.status == JobStatus::Skipped);
    let second = run.round(&ctx, at(2)).unwrap();
    assert_eq!(names(&second, Decision::Start), vec!["after"]);
    assert_eq!(SkipReason::TriggerNotMatched.text(), "Trigger paths not matched");
    assert_eq!(SkipReason::DependencyFailed.text(), "Dependency failed");
}

#[test]
fn failed_dependency_keeps_a_job_waiting() {
    let jobs = vec![job("a", &[]), job("b", &["a"])];
    let dag = Dag::build(&jobs).unwrap();
    let order = dag.topological_order().unwrap();
    let previous: StringMap<JobResult> = StringMap::new();
    let skipped: Vec<String> = vec![];
    let r = resolver();
    let ctx = RoundContext { graph: &dag, previous: &previous, skipped: &skipped, parallel: 4, resolver: &r };
    let mut run = RunState::start(&order, &previous);
    run.round(&ctx, at(1)).unwrap();
    run.finish(result("a", JobStatus::Failed, 5));
    let next = run.round(&ctx, at(2)).unwrap();
    assert_eq!(names(&next, Decision::Wait), vec!["b"]);
    run.cancel_pending(at(3));
    let b = run.completed().get("b").unwrap();
    assert!(b.status == JobStatus::Cancelled);
    assert_eq!(b.message, Some("Cancelled by user signal".to_string()));
    assert_eq!(run.results(&order).len(), 2);
}

#[test]
fn resumed_jobs_do_not_run_again() {
    let jobs = vec![job("a", &[]), job("b", &["a"]), job("c", &[])];
    let dag = Dag::build(&jobs).unwrap();
    let order = dag.topological_order().unwrap();
    let mut previous: StringMap<JobResult> = StringMap::new();
    previous.insert("a".to_string(), result("a", JobStatus::Success, 9));
    previous.insert("c".to_string(), result("c", JobStatus::Failed, 9));
    let skipped: Vec<String> = vec![];
    let r = resolver();
    let ctx = RoundContext { graph: &dag, previous: &previous, skipped: &skipped, parallel: 4, resolver: &r };
    let mut run = RunState::start(&order, &previous);
    let first = run.round(&ctx, at(1)).unwrap();
    assert_eq!(names(&first, Decision::Resumed), vec!["a"]);
    let mut started = names(&first, Decision::Start);
    started.sort();
    assert_eq!(started, vec!["b", "c"]);
    assert_eq!(run.completed().get("a").unwrap().duration_ms, 9);
}

#[test]
fn rounds_stop_at_conditions_without_value() {
    let mut odd = job("odd", &[]);
    odd.condition = Some("aé==b".to_string());
    let jobs = vec![odd];
    let dag = Dag::build(&jobs).unwrap();
    let order = dag.topological_order().unwrap();
    let previous: StringMap<JobResult> = StringMap::new();
    let skipped: Vec<String> = vec![];
    let r = resolver();
    let ctx = RoundContext { graph: &dag, previous: &previous, skipped: &skipped, parallel: 1, resolver: &r };
    let mut run = RunState::start(&order, &previous);
    assert!(run.round(&ctx, at(1)).is_none());
}

#[test]
fn execution_order_follows_the_filter() {
    let jobs = vec![job("a", &[]), job("b", &["a"]), job("c", &[])];
    let dag = Dag::build(&jobs).unwrap();
    let mut config = SchedulerConfig::in_dir("/w");
    assert_eq!(config.parallel, 4);
    assert_eq!(config.file, "pipeline.yml");
    assert_eq!(Scheduler::new(config.clone()).execution_order(&dag).unwrap().len(), 3);
    config.filter = Some("b".to_string());
    assert_eq!(Scheduler::new(config.clone()).execution_order(&dag).unwrap(), vec!["a", "b"]);
    config.filter = Some("***".to_string());
    assert!(Scheduler::new(config).execution_order(&dag).is_err());
}

#[test]
fn plan_shows_jobs() {
    let mut a = job("a", &[]);
    a.stage = Some("build".to_string());
    let jobs = vec![a, job("b", &["a"])];
    let dag = Dag::build(&jobs).unwrap();
    let order = dag.topological_order().unwrap();
    let mut previous: StringMap<JobResult> = StringMap::new();
    previous.insert("a".to_string(), result("a", JobStatus::Success, 9));
    previous.insert("b".to_string(), result("b", JobStatus::Failed, 9));
    let mut config = SchedulerConfig::in_dir(".");
    let lines = Scheduler::new(config.clone()).plan_lines(&order, &dag, &previous);
    assert_eq!(
        lines,
        vec![
            "".to_string(),
            "Pipeline Execution Plan".to_string(),
            "═".repeat(80),
            format!("  {:<3} {} {:<35} stage={:<10} deps={}{}", 1, "⏳", "a", "build", "none", " [resume: skip]"),
            format!("  {:<3} {} {:<35} stage={:<10} deps={}{}", 2, "⏳", "b", "-", "a", " [resume: re-run]"),
            "═".repeat(80),
        ]
    );
    config.output_mode = OutputMode::Json;
    assert_eq!(Scheduler::new(config).plan_lines(&order, &dag, &previous), Vec::<String>::new());
    assert_eq!(refusal_str(3), "Pipeline validation failed with 3 errors");
}

#[test]
fn trigger_decides_by_facts() {
    let mut a = job("a", &[]);
    a.stage = Some("s".to_string());
    let p = pipeline(vec![a, job("b", &[])]);
    let facts = |changed, kept, included, matched| TriggerFacts { changed, kept, included, matched };
    assert_eq!(skipped_jobs(&p, facts(false, false, true, false)), Vec::<String>::new());
    assert_eq!(skipped_jobs(&p, facts(true, false, true, false)), vec!["a", "b"]);
    assert_eq!(skipped_jobs(&p, facts(true, true, false, false)), Vec::<String>::new());
    assert_eq!(skipped_jobs(&p, facts(true, true, true, true)), Vec::<String>::new());
    assert_eq!(skipped_jobs(&p, facts(true, true, true, false)), vec!["a"]);
}

#[test]
fn trigger_matches_changed_files() {
    let mut a = job("a", &[]);
    a.stage = Some("s".to_string());
    let p = pipeline(vec![a, job("b", &[])]);
    let trigger = TriggerConfig {
        paths_include: vec!["src/*.rs".to_string(), "a[".to_string()],
        paths_exclude: vec!["docs/*".to_string()],
    };
    let files = |v: &[&str]| v.iter().map(|s| s.to_string()).collect::<Vec<String>>();
    assert_eq!(compute_trigger_skipped_jobs(&p, &trigger, &files(&[])), Vec::<String>::new());
    assert_eq!(compute_trigger_skipped_jobs(&p, &trigger, &files(&["docs/x.md"])), vec!["a", "b"]);
    assert_eq!(
        compute_trigger_skipped_jobs(&p, &trigger, &files(&["docs/x.md", "src/main.rs"])),
        Vec::<String>::new()
    );
    assert_eq!(compute_trigger_skipped_jobs(&p, &trigger, &files(&["README"])), vec!["a"]);
    let open = TriggerConfig { paths_include: vec!["a[".to_string()], paths_exclude: vec![] };
    assert_eq!(compute_trigger_skipped_jobs(&p, &open, &files(&["README"])), Vec::<String>::new());
}

#[test]
fn history_averages_per_job() {
    let entry = |pairs: &[(&str, u64)]| {
        let mut m: StringMap<u64> = StringMap::new();
        for (k, v) in pairs {
            m.insert(k.to_string(), *v);
        }
        HistoryEntry { timestamp: at(0), job_durations: m }
    };
    let avg = averages(&vec![entry(&[("a", 10), ("b", 7)]), entry(&[("a", 15)])]);
    assert_eq!(avg.len(), 2);
    assert_eq!(*avg.get("a").unwrap(), 12);
    assert_eq!(*avg.get("b").unwrap(), 7);
    assert!(avg.get("c").is_none());
}

#[test]
fn history_keeps_ten_runs() {
    let mut history: Vec<HistoryEntry> = vec![];
    for i in 0..15 {
        let entry = entry_of(&[result("a", JobStatus::Success, i)], at(i as i64));
        history = remember(history, entry);
    }
    assert_eq!(history.len(), 10);
    assert_eq!(*history[0].job_durations.get("a").unwrap(), 5);
    assert_eq!(*history[9].job_durations.get("a").unwrap(), 14);
    assert!(history[9].timestamp == at(14));
}

#[test]
fn slow_jobs_take_twice_the_average() {
    let results = vec![
        result("a", JobStatus::Success, 10),
        result("b", JobStatus::Success, 200),
        result("c", JobStatus::Success, 0),
        result("d", JobStatus::Success, 10),
        result("e", JobStatus::Success, 300),
        result("f", JobStatus::Success, 10),
        result("g", JobStatus::Success, 10),
        result("h", JobStatus::Success, 10),
    ];
    let slow = compute_slow_jobs(&results);
    let shown: Vec<(&str, u64, u64)> =
        slow.iter().map(|s| (s.job_name.as_str(), s.duration_ms, s.total_ms)).collect();
    assert_eq!(shown, vec![("e", 300, 550), ("b", 200, 550)]);
    assert_eq!(compute_slow_jobs(&[result("a", JobStatus::Success, 0)]).len(), 0);
    assert_eq!(compute_slow_jobs(&[]).len(), 0);
}

#[test]
fn stages_of_a_simple_job() {
    let j = job("a", &[]);
    let first = JobStage::first(&j);
    assert!(first == JobStage::StartServices { restored: false });
    let run = first.next(&j, true, true);
    assert!(run == JobStage::Run { restored: false });
    assert!(run.next(&j, true, true) == JobStage::StopServices);
    assert!(JobStage::StopServices.next(&j, true, true) == JobStage::Over);
}

#[test]
fn stages_of_a_job_with_everything() {
    let mut j = job("a", &[]);
    j.needs_artifacts = vec!["x".to_string(), "y".to_string()];
    j.cache = vec!["target".to_string()];
    j.artifacts = vec![ArtifactConfig { paths: vec!["out".to_string()] }];
    let mut stage = JobStage::first(&j);
    let mut seen = vec![stage];
    while stage != JobStage::Over {
        let fails = stage == JobStage::RestoreCache || stage == JobStage::DownloadCache;
        stage = stage.next(&j, true, !fails);
        seen.push(stage);
    }
    assert!(
        seen == vec![
            JobStage::FetchArtifacts { index: 0 },
            JobStage::FetchArtifacts { index: 1 },
            JobStage::RestoreCache,
            JobStage::DownloadCache,
            JobStage::StartServices { restored: false },
            JobStage::Run { restored: false },
            JobStage::Package { restored: false },
            JobStage::UploadArtifacts { restored: false },
            JobStage::SaveCache,
            JobStage::UploadCache,
            JobStage::StopServices,
            JobStage::Over,
        ]
    );
    assert!(JobStage::RestoreCache.next(&j, false, false) == JobStage::StartServices { restored: false });
    assert!(JobStage::RestoreCache.next(&j, true, true) == JobStage::StartServices { restored: true });
    assert!(JobStage::UploadArtifacts { restored: true }.next(&j, true, true) == JobStage::StopServices);
    assert!(JobStage::Run { restored: false }.next(&j, true, false) == JobStage::StopServices);
}

#[test]
fn settled_jobs_do_not_run() {
    let c = settle("a", true, true, at(1)).unwrap();
    assert!(c.status == JobStatus::Cancelled);
    assert_eq!(c.message, Some("Cancelled before start".to_string()));
    let h = settle("a", false, true, at(1)).unwrap();
    assert!(h.status == JobStatus::Success);
    assert_eq!(h.message, Some("Skipped (cache hit)".to_string()));
    assert!(settle("a", false, false, at(1)).is_none());
    assert_eq!(artifact_key_str("job", "cafe"), "artifact-job-cafe");
}

#[test]
fn outputs_of_successes_are_recorded() {
    let mut r = resolver();
    let mut ok = result("a", JobStatus::Success, 1);
    ok.outputs.insert("k".to_string(), "v".to_string());
    ok.outputs.insert("k2".to_string(), "v2".to_string());
    record_outputs(&mut r, &ok);
    let mut bad = result("b", JobStatus::Failed, 1);
    bad.outputs.insert("k".to_string(), "v".to_string());
    record_outputs(&mut r, &bad);
    assert_eq!(r.get_job_outputs().get("a").unwrap().get("k2").unwrap(), "v2");
    assert!(r.get_job_outputs().get("b").is_none());
}

#[test]
fn outputs_are_read_from_lines() {
    assert_eq!(
        parse_set_output("::set-output name=tag::v1::2"),
        Some(("tag".to_string(), "v1::2".to_string()))
    );
    assert_eq!(parse_set_output("::set-output name=tag"), None);
    assert_eq!(parse_set_output(" ::set-output name=a::b"), None);
    let mut outputs = StringMap::new();
    note_line(&mut outputs, "::set-output name=a::1");
    note_line(&mut outputs, "noise");
    note_line(&mut outputs, "::set-output name=a::2");
    assert_eq!(outputs.len(), 1);
    assert_eq!(outputs.get("a").unwrap(), "2");
}

#[test]
fn commands_and_their_environment() {
    let mut p = pipeline(vec![]);
    p.variables.insert("V".to_string(), "1".to_string());
    let mut system = StringMap::new();
    system.insert("HOME".to_string(), "/root".to_string());
    let r = VariableResolver::new(&p, system);
    let mut j = job("a", &[]);
    j.env.insert("W".to_string(), "${{ V }}-w".to_string());
    let mut s = step("echo ${{ V }} ${{ UNKNOWN }}");
    assert_eq!(command_of(&r, &j, &s), "echo ${{ V }} ${{ UNKNOWN }}");
    s.run = "echo ${{ W }}".to_string();
    assert_eq!(command_of(&r, &j, &s), "echo 1-w");
    let mut outputs = StringMap::new();
    outputs.insert("V".to_string(), "from step".to_string());
    let env = command_env_of(&r, &j.env, &s.env, &outputs);
    assert_eq!(env.get("W").unwrap(), "1-w");
    assert_eq!(env.get("V").unwrap(), "from step");
    assert_eq!(env.get("HOME").unwrap(), "/root");
}

#[test]
fn attempts_go_from_step_to_step() {
    let r = resolver();
    let mut j = job("a", &[]);
    j.steps = vec![step("one"), step("two"), step("three")];
    j.steps[0].name = Some("first".to_string());
    j.steps[1].allow_failure = true;
    let mut attempt = Attempt::new();
    let plan = attempt.next_step(&j, &r).unwrap();
    assert_eq!(plan.header, "--- Step 1: first ---");
    assert_eq!(plan.command, "one");
    let mut outputs = StringMap::new();
    outputs.insert("k".to_string(), "v".to_string());
    assert!(matches!(attempt.step_ended(&j, &outputs, &None), AfterStep::Continue(None)));
    let plan = attempt.next_step(&j, &r).unwrap();
    assert_eq!(plan.header, "--- Step 2: step-2 ---");
    assert_eq!(plan.env.get("k").unwrap(), "v");
    let none: StringMap<String> = StringMap::new();
    match attempt.step_ended(&j, &none, &Some("boom".to_string())) {
        AfterStep::Continue(Some(line)) => {
            assert_eq!(line, "Step 'step-2' failed but allow_failure=true: boom")
        }
        _ => panic!("the failure is allowed"),
    }
    match attempt.step_ended(&j, &none, &Some("bang".to_string())) {
        AfterStep::Fail(e) => assert_eq!(e, "Step 'step-3' failed: bang"),
        _ => panic!("the failure is not allowed"),
    }
    assert_eq!(attempt.outputs.get("k").unwrap(), "v");
}

#[test]
fn attempt_ends_after_the_last_step() {
    let j = job("a", &[]);
    let mut attempt = Attempt::new();
    let none: StringMap<String> = StringMap::new();
    attempt.step_ended(&j, &none, &None);
    assert!(attempt.next_step(&j, &resolver()).is_none());
}

#[test]
fn retries_back_off() {
    let mut config = ExecutorConfig::in_dir("/w");
    assert_eq!(config.default_timeout, 3600);
    config.default_retry = 2;
    let executor = Executor::new(config);
    let mut run = executor.begin(&job("a", &[]), at(10));
    assert_eq!(run.timeout_secs, 3600);
    assert_eq!(run.max_retries, 2);
    match run.attempt_failed("x") {
        AfterFailure::Retry { backoff_secs, line } => {
            assert_eq!(backoff_secs, 2);
            assert_eq!(line, "!!! Job 'a' attempt 1 failed: x. Retrying in 2s...");
        }
        _ => panic!("two retries are left"),
    }
    match run.attempt_failed("y") {
        AfterFailure::Retry { backoff_secs, .. } => assert_eq!(backoff_secs, 4),
        _ => panic!("one retry is left"),
    }
    assert!(matches!(run.attempt_failed("z"), AfterFailure::GiveUp));
    let failed = run.failed("z", Timestamp { secs: 12, nanos: 345_000_000, offset: 0 });
    assert!(failed.status == JobStatus::Failed);
    assert_eq!(failed.duration_ms, 2345);
    assert_eq!(failed.retry_count, 2);
    assert_eq!(failed.message, Some("z".to_string()));
    assert_eq!(finished_line(&failed), "=== Job 'a' FAILED in 2345ms (retries: 2) - reason: z ===");
    let fine = run.succeeded(StringMap::new(), at(11));
    assert_eq!(finished_line(&fine), "=== Job 'a' succeeded in 1000ms (retries: 2) ===");
    assert!(fine.message.is_none());
    let early = run.setup_failed("Failed to start container", "no docker", at(10));
    assert_eq!(early.message, Some("Failed to start container: no docker".to_string()));
    assert_eq!(early.retry_count, 0);
}

#[test]
fn job_settings_override_defaults() {
    let executor = Executor::new(ExecutorConfig::in_dir("/w"));
    let mut j = job("a", &[]);
    j.timeout = Some(5);
    j.retry = Some(1);
    let run = executor.begin(&j, at(0));
    assert_eq!(run.timeout_secs, 5);
    assert_eq!(run.max_retries, 1);
}

#[test]
fn texts_of_the_executor() {
    assert_eq!(image_or_default(&None), "alpine:latest");
    assert_eq!(image_or_default(&Some("rust".to_string())), "rust");
    assert_eq!(shell(false), ("bash", "-c"));
    assert_eq!(shell(true), ("cmd", "/C"));
    assert_eq!(step_name_of(&step("x"), 4), "step-5");
    assert_eq!(step_header(&step("x"), 0), "--- Step 1: step-1 ---");
    assert_eq!(spawn_error(&step("x")), "Failed to spawn shell command for step: unnamed");
    assert_eq!(exit_error(true, Some(0)), None);
    assert_eq!(exit_error(false, Some(3)), Some("Process exited with non-zero status code: 3".to_string()));
    assert_eq!(exit_error(false, None), Some("Process exited with non-zero status code: -1".to_string()));
    assert_eq!(timeout_error(9), "Job exceeded timeout of 9 seconds");
    assert_eq!(slow_threshold(Some(7)), Some(21));
    assert_eq!(slow_threshold(None), None);
    assert_eq!(
        slow_warning("a", 21),
        "!!! WARNING: Job 'a' is running slower than 3x historical average (21ms) !!!"
    );
    assert_eq!(started_line("a", "now"), "=== Job 'a' started at now ===");
    assert!(matches!(after_step(&step("x"), 0, &None), AfterStep::Continue(None)));
}

#[test]
fn runtime_jobs_begin_pending() {
    let rj = RuntimeJob::new(job("a", &[]));
    assert!(rj.status == JobStatus::Pending);
    assert!(rj.result.is_none());
    assert_eq!(rj.job.name, "a");
    assert!(rj.outputs.is_empty());
    assert!(rj.matrix_params.is_none());
}
