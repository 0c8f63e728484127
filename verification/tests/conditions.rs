use ci_pipeline::conditions::ConditionEvaluator;
use ci_pipeline::models::{IsolationMode, Job, JobStatus, Pipeline, Step};
use ci_pipeline::string_map::StringMap;
use ci_pipeline::syntax::{check_condition_syntax, ConditionFault};
use ci_pipeline::validator::{validate_condition_syntax, validate_pipeline, validate_pipeline_checked};
use ci_pipeline::variables::{build_merged_env, ResolveError, VariableResolver};

fn map(pairs: &[(&str, &str)]) -> StringMap<String> {
    let mut m = StringMap::new();
    for (k, v) in pairs {
        m.insert(k.to_string(), v.to_string());
    }
    m
}

fn resolver(globals: &[(&str, &str)], system: &[(&str, &str)]) -> VariableResolver {
    let p = Pipeline { variables: map(globals), stages: vec![], jobs: vec![] };
    VariableResolver::new(&p, map(system))
}

fn evaluator(pairs: &[(&str, JobStatus)]) -> ConditionEvaluator {
    let mut m = StringMap::new();
    for (k, s) in pairs {
        m.insert(k.to_string(), *s);
    }
    ConditionEvaluator::new(m)
}

fn value(pairs: &[(&str, JobStatus)], expr: &str) -> Option<bool> {
    evaluator(pairs).evaluate_checked(expr, &resolver(&[], &[]), &map(&[]), &map(&[]))
}

fn job(name: &str) -> Job {
    Job {
        name: name.to_string(),
        stage: None,
        depends_on: vec![],
        steps: vec![Step { name: None, run: "true".to_string(), env: StringMap::new(), allow_failure: false }],
        condition: None,
        timeout: None,
        retry: None,
        artifacts: vec![],
        cache: vec![],
        services: vec![],
        matrix: None,
        needs_artifacts: vec![],
        env: StringMap::new(),
        isolation: IsolationMode::Host,
        image: None,
    }
}

#[test]
fn scopes_shadow_each_other() {
    let r = resolver(&[("A", "global"), ("B", "global"), ("C", "global")], &[("A", "sys"), ("D", "sys")]);
    let job_env = map(&[("A", "job"), ("B", "job")]);
    let step_env = map(&[("A", "step")]);
    let show = |n: &str| r.resolve_single_var(n, &job_env, &step_env).ok().unwrap();
    assert_eq!(show("A"), "step");
    assert_eq!(show("B"), "job");
    assert_eq!(show("C"), "global");
    assert_eq!(show("D"), "sys");
}

#[test]
fn references_are_replaced() {
    let r = resolver(&[("NAME", "world"), ("GREET", "hello ${{ NAME }}")], &[]);
    let e = map(&[]);
    assert_eq!(r.resolve_value("say ${{GREET}}!", &e, &e).ok().unwrap(), "say hello world!");
    assert_eq!(r.resolve_value("no refs $ { } {{x}}", &e, &e).ok().unwrap(), "no refs $ { } {{x}}");
    assert_eq!(r.resolve_value("${{  NAME  }}${{NAME}}", &e, &e).ok().unwrap(), "worldworld");
}

#[test]
fn unresolvable_text_stays() {
    let r = resolver(&[("LOOP", "${{ LOOP }}")], &[]);
    let e = map(&[]);
    match r.resolve_value("${{ LOOP }}", &e, &e) {
        Err(ResolveError::TooDeep) => {}
        _ => panic!("the reference never ends"),
    }
    assert_eq!(
        ResolveError::TooDeep.message(),
        "Variable resolution exceeded max nesting depth"
    );
    match r.resolve_value("${{ NOPE }}", &e, &e) {
        Err(err) => assert_eq!(err.message(), "Variable 'NOPE' not found"),
        Ok(_) => panic!("the variable is unknown"),
    }
    assert_eq!(r.try_resolve_value("x ${{ NOPE }}", &e, &e), "x ${{ NOPE }}");
}

#[test]
fn job_outputs_can_be_referred_to() {
    let mut r = resolver(&[], &[]);
    let e = map(&[]);
    r.set_job_output("build", "version", "1.2");
    r.set_job_output("build", "a.b", "dotted");
    assert_eq!(r.resolve_value("v${{ jobs.build.outputs.version }}", &e, &e).ok().unwrap(), "v1.2");
    assert_eq!(r.resolve_value("${{ jobs.build.outputs.a.b }}", &e, &e).ok().unwrap(), "dotted");
    match r.resolve_value("${{ jobs.build.outputs.other }}", &e, &e) {
        Err(err) => assert_eq!(
            err.message(),
            "Cannot resolve output: jobs.build.outputs.other - job output not found"
        ),
        Ok(_) => panic!("there is no such output"),
    }
    match r.resolve_value("${{ jobs.build.status }}", &e, &e) {
        Err(err) => assert_eq!(err.message(), "Invalid job reference: jobs.build.status"),
        Ok(_) => panic!("this is no output"),
    }
    r.set_job_outputs("build", map(&[("only", "this")]));
    assert_eq!(r.get_job_outputs().get("build").unwrap().len(), 1);
    assert_eq!(r.get_job_outputs().get("build").unwrap().get("only").unwrap(), "this");
}

#[test]
fn environments_are_merged() {
    let merged = build_merged_env(
        &map(&[("A", "sys"), ("E", "sys")]),
        &map(&[("A", "g"), ("B", "g")]),
        &map(&[("A", "j"), ("C", "j")]),
        &map(&[("A", "s"), ("D", "s")]),
    );
    let show = |n: &str| merged.get(n).unwrap().clone();
    assert_eq!(merged.len(), 5);
    assert_eq!(show("A"), "s");
    assert_eq!(show("B"), "g");
    assert_eq!(show("C"), "j");
    assert_eq!(show("D"), "s");
    assert_eq!(show("E"), "sys");
}

#[test]
fn status_functions() {
    let fine = [("a", JobStatus::Success), ("b", JobStatus::Skipped), ("c", JobStatus::Pending)];
    let bad = [("a", JobStatus::Success), ("b", JobStatus::Failed)];
    let stopped = [("a", JobStatus::Cancelled)];
    assert_eq!(value(&fine, "success()"), Some(true));
    assert_eq!(value(&fine, "failure()"), Some(false));
    assert_eq!(value(&bad, "success()"), Some(false));
    assert_eq!(value(&bad, " failure() "), Some(true));
    assert_eq!(value(&stopped, "success()"), Some(false));
    assert_eq!(value(&stopped, "failure()"), Some(false));
    assert_eq!(value(&bad, "always()"), Some(true));
    assert_eq!(value(&bad, "!always()"), Some(false));
    assert_eq!(value(&bad, "! failure()"), Some(false));
}

#[test]
fn operators_compare_text() {
    assert_eq!(value(&[], "'a' == \"a\""), Some(true));
    assert_eq!(value(&[], "a != b"), Some(true));
    assert_eq!(value(&[], "'10' < '9'"), Some(true));
    assert_eq!(value(&[], "b >= b"), Some(true));
    assert_eq!(value(&[], "b <= a"), Some(false));
    assert_eq!(value(&[], "b > a"), Some(true));
    assert_eq!(value(&[], "'a && b' == 'a && b'"), Some(true));
}

#[test]
fn connectives_and_parentheses() {
    assert_eq!(value(&[], "true && false || true"), Some(true));
    assert_eq!(value(&[], "(true || false) && false"), Some(false));
    assert_eq!(value(&[], "((true))"), Some(true));
    assert_eq!(value(&[], "(a == a && b == b)"), Some(true));
    assert_eq!(value(&[], "anything else"), Some(false));
    assert_eq!(value(&[], "'true'"), Some(true));
    assert_eq!(value(&[], "false"), Some(false));
}

#[test]
fn references_in_conditions() {
    let r = resolver(&[("BRANCH", "main")], &[]);
    let e = map(&[]);
    let ev = evaluator(&[]);
    assert_eq!(ev.evaluate_checked("${{ BRANCH }} == 'main'", &r, &e, &e), Some(true));
    assert_eq!(ev.evaluate("${{ BRANCH }} == 'dev'", &r, &e, &e).ok(), Some(false));
    assert_eq!(ev.evaluate_inner("true").ok(), Some(true));
}

#[test]
fn positions_in_conditions_count_bytes() {
    assert_eq!(value(&[], "aé==b"), None);
    assert_eq!(value(&[], "'é' == 'é'"), Some(false));
    assert_eq!(value(&[], "é && true"), Some(false));
    assert_eq!(value(&[], "a == 'é'"), Some(false));
}

#[test]
fn condition_faults() {
    let fault = |e: &str| match validate_condition_syntax(e) {
        Ok(()) => "fine".to_string(),
        Err(f) => f.message(),
    };
    assert_eq!(fault("  "), "Empty expression");
    assert_eq!(fault("a)"), "Unmatched closing parenthesis at position 1");
    assert_eq!(fault("(a"), "Unmatched parentheses");
    assert_eq!(fault("x ${{  }}"), "Empty variable reference at position 2");
    assert_eq!(fault("${{ a"), "Unclosed variable reference");
    assert_eq!(fault("success"), "Function 'success' must be called as success()");
    assert_eq!(fault("success() && 'failure' == ${{ x }}"), "fine");
    assert_eq!(fault("other() == true"), "fine");
}

#[test]
fn uncheckable_conditions_are_told_apart() {
    assert!(check_condition_syntax("é${{ a }}").is_none());
    assert!(matches!(check_condition_syntax("always"), Some(Some(ConditionFault::BadCall(_)))));
    let mut bad = job("a");
    bad.condition = Some("é${{ a }}".to_string());
    let p = Pipeline { variables: map(&[]), stages: vec![], jobs: vec![bad] };
    assert!(validate_pipeline_checked(&p).is_none());
}

#[test]
fn validation_reports_everything_in_order() {
    let mut a = job("a");
    a.depends_on = vec!["ghost".to_string(), "b".to_string()];
    a.stage = Some("nowhere".to_string());
    a.timeout = Some(0);
    a.retry = Some(0);
    a.steps = vec![];
    a.condition = Some("success".to_string());
    let mut b = job("b");
    b.depends_on = vec!["a".to_string()];
    let p = Pipeline { variables: map(&[]), stages: vec!["build".to_string()], jobs: vec![a, b, job("b")] };
    let errors = validate_pipeline_checked(&p).unwrap();
    let shown: Vec<String> = errors.iter().map(|e| e.text()).collect();
    assert_eq!(
        shown,
        vec![
            "[jobs.b] Duplicate job name: 'b'",
            "[jobs.a.depends_on] Job 'a' depends on non-existent job 'ghost'",
            "[pipeline] Pipeline contains cyclic dependencies",
            "[jobs.a.stage] Job 'a' references non-existent stage 'nowhere'",
            "[jobs.a.steps] Job 'a' must define at least one step",
            "[jobs.a.timeout] Job 'a' timeout must be a positive integer",
            "[jobs.a.retry] Job 'a' retry must be a positive integer",
            "[jobs.a.condition] Invalid condition for job 'a': Function 'success' must be called as success()",
        ]
    );
}

#[test]
fn cycles_are_reported() {
    let mut a = job("a");
    a.depends_on = vec!["b".to_string()];
    let mut b = job("b");
    b.depends_on = vec!["a".to_string()];
    let p = Pipeline { variables: map(&[]), stages: vec![], jobs: vec![a, b] };
    let errors = validate_pipeline(&p).ok().unwrap();
    assert_eq!(errors.len(), 1);
    assert_eq!(errors[0].location, "pipeline");
    assert_eq!(errors[0].message, "Pipeline contains cyclic dependencies");
}

#[test]
fn sound_pipeline_has_no_errors() {
    let mut a = job("a");
    a.stage = Some("any".to_string());
    a.condition = Some("success() && ${{ X }} == '1'".to_string());
    let p = Pipeline { variables: map(&[]), stages: vec![], jobs: vec![a] };
    assert_eq!(validate_pipeline(&p).ok().unwrap().len(), 0);
}
