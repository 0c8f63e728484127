use ci_pipeline::artifacts::is_expired;
use ci_pipeline::cache_server::{accept_chunk, byte_range_of, parse_content_range};
use ci_pipeline::conditions::ConditionEvaluator;
use ci_pipeline::dag::Dag;
use ci_pipeline::executor::parse_set_output;
use ci_pipeline::models::{IsolationMode, Job, JobStatus, Pipeline, Timestamp};
use ci_pipeline::remote_cache::{ChunkedUpload, Reply, UploadStep};
use ci_pipeline::reporting::{html_escape, xml_escape};
use ci_pipeline::scheduler::{RoundContext, RunState};
use ci_pipeline::string_map::StringMap;
use ci_pipeline::syntax::check_condition_syntax;
use ci_pipeline::variables::{build_merged_env, ResolveError, VariableResolver};

fn map(pairs: &[(&str, &str)]) -> StringMap<String> {
    let mut m = StringMap::new();
    for (k, v) in pairs {
        m.insert(k.to_string(), v.to_string());
    }
    m
}

fn resolver(globals: &[(&str, &str)], system: &[(&str, &str)]) -> VariableResolver {
    VariableResolver::new(&Pipeline { variables: map(globals), stages: vec![], jobs: vec![] }, map(system))
}

fn job(name: &str, deps: &[&str]) -> Job {
    Job {
        name: name.to_string(),
        stage: None,
        depends_on: deps.iter().map(|d| d.to_string()).collect(),
        steps: vec![],
        condition: None,
        timeout: None,
        retry: None,
        artifacts: vec![],
        cache: vec![],
        services: vec![],
        matrix: None,
        needs_artifacts: vec![],
        env: StringMap::new(),
        isolation: IsolationMode::Host,
        image: None,
    }
}

fn random(x: &mut u64) -> u64 {
    *x = x.wrapping_mul(6364136223846793005).wrapping_add(1442695040888963407);
    *x >> 33
}

#[test]
fn references_agree_with_a_regular_expression() {
    let re = regex::Regex::new(r"\$\{\{\s*([^{}]+?)\s*\}\}").unwrap();
    let letters = ['$', '$', '{', '{', '{', '}', '}', '}', ' ', 'a', 'b', '\n', '\u{a0}'];
    let none = map(&[]);
    let r = resolver(&[], &[]);
    let mut x: u64 = 5;
    let mut seen = 0;
    for _ in 0..60_000 {
        let n = random(&mut x) % 16;
        let mut s: String = (0..n).map(|_| letters[(random(&mut x) % 13) as usize]).collect();
        if random(&mut x) % 3 == 0 {
            s = format!("${{{{{}}}}}", s);
        }
        let last = re.captures_iter(&s).last().map(|c| c.get(1).unwrap().as_str().trim().to_string());
        match (r.resolve_value(&s, &none, &none), last) {
            (Ok(v), None) => assert_eq!(v, s),
            (Err(ResolveError::VariableNotFound(name)), Some(inner)) => {
                assert_eq!(name, inner);
                seen += 1;
            }
            _ => panic!("{:?}", s),
        }
    }
    assert!(seen > 1000);
}

#[test]
fn one_pass_agrees_with_a_regular_expression() {
    let re = regex::Regex::new(r"\$\{\{\s*([^{}]+?)\s*\}\}").unwrap();
    let parts = ["${{ a }}", "${{b}}", "x", "${{", "}}", " ", "{", "$"];
    let none = map(&[]);
    let r = resolver(&[("a", "1"), ("b", "2")], &[]);
    let mut x: u64 = 9;
    for _ in 0..20_000 {
        let n = random(&mut x) % 8;
        let s: String = (0..n).map(|_| parts[(random(&mut x) % 8) as usize]).collect();
        let mut expected = s.clone();
        let mut fails = false;
        while re.is_match(&expected) && !fails {
            expected = re
                .replace_all(&expected, |c: &regex::Captures| match c[1].trim() {
                    "a" => "1".to_string(),
                    "b" => "2".to_string(),
                    _ => {
                        fails = true;
                        String::new()
                    }
                })
                .to_string();
        }
        let value = r.try_resolve_value(&s, &none, &none);
        assert_eq!(value, if fails { s } else { expected });
    }
}

#[test]
fn values_resolve_to_themselves() {
    let none = map(&[]);
    let r = resolver(&[("A", "${{ B }}${{ B }}"), ("B", "b")], &[]);
    let once = r.try_resolve_value("-${{ A }}-", &none, &none);
    assert_eq!(once, "-bb-");
    assert_eq!(r.try_resolve_value(&once, &none, &none), once);
}

#[test]
fn nesting_is_limited() {
    let none = map(&[]);
    let mut globals: Vec<(String, String)> = vec![("V0".to_string(), "end".to_string())];
    for i in 1..230 {
        globals.push((format!("V{}", i), format!("${{{{ V{} }}}}", i - 1)));
    }
    let pairs: Vec<(&str, &str)> = globals.iter().map(|(k, v)| (k.as_str(), v.as_str())).collect();
    let r = resolver(&pairs, &[]);
    assert_eq!(r.resolve_value("${{ V219 }}", &none, &none).ok(), Some("end".to_string()));
    assert!(matches!(r.resolve_value("${{ V220 }}", &none, &none), Err(ResolveError::TooDeep)));
}

#[test]
fn names_stand_for_their_values_in_the_environment() {
    let (globals, system) = ([("A", "g"), ("B", "g")], [("B", "s"), ("C", "s")]);
    let r = resolver(&globals, &system);
    let (job_env, step_env) = (map(&[("A", "j")]), map(&[("D", "t")]));
    let merged = build_merged_env(&map(&system), &map(&globals), &job_env, &step_env);
    for name in ["A", "B", "C", "D", "E"] {
        let found = r.resolve_single_var(name, &job_env, &step_env).ok();
        assert_eq!(found, merged.get(name).cloned());
    }
}

#[test]
fn white_space_and_parentheses_change_nothing() {
    let mut statuses = StringMap::new();
    statuses.insert("a".to_string(), JobStatus::Failed);
    let e = ConditionEvaluator::new(statuses);
    for c in ["failure()", "success()", "a == a && b", "!true", "'x' < 'y'"] {
        let plain = e.evaluate_inner(c).ok();
        assert_eq!(e.evaluate_inner(&format!("  {}\t", c)).ok(), plain);
        assert_eq!(e.evaluate_inner(&format!("({})", c)).ok(), plain);
        assert_eq!(e.evaluate_inner(&format!("!{}", c)).ok(), plain.map(|b| !b));
    }
    for c in ["success", "a)", "fine", "(", "${{ x }}"] {
        let shown = |s: &str| check_condition_syntax(s).unwrap().map(|f| f.message());
        assert_eq!(shown(c), shown(&format!(" {} ", c)));
    }
}

#[test]
fn set_outputs_are_read_back() {
    for (name, value) in [("a", "b"), ("", ""), ("a:b", "::c"), (":x", "y z")] {
        let line = format!("::set-output name={}::{}", name, value);
        assert_eq!(parse_set_output(&line), Some((name.to_string(), value.to_string())));
    }
    assert_eq!(
        parse_set_output("::set-output name=a:::b"),
        Some(("a".to_string(), ":b".to_string()))
    );
}

#[test]
fn smaller_limits_expire_sooner() {
    let content = "{\"created_at\":\"2024-02-29T12:00:00.5+02:00\"}";
    let now = Timestamp { secs: 1_709_200_800 + 30 * 86_400 + 1, nanos: 0, offset: 0 };
    for ttl in [i64::MIN, -1, 0, 29] {
        assert!(is_expired(content, now, ttl));
    }
    for ttl in [30, 31, i64::MAX] {
        assert!(!is_expired(content, now, ttl));
    }
}

#[test]
fn uploads_in_parts_are_understood() {
    let size: u64 = 23;
    let mut upload = ChunkedUpload::new(size);
    let mut received: u64 = 0;
    let mut complete = false;
    while upload.wants_more() {
        let n = std::cmp::min(10, (size - upload.offset) as usize);
        let header = match upload.part_read(n) {
            UploadStep::Send(h) => h,
            UploadStep::Done => panic!("bytes are left"),
        };
        let (start, end, total) = parse_content_range(&header).unwrap();
        assert_eq!(start, received);
        complete = accept_chunk(n as u64, start, end, total).ok().unwrap();
        received += n as u64;
        let ok = Reply { code: 200, status: "200 OK".to_string() };
        assert!(upload.part_sent(n, &ok).is_ok());
        assert_eq!(complete, !upload.wants_more());
    }
    assert!(complete);
    assert_eq!(received, size);
}

#[test]
fn rests_of_files_are_sent() {
    for existing in 0..10u64 {
        let r = byte_range_of(Some(existing), None, 10).unwrap();
        assert_eq!((r.start, r.end, r.length), (existing, 9, 10 - existing));
    }
    assert!(byte_range_of(Some(10), None, 10).is_none());
}

#[test]
fn escaped_text_is_harmless() {
    let nasty = "<script>\"'&lt;'\"</script>";
    for c in ['<', '>', '"'] {
        assert!(!html_escape(nasty).contains(c));
        assert!(!xml_escape(nasty).contains(c));
    }
    assert!(!xml_escape(nasty).contains('\''));
}

#[test]
fn every_run_accounts_for_all_jobs() {
    let jobs = vec![job("a", &[]), job("b", &["a"]), job("c", &["a"]), job("d", &["b", "c"]), job("e", &[])];
    let dag = Dag::build(&jobs).unwrap();
    let order = dag.topological_order().unwrap();
    for name in &order {
        assert!(dag.job(name).is_some());
    }
    let previous = StringMap::new();
    let skipped: Vec<String> = vec![];
    let r = resolver(&[], &[]);
    let now = Timestamp { secs: 0, nanos: 0, offset: 0 };
    let mut x: u64 = 1;
    for _ in 0..50 {
        let parallel = 1 + (random(&mut x) % 3) as usize;
        let ctx = RoundContext { graph: &dag, previous: &previous, skipped: &skipped, parallel, resolver: &r };
        let mut run = RunState::start(&order, &previous);
        let mut rounds = 0;
        while !run.is_done() && rounds < 100 {
            rounds += 1;
            run.round(&ctx, now).unwrap();
            assert!(run.running().len() <= parallel);
            assert_eq!(run.pending().len() + run.running().len() + run.completed().len(), 5);
            if let Some(name) = run.running().first().cloned() {
                let failed = random(&mut x) % 8 == 0;
                let status = if failed { JobStatus::Failed } else { JobStatus::Success };
                run.finish(ci_pipeline::scheduler::unrun_result(&name, status, "", now));
            }
        }
        if !run.is_done() {
            run.cancel_pending(now);
        }
        assert_eq!(run.results(&order).len(), 5);
    }
}
