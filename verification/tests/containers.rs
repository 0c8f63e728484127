use ci_pipeline::models::ServiceConfig;
use ci_pipeline::numbers::{
    decimal_str, fixed_str, hex_str, pad_left_str, pad_right_str, parse_u64, repeat_str, signed_decimal_str,
};
use ci_pipeline::order::{sort_strings, str_le};
use ci_pipeline::paths::{ci_dir_str, ci_path_str, join_path_str};
use ci_pipeline::services::{
    container_name_str, job_container_args_of, job_container_name_str, network_args_of, network_name_str,
    printed_id_of, remove_args_of, sanitize_name, sanitize_service_name, service_args_of, stop_args_of, CommandOutput,
    ServiceError, ServiceManager,
};
use ci_pipeline::string_map::{DeepClone, StringMap};
use ci_pipeline::text::{
    ends_with_str, join_strs, replace_str, safe_name_str, split_str, starts_with_str, str_eq, trim_str,
};

fn strings(v: &[&str]) -> Vec<String> {
    v.iter().map(|s| s.to_string()).collect()
}

fn done(stdout: &str) -> CommandOutput {
    CommandOutput { success: true, stdout: stdout.to_string(), stderr: String::new() }
}

fn broken(stderr: &str) -> CommandOutput {
    CommandOutput { success: false, stdout: String::new(), stderr: stderr.to_string() }
}

fn service(image: &str) -> ServiceConfig {
    let mut env = StringMap::new();
    env.insert("K".to_string(), "V".to_string());
    ServiceConfig { image: image.to_string(), env }
}

#[test]
fn names_are_made_safe() {
    assert_eq!(sanitize_name("a/b c:d-e_f.é"), "a_b_c_d-e_f_é");
    assert_eq!(sanitize_name("x²"), "x²");
    assert_eq!(sanitize_service_name("job", "registry.io/lib/postgres:15"), "postgres");
    assert_eq!(sanitize_service_name("job", "redis"), "redis");
    assert_eq!(network_name_str("a/b"), "ci-net-a_b");
    assert_eq!(container_name_str("a/b", "redis"), "ci-a_b-redis");
    assert_eq!(job_container_name_str("a/b"), "ci-job-a_b");
    let once = sanitize_name("a b");
    assert_eq!(sanitize_name(&once), once);
}

#[test]
fn docker_arguments() {
    assert_eq!(
        service_args_of("job", &service("redis:7")),
        strings(&[
            "run", "-d", "--name", "ci-job-redis", "--network", "ci-net-job", "--network-alias", "redis", "-e",
            "K=V", "redis:7"
        ])
    );
    let mut env = StringMap::new();
    env.insert("A".to_string(), "1".to_string());
    assert_eq!(
        job_container_args_of("job", "alpine", "/w", &env),
        strings(&[
            "run", "-d", "-t", "--name", "ci-job-job", "--network", "ci-net-job", "-v", "/w:/workspace", "-w",
            "/workspace", "--entrypoint", "sleep", "-e", "A=1", "alpine", "infinity"
        ])
    );
    assert_eq!(stop_args_of("c", "10"), strings(&["stop", "-t", "10", "c"]));
    assert_eq!(remove_args_of("c"), strings(&["rm", "-f", "c"]));
    assert_eq!(network_args_of("create", "n"), strings(&["network", "create", "n"]));
    assert_eq!(printed_id_of(" id\n", "name"), "id");
    assert_eq!(printed_id_of(" \n", "name"), "name");
}

#[test]
fn services_are_started_and_stopped() {
    let mut m = ServiceManager::new();
    assert!(m.is_enabled());
    assert_eq!(m.existing_network("job"), None);
    assert_eq!(m.ensure_network("job", &done("net1\n")).ok(), Some("net1".to_string()));
    assert_eq!(m.existing_network("job"), Some("net1".to_string()));
    assert_eq!(m.start_service("job", &service("redis:7"), &done("c1")).ok(), Some("redis".to_string()));
    assert_eq!(m.start_service("job", &service("pg"), &done("")).ok(), Some("pg".to_string()));
    assert_eq!(m.start_service("other", &service("pg"), &done("c3")).ok(), Some("pg".to_string()));
    assert_eq!(m.start_job_container("job", &done("jc")).ok(), Some("jc".to_string()));
    let plan = m.stop_job_services("job");
    assert_eq!(plan.services, strings(&["c1", "ci-job-pg"]));
    assert_eq!(plan.job_containers, strings(&["jc"]));
    assert_eq!(plan.networks, strings(&["net1"]));
    let rest = m.stop_all();
    assert_eq!(rest.services, strings(&["c3"]));
    assert_eq!(rest.job_containers.len(), 0);
    assert_eq!(rest.networks.len(), 0);
    assert_eq!(m.stop_all().services.len(), 0);
}

#[test]
fn failures_of_docker() {
    let mut m = ServiceManager::new();
    match m.ensure_network("j", &broken("no space")) {
        Err(e) => assert_eq!(e.message(), "Failed to create network ci-net-j: no space"),
        Ok(_) => panic!("the command failed"),
    }
    match m.start_service("j", &service("redis"), &broken("pull")) {
        Err(e) => assert_eq!(e.message(), "Failed to start service container redis: pull"),
        Ok(_) => panic!("the command failed"),
    }
    match m.start_job_container("j", &broken("bad")) {
        Err(e) => assert_eq!(e.message(), "Failed to start job container j: bad"),
        Ok(_) => panic!("the command failed"),
    }
    match m.exec_in_job_container("j", "ls", &StringMap::new()) {
        Err(e) => assert_eq!(e.message(), "Job container not started for j"),
        Ok(_) => panic!("there is no container"),
    }
    m.check_docker(true);
    assert!(m.require_docker().is_ok());
    m.check_docker(false);
    assert!(!m.is_enabled());
    match m.require_docker() {
        Err(ServiceError::NoDocker) => {
            assert_eq!(ServiceError::NoDocker.message(), "Docker not available for container isolation")
        }
        _ => panic!("docker did not answer"),
    }
    m.check_docker(true);
    assert!(!m.is_enabled());
}

#[test]
fn commands_in_job_containers() {
    let mut m = ServiceManager::new();
    m.start_job_container("j", &done("id")).ok();
    let mut env = StringMap::new();
    env.insert("A".to_string(), "1".to_string());
    assert_eq!(
        m.exec_in_job_container("j", "ls -l", &env).ok(),
        Some(strings(&["exec", "-e", "A=1", "id", "sh", "-c", "ls -l"]))
    );
    assert_eq!(m.stop_job_container("j"), Some("id".to_string()));
    assert_eq!(m.stop_job_container("j"), None);
}

#[test]
fn maps_keep_their_order() {
    let mut m: StringMap<u64> = StringMap::new();
    m.insert("b".to_string(), 1);
    m.insert("a".to_string(), 2);
    m.insert("b".to_string(), 3);
    assert_eq!(m.len(), 2);
    assert_eq!(m.key_at(0), "b");
    assert_eq!(*m.value_at(0), 3);
    assert_eq!(m.get("a"), Some(&2));
    assert!(m.contains_key("a"));
    let copy = m.deep_clone();
    assert_eq!(m.remove("b"), Some(3));
    assert_eq!(m.remove("b"), None);
    assert_eq!(m.len(), 1);
    assert_eq!(copy.len(), 2);
    let mut all: StringMap<u64> = StringMap::new();
    all.insert("a".to_string(), 9);
    all.insert_all(&copy);
    assert_eq!(all.get("a"), Some(&2));
    assert_eq!(all.key_at(1), "b");
}

#[test]
fn text_is_cut_and_joined() {
    assert_eq!(trim_str(" \t\u{a0}x y\u{2003}\n"), "x y");
    for c in ['\u{85}', '\u{1680}', '\u{200b}', '\u{feff}', '\u{2028}', '\u{3000}', '\u{b}'] {
        let s = format!("{}x{}", c, c);
        assert_eq!(trim_str(&s), s.trim());
    }
    assert_eq!(split_str("a,b,,c", ','), strings(&["a", "b", "", "c"]));
    assert_eq!(split_str("", ','), strings(&[""]));
    assert_eq!(join_strs(&strings(&["a", "b"]), ", "), "a, b");
    assert_eq!(replace_str("a/b/c", '/', "::"), "a::b::c");
    assert_eq!(safe_name_str("a b/c"), "a_b_c");
    assert!(starts_with_str("abc", "ab"));
    assert!(!starts_with_str("abc", "abcd"));
    assert!(ends_with_str("abc", "bc"));
    assert!(str_eq("é", "é"));
}

#[test]
fn spaces_agree_with_std() {
    for u in 0u32..0x11_0000 {
        if let Some(c) = char::from_u32(u) {
            assert_eq!(ci_pipeline::text::char_is_space(c), c.is_whitespace());
        }
    }
}

#[test]
fn numbers_are_written_and_read() {
    assert_eq!(decimal_str(0), "0");
    assert_eq!(decimal_str(1_234_567_890), "1234567890");
    assert_eq!(signed_decimal_str(i64::MIN), "-9223372036854775808");
    assert_eq!(parse_u64("18446744073709551615"), Some(u64::MAX));
    for s in ["18446744073709551616", "", "+", "+7", "-7", " 7", "0007", "7a", "٣"] {
        assert_eq!(parse_u64(s), s.parse::<u64>().ok());
    }
    assert_eq!(hex_str(&[0, 10, 255]), "000aff");
    assert_eq!(repeat_str('x', 3), "xxx");
    assert_eq!(pad_right_str("é", 3), "é  ");
    assert_eq!(pad_left_str("é", 3), "  é");
    assert_eq!(pad_left_str("long", 3), "long");
    assert_eq!(fixed_str(5, 2), "0.05");
    assert_eq!(fixed_str(12345, 3), "12.345");
}

#[test]
fn strings_are_ordered_like_std() {
    let mut v = strings(&["b", "", "a", "ab", "B", "é", "e", "zz", "\u{10000}", "\u{ffff}", "a"]);
    let sorted = sort_strings(&v);
    v.sort();
    assert_eq!(sorted, v);
    assert!(str_le("", "a"));
    assert!(str_le("a", "a"));
    assert!(!str_le("b", "ab"));
}

#[test]
fn paths_are_joined_like_std() {
    for (base, rel) in [("/w", "a/b"), ("/w/", "a"), ("", "a"), ("w", "/abs"), ("w", "")] {
        let expected = std::path::Path::new(base).join(rel).to_string_lossy().to_string();
        assert_eq!(join_path_str(base, rel), expected);
    }
    assert_eq!(ci_dir_str("/w"), "/w/.ci");
    assert_eq!(ci_path_str("/w", "state.json"), "/w/.ci/state.json");
}
