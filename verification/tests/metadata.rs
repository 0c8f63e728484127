use ci_pipeline::artifacts::{is_expired, matching_files, CacheManager, Cleanup, FoundFile};
use ci_pipeline::cache_server::{
    accept_chunk, byte_range_of, entry_info, gc_step, metadata_of, put_metadata, touched, CacheStats, GcStep, ServerError,
};
use ci_pipeline::models::{RemoteCacheConfig, Timestamp};
use ci_pipeline::remote_cache::{sizes_add_up, RemoteCacheClient, RemoteCacheError, Reply};

fn at(secs: i64) -> Timestamp {
    Timestamp { secs, nanos: 0, offset: 0 }
}

fn found(names: &[&str]) -> Vec<FoundFile> {
    names.iter().map(|n| FoundFile { name: n.to_string(), path: format!("/d/{}", n) }).collect()
}

const DAY: i64 = 86_400;

#[test]
fn new_entries_are_described() {
    let text = metadata_of("k", "ns", "then", "now", 7);
    assert_eq!(
        text,
        "{\"created_at\":\"then\",\"key\":\"k\",\"last_accessed\":\"now\",\"namespace\":\"ns\",\"size_bytes\":7}"
    );
    let quoted = metadata_of("a\"b\\", "n\n", "then", "now", 0);
    let value: serde_json::Value = serde_json::from_str(&quoted).unwrap();
    assert_eq!(value["key"], "a\"b\\");
    assert_eq!(value["namespace"], "n\n");
    assert_eq!(value["size_bytes"], 0);
}

#[test]
fn entries_age_from_their_making() {
    let text = put_metadata("k", "ns", &at(0), &at(5), 7).unwrap();
    let value: serde_json::Value = serde_json::from_str(&text).unwrap();
    assert_eq!(value["created_at"], "1970-01-01T00:00:00+00:00");
    assert_eq!(value["last_accessed"], "1970-01-01T00:00:05+00:00");
    assert!(matches!(gc_step("k.meta.json", &text, "/s", at(7 * DAY), 7), GcStep::Keep));
    match gc_step("k.meta.json", &text, "/s", at(8 * DAY), 7) {
        GcStep::Remove(Some(p)) => assert_eq!(p, "/s/ns/k.tar.gz"),
        _ => panic!("the entry is too old"),
    }
    assert_eq!(put_metadata("k", "ns", &at(i64::MAX), &at(0), 7), None);
    assert_eq!(put_metadata("k", "ns", &at(0), &at(i64::MIN), 7), None);
}

#[test]
fn use_is_noted() {
    let text = put_metadata("k", "ns", &at(0), &at(5), 7).unwrap();
    let used = touched(&text, "2001-02-03T04:05:06+00:00").unwrap();
    assert_eq!(entry_info("k.tar.gz", 7, &Some(used.clone())).last_accessed, "2001-02-03T04:05:06+00:00");
    assert!(matches!(gc_step("k.meta.json", &used, "/s", at(7 * DAY), 7), GcStep::Keep));
    assert!(matches!(gc_step("k.meta.json", &used, "/s", at(8 * DAY), 7), GcStep::Remove(Some(_))));
    let value: serde_json::Value = serde_json::from_str(&used).unwrap();
    assert_eq!(value["size_bytes"], 7);
    assert_eq!(touched("{\"b\": [1, {}], \"last_accessed\": 3}", "x").unwrap(), "{\"b\":[1,{}],\"last_accessed\":\"x\"}");
    assert_eq!(touched("null", "x").unwrap(), "{\"last_accessed\":\"x\"}");
    assert_eq!(touched("{", "x"), None);
    assert_eq!(touched("[1]", "x"), None);
    assert_eq!(touched("7", "x"), None);
}

#[test]
fn caches_are_described() {
    let m = CacheManager::new("/w", 7);
    let paths = vec!["a".to_string(), "b c".to_string()];
    let text = m.metadata_of("k", &paths, &at(0)).unwrap();
    assert_eq!(text, "{\"created_at\":\"1970-01-01T00:00:00+00:00\",\"key\":\"k\",\"paths\":[\"a\",\"b c\"]}");
    assert!(!is_expired(&text, at(8 * DAY - 1), 7));
    assert!(is_expired(&text, at(8 * DAY), 7));
    match m.cleanup_of("k.json", &text, at(8 * DAY)) {
        Cleanup::Remove(Some(p)) => assert_eq!(p, "/w/.ci/cache/k.tar.gz"),
        _ => panic!("the cache is too old"),
    }
    let east = Timestamp { secs: 0, nanos: 0, offset: 5400 };
    let there = m.metadata_of("k", &paths, &east).unwrap();
    assert!(there.contains("1970-01-01T01:30:00+01:30"));
    assert!(!is_expired(&there, at(8 * DAY - 1), 7));
    assert!(is_expired(&there, at(8 * DAY), 7));
    assert_eq!(m.metadata_of("k", &paths, &at(i64::MAX)), None);
}

#[test]
fn instants_have_notations() {
    let t = Timestamp { secs: 981_173_106, nanos: 120_000_000, offset: -3600 };
    assert_eq!(t.to_rfc3339().unwrap(), "2001-02-03T03:05:06.120-01:00");
    assert_eq!(t.date_and_time().unwrap(), "2001-02-03 03:05:06");
    assert_eq!(at(0).date_and_time().unwrap(), "1970-01-01 00:00:00");
    assert_eq!(at(i64::MAX).date_and_time(), None);
    assert_eq!(Timestamp { secs: 0, nanos: 0, offset: 86_400 }.to_rfc3339(), None);
    for t in [
        at(-62_167_219_200),
        at(253_402_300_799),
        Timestamp { secs: 59, nanos: 1_500_000_000, offset: 0 },
        Timestamp { secs: 7, nanos: 1, offset: 60 },
    ] {
        let read = chrono::DateTime::parse_from_rfc3339(&t.to_rfc3339().unwrap()).unwrap();
        assert_eq!((read.timestamp(), read.timestamp_subsec_nanos()), (t.secs, t.nanos));
    }
}

#[test]
fn parts_up_to_the_last_number() {
    assert!(matches!(accept_chunk(3, 5, u64::MAX, None), Err(ServerError::SizeMismatch)));
    assert!(matches!(accept_chunk(3, u64::MAX - 2, u64::MAX, None), Ok(false)));
    assert!(matches!(accept_chunk(3, u64::MAX - 3, u64::MAX - 1, Some(u64::MAX)), Ok(true)));
    assert_eq!(byte_range_of(None, Some(4), 0), None);
    assert_eq!(byte_range_of(Some(1), Some(0), 0), None);
}

#[test]
fn full_counters_do_not_hinder_others() {
    let mut s = CacheStats::new();
    s.hits_last_24h = u64::MAX;
    s.note_request(false);
    assert_eq!((s.hits_last_24h, s.misses_last_24h), (u64::MAX, 1));
    let mut c = RemoteCacheClient::new(RemoteCacheConfig::default(), "main");
    c.stats.pushes = u64::MAX;
    c.note_upload(false);
    c.stats.misses = u64::MAX;
    c.note_download(true);
    assert_eq!((c.stats.hits, c.stats.misses, c.stats.pushes), (1, u64::MAX, u64::MAX));
}

#[test]
fn commands_need_a_configured_cache() {
    let off = RemoteCacheClient::new(RemoteCacheConfig::default(), "main");
    match off.check_configured() {
        Err(e) => assert_eq!(
            e.message(),
            "Remote cache is not configured. Please set remote_cache.url in pipeline.yml"
        ),
        Ok(()) => panic!("the cache is switched off"),
    }
    let mut config = RemoteCacheConfig::default();
    config.enabled = true;
    assert!(matches!(
        RemoteCacheClient::new(config.clone(), "main").check_configured(),
        Err(RemoteCacheError::NotConfigured)
    ));
    config.url = Some("http://host".to_string());
    assert!(RemoteCacheClient::new(config, "main").check_configured().is_ok());
}

#[test]
fn sizes_that_do_not_add_up() {
    let reply = |code: u16| Reply { code, status: String::new() };
    assert!(sizes_add_up(&reply(206), 5, &Some("7".to_string())));
    assert!(sizes_add_up(&reply(206), u64::MAX, &None));
    assert!(!sizes_add_up(&reply(206), 1, &Some(u64::MAX.to_string())));
    assert!(sizes_add_up(&reply(200), 1, &Some(u64::MAX.to_string())));
}

#[test]
fn patterns_with_braces_and_backslashes() {
    let files = found(&["aaa", "a\\d", "a5", "b"]);
    assert_eq!(matching_files("a{3}", &files), vec!["/d/aaa".to_string()]);
    assert_eq!(matching_files("a{1,3}", &files), vec!["/d/aaa".to_string()]);
    assert_eq!(matching_files("a{x}", &files), Vec::<String>::new());
    assert_eq!(matching_files("a\\d", &files), vec!["/d/a\\d".to_string()]);
    let long = "a".repeat(2000);
    assert_eq!(matching_files(&format!("{}*", long), &found(&[&format!("{}b", long), "b"])).len(), 1);
    let wide = "?".repeat(2499);
    assert_eq!(matching_files(&wide, &found(&["é", &"é".repeat(2499)])).len(), 1);
    let longer = "a".repeat(6000);
    assert_eq!(matching_files(&format!("{}?", longer), &found(&[&format!("{}b", longer), "b"])).len(), 1);
    assert_eq!(matching_files("?{999}{999}", &found(&["b", "c"])), Vec::<String>::new());
    let stars = "*".repeat(2490) + "?{99}";
    assert_eq!(matching_files(&stars, &found(&[&"x".repeat(99), &"x".repeat(98)])).len(), 1);
}
