use ci_pipeline::artifacts::{
    compute_file_hash, glob_pattern, glob_to_regex, is_expired, matching_files, select_hits, too_old, ArtifactManager,
    CacheManager, Cleanup, FoundFile, HashedFile,
};
use ci_pipeline::cache_server::{
    accept_chunk, accept_upload, byte_range_of, check_auth, chunk_status, count_removed,
    default_listen_addr, default_max_size_mb, default_storage_dir, default_ttl_days, entry_files, entry_info,
    finish_chunks, gc_step, is_archive_name, is_older, key_of_name, not_satisfiable_text, parse_content_range,
    parse_range_header, sort_entries, CacheStats, GcStep, ServerConfig, ServerError, StoredFile,
};
use ci_pipeline::clock::{elapsed_ms_of, elapsed_secs_of, time_of_day_str};
use ci_pipeline::models::{ArtifactConfig, IsolationMode, Job, JobResult, RemoteCacheConfig, Timestamp};
use ci_pipeline::remote_cache::{
    check_reply, check_upload, classify_download, content_range_str, detect_git_branch, get_default_namespace,
    has_content, is_complete, is_large, range_header, resume_from, CacheEntryInfo, ChunkedUpload, DownloadReply,
    GcResult, RemoteCacheClient, RemoteCacheError, Reply, UploadStep, CHUNK_SIZE, LARGE_FILE_THRESHOLD,
};
use ci_pipeline::state::StateManager;
use ci_pipeline::string_map::StringMap;
use ci_pipeline::text::{before_end_str, behind_str};
use sha2::Digest;

fn at(secs: i64) -> Timestamp {
    Timestamp { secs, nanos: 0, offset: 0 }
}

fn strings(v: &[&str]) -> Vec<String> {
    v.iter().map(|s| s.to_string()).collect()
}

fn hex(data: &[u8]) -> String {
    let mut h = sha2::Sha256::new();
    h.update(data);
    format!("{:x}", h.finalize())
}

fn job(name: &str, artifacts: Vec<ArtifactConfig>) -> Job {
    Job {
        name: name.to_string(),
        stage: None,
        depends_on: vec![],
        steps: vec![],
        condition: None,
        timeout: None,
        retry: None,
        artifacts,
        cache: vec![],
        services: vec![],
        matrix: None,
        needs_artifacts: vec![],
        env: StringMap::new(),
        isolation: IsolationMode::Host,
        image: None,
    }
}

fn reply(code: u16, status: &str) -> Reply {
    Reply { code, status: status.to_string() }
}

#[test]
fn artifact_paths() {
    let m = ArtifactManager::new("/w");
    assert_eq!(m.artifacts_dir(), "/w/.ci/artifacts");
    assert_eq!(m.job_artifact_path("a b/c"), "/w/.ci/artifacts/a_b_c.tar.gz");
    assert_eq!(m.job_artifact_dir("a b/c"), "/w/.ci/artifacts/a_b_c");
}

#[test]
fn artifacts_are_collected_in_order() {
    let m = ArtifactManager::new("/w");
    let j = job(
        "a",
        vec![
            ArtifactConfig { paths: strings(&["out/*", "/abs"]) },
            ArtifactConfig { paths: strings(&["log"]) },
        ],
    );
    assert_eq!(m.artifact_patterns(&j, "/w"), strings(&["/w/out/*", "/abs", "/w/log"]));
    let found = vec![strings(&["/w/out/x", "/w/out/y"]), strings(&[]), strings(&["/w/log"])];
    let files = m.collect_artifacts(&j, "/w", &found);
    assert_eq!(files, strings(&["/w/out/x", "/w/out/y", "/w/log"]));
    assert_eq!(m.package_path(&j, &files), Some("/w/.ci/artifacts/a.tar.gz".to_string()));
    assert_eq!(m.package_path(&j, &vec![]), None);
}

#[test]
fn globs_become_regular_expressions() {
    assert_eq!(glob_to_regex("*.t?r"), "^.*\\.t.r$");
    assert_eq!(glob_to_regex("a+(b)[c]|^$\\d"), "^a\\+\\(b\\)\\[c\\]\\|\\^\\$\\\\d$");
}

#[test]
fn files_match_by_name() {
    let file = |n: &str| FoundFile { name: n.to_string(), path: format!("/d/{}", n) };
    let files = vec![file("a.txt"), file("b.rs"), file("c.txt")];
    assert_eq!(matching_files("*.txt", &files), strings(&["/d/a.txt", "/d/c.txt"]));
    assert_eq!(matching_files("?.rs", &files), strings(&["/d/b.rs"]));
    assert_eq!(matching_files("{", &files), Vec::<String>::new());
    assert_eq!(select_hits(&files, &vec![false, true, false]), strings(&["/d/b.rs"]));
}

#[test]
fn patterns_are_searched_in_stages() {
    let files = vec![FoundFile { name: "x.o".to_string(), path: "/d/x.o".to_string() }];
    let searched = strings(&["found.o"]);
    assert_eq!(glob_pattern("/d/x.o", true, true, "x.o", &files, &searched), strings(&["/d/x.o"]));
    assert_eq!(glob_pattern("/d/*.o", false, true, "*.o", &files, &searched), strings(&["/d/x.o"]));
    assert_eq!(glob_pattern("/d/*.c", false, true, "*.c", &files, &searched), strings(&["found.o"]));
    assert_eq!(glob_pattern("/e/*.o", false, false, "", &vec![], &vec![]), Vec::<String>::new());
}

#[test]
fn cache_paths_and_keys() {
    let m = CacheManager::new("/w", 7);
    assert_eq!(m.cache_dir(), "/w/.ci/cache");
    assert_eq!(m.cache_entry_path("k"), "/w/.ci/cache/k.tar.gz");
    assert_eq!(m.cache_metadata_path("k"), "/w/.ci/cache/k.json");
    let full = hex(b"a b/cpath1path2");
    let key = m.compute_stable_cache_key("a b/c", &strings(&["path2", "path1"]));
    assert_eq!(key, format!("cache-a_b_c-{}", &full[..16]));
    assert_eq!(key, m.compute_stable_cache_key("a b/c", &strings(&["path1", "path2"])));
}

#[test]
fn cache_key_of_contents() {
    let m = CacheManager::new("/w", 7);
    let files = vec![
        HashedFile { path: "p".to_string(), content: Some(vec![1, 2]) },
        HashedFile { path: "q".to_string(), content: None },
    ];
    assert_eq!(m.compute_cache_key(&files), hex(&[b'p', 1, 2, b'q']));
    assert_eq!(m.compute_cache_key(&vec![]), hex(b""));
    assert_eq!(compute_file_hash(b"abc"), "ba7816bf8f01cfea414140de5dae2223b00361a396177a9cb410ff61f20015ad");
}

#[test]
fn caches_expire() {
    let day: i64 = 86_400;
    assert!(!too_old(0, 0, at(8 * day - 1), 7));
    assert!(too_old(0, 0, at(8 * day), 7));
    let content = "{\"key\":\"k\",\"created_at\":\"1970-01-02T00:00:00+00:00\"}";
    assert!(!is_expired(content, at(8 * day), 7));
    assert!(is_expired(content, at(9 * day), 7));
    assert!(!is_expired("no json", at(900 * day), 7));
    assert!(!is_expired("{\"created_at\":\"never\"}", at(900 * day), 7));
    assert!(!is_expired("{\"created_at\":5}", at(900 * day), 7));
    let m = CacheManager::new("/w", 7);
    assert!(m.is_stale(&Some(content.to_string()), at(9 * day)));
    assert!(!m.is_stale(&None, at(9 * day)));
    match m.cleanup_of("k.json", content, at(9 * day)) {
        Cleanup::Remove(Some(p)) => assert_eq!(p, "/w/.ci/cache/k.tar.gz"),
        _ => panic!("the entry has expired"),
    }
    assert!(matches!(m.cleanup_of("k.txt", content, at(9 * day)), Cleanup::Keep));
    assert!(matches!(m.cleanup_of("k.json", content, at(2 * day)), Cleanup::Keep));
    assert!(matches!(
        m.cleanup_of("k.json", "{\"created_at\":\"1970-01-02T00:00:00Z\"}", at(9 * day)),
        Cleanup::Remove(None)
    ));
}

#[test]
fn states_belong_to_pipelines() {
    let m = StateManager::new("/w");
    assert_eq!(m.state_file_path(), "/w/.ci/state.json");
    assert_eq!(m.compute_pipeline_hash("abc"), hex(b"abc"));
    let results: StringMap<JobResult> = StringMap::new();
    let state = m.make_state("h", &results, at(5));
    assert_eq!(state.pipeline_hash, "h");
    assert!(state.timestamp == at(5));
    assert!(m.accept_state(state.clone(), "other").is_none());
    assert_eq!(m.accept_state(state, "h").unwrap().pipeline_hash, "h");
}

#[test]
fn times_between_instants() {
    let a = Timestamp { secs: 10, nanos: 900_000_000, offset: 0 };
    let b = Timestamp { secs: 12, nanos: 100_000_000, offset: 0 };
    assert_eq!(elapsed_ms_of(a, b), 1200);
    assert_eq!(elapsed_secs_of(a, b), 1);
    assert_eq!(elapsed_secs_of(b, a), -1);
    assert_eq!(elapsed_ms_of(a, a), 0);
    assert_eq!(time_of_day_str(Timestamp { secs: -1, nanos: 0, offset: 0 }), "23:59:59");
    assert_eq!(time_of_day_str(Timestamp { secs: 0, nanos: 0, offset: -3600 }), "23:00:00");
}

#[test]
fn server_defaults() {
    let c = ServerConfig::default();
    assert_eq!(c.listen_addr, "0.0.0.0:9876");
    assert_eq!(c.storage_dir, "./storage");
    assert_eq!(c.max_size_mb, 500);
    assert_eq!(c.ttl_days, 7);
    assert!(c.auth_token.is_none());
    assert_eq!(c.max_size_bytes(), 500 * 1024 * 1024);
    assert_eq!(default_listen_addr(), c.listen_addr);
    assert_eq!(default_storage_dir(), c.storage_dir);
    assert_eq!(default_max_size_mb(), 500);
    assert_eq!(default_ttl_days(), 7);
}

#[test]
fn tokens_are_checked() {
    let token = Some("SECRET".to_string());
    assert!(check_auth(&None, &None));
    assert!(!check_auth(&None, &token));
    assert!(check_auth(&Some("Bearer SECRET".to_string()), &token));
    assert!(!check_auth(&Some("Bearer  SECRET".to_string()), &token));
    assert!(!check_auth(&Some("bearer SECRET".to_string()), &token));
    assert_eq!(behind_str("abc", "ab"), Some("c".to_string()));
    assert_eq!(behind_str("abc", "b"), None);
    assert_eq!(before_end_str("abc", "bc"), Some("a".to_string()));
    assert_eq!(before_end_str("abc", "b"), None);
}

#[test]
fn server_files() {
    let f = entry_files("/s", "ns", "k");
    assert_eq!(f.archive, "/s/ns/k.tar.gz");
    assert_eq!(f.metadata, "/s/ns/k.meta.json");
    assert_eq!(f.temporary, "/s/ns/.k.tmp");
}

#[test]
fn content_ranges() {
    assert_eq!(parse_content_range("bytes 0-9/10"), Some((0, 9, Some(10))));
    assert_eq!(parse_content_range("bytes 5-9/*"), Some((5, 9, None)));
    assert_eq!(parse_content_range("bytes 0-9"), None);
    assert_eq!(parse_content_range("bytes 0-9/10/11"), None);
    assert_eq!(parse_content_range("bytes 0-9-3/10"), None);
    assert_eq!(parse_content_range("bytes a-9/10"), None);
    assert_eq!(parse_content_range("0-9/10"), None);
    assert_eq!(parse_content_range(&content_range_str(3, 7, 99)), Some((3, 7, Some(99))));
}

#[test]
fn range_headers() {
    assert_eq!(parse_range_header("bytes=1-2"), Some((Some(1), Some(2))));
    assert_eq!(parse_range_header("bytes=-2"), Some((None, Some(2))));
    assert_eq!(parse_range_header("bytes=7-"), Some((Some(7), None)));
    assert_eq!(parse_range_header("bytes=-"), Some((None, None)));
    assert_eq!(parse_range_header("bytes=1"), None);
    assert_eq!(parse_range_header("bytes=x-2"), None);
    assert_eq!(parse_range_header("items=1-2"), None);
    assert_eq!(range_header(0), None);
    assert_eq!(parse_range_header(&range_header(42).unwrap()), Some((Some(42), None)));
}

#[test]
fn uploads_are_limited() {
    let mut c = ServerConfig::default();
    c.max_size_mb = 1;
    assert!(accept_upload(1024 * 1024, &c).is_ok());
    match accept_upload(1024 * 1024 + 1, &c) {
        Err(e) => assert_eq!(e.message(), "Cache file exceeds max size of 1 MB"),
        Ok(()) => panic!("this is too large"),
    }
    assert!(matches!(accept_chunk(9, 0, 9, None), Err(ServerError::SizeMismatch)));
    assert_eq!(ServerError::SizeMismatch.message(), "Chunk size mismatch");
    assert!(matches!(accept_chunk(10, 0, 9, None), Ok(false)));
    assert!(matches!(accept_chunk(10, 0, 9, Some(20)), Ok(false)));
    assert!(matches!(accept_chunk(10, 10, 19, Some(20)), Ok(true)));
    assert!(matches!(finish_chunks(19, 20, &c), Ok(false)));
    assert!(matches!(finish_chunks(20, 20, &c), Ok(true)));
    assert!(matches!(finish_chunks(2 * 1024 * 1024, 20, &c), Err(ServerError::TooLarge(1))));
    assert_eq!(chunk_status(true), "completed");
    assert_eq!(chunk_status(false), "chunk_received");
}

#[test]
fn byte_ranges() {
    let r = byte_range_of(Some(2), Some(4), 10).unwrap();
    assert_eq!((r.start, r.end, r.length), (2, 4, 3));
    let r = byte_range_of(None, None, 10).unwrap();
    assert_eq!((r.start, r.end, r.length), (0, 9, 10));
    assert!(byte_range_of(Some(10), None, 10).is_none());
    assert!(byte_range_of(Some(5), Some(4), 10).is_none());
    assert!(byte_range_of(None, Some(10), 10).is_none());
    assert_eq!(not_satisfiable_text(10), "Requested range not satisfiable (file size: 10)");
}

#[test]
fn archive_names() {
    assert!(is_archive_name("k.tar.gz"));
    assert!(is_archive_name("k.gz"));
    assert!(!is_archive_name("k.meta.json"));
    assert!(!is_archive_name(".gz"));
    assert_eq!(key_of_name("k.tar.gz"), "k");
    assert_eq!(key_of_name("k.gz"), "k");
    assert_eq!(key_of_name("k"), "k");
    let e = entry_info("k.tar.gz", 5, &Some("{\"last_accessed\":\"now\"}".to_string()));
    assert_eq!((e.key.as_str(), e.size_bytes, e.last_accessed.as_str()), ("k", 5, "now"));
    assert_eq!(entry_info("k.gz", 5, &Some("{}".to_string())).last_accessed, "unknown");
    assert_eq!(entry_info("k.gz", 5, &None).last_accessed, "unknown");
}

#[test]
fn entries_are_sorted_by_key() {
    let entry = |k: &str, n: u64| CacheEntryInfo { key: k.to_string(), size_bytes: n, last_accessed: String::new() };
    let sorted = sort_entries(vec![entry("b", 1), entry("a", 2), entry("b", 3), entry("B", 4)]);
    let shown: Vec<(String, u64)> = sorted.into_iter().map(|e| (e.key, e.size_bytes)).collect();
    assert_eq!(
        shown,
        vec![("B".to_string(), 4), ("a".to_string(), 2), ("b".to_string(), 1), ("b".to_string(), 3)]
    );
}

#[test]
fn old_entries_are_removed() {
    let day: i64 = 86_400;
    assert!(!is_older(0, 0, at(7 * day), 7));
    assert!(is_older(0, 0, Timestamp { secs: 7 * day, nanos: 1, offset: 0 }, 7));
    let content = "{\"key\":\"k\",\"namespace\":\"ns\",\"created_at\":\"1970-01-01T00:00:00Z\"}";
    match gc_step("k.meta.json", content, "/s", at(8 * day), 7) {
        GcStep::Remove(Some(p)) => assert_eq!(p, "/s/ns/k.tar.gz"),
        _ => panic!("the entry is too old"),
    }
    assert!(matches!(gc_step("k.meta.json", content, "/s", at(7 * day), 7), GcStep::Keep));
    assert!(matches!(gc_step("k.json", content, "/s", at(8 * day), 7), GcStep::Keep));
    assert!(matches!(
        gc_step("k.meta.json", "{\"key\":\"k\",\"created_at\":\"1970-01-01T00:00:00Z\"}", "/s", at(8 * day), 7),
        GcStep::Remove(None)
    ));
    let one = count_removed(&GcResult { removed: 1, freed_bytes: 10 }, Some(5));
    assert_eq!((one.removed, one.freed_bytes), (2, 15));
    let two = count_removed(&one, None);
    assert_eq!((two.removed, two.freed_bytes), (3, 15));
}

#[test]
fn statistics_are_refreshed() {
    let mut s = CacheStats::new();
    s.note_request(true);
    s.note_request(false);
    s.note_request(false);
    let file = |n: &str, size: Option<u64>, ns: Option<&str>| StoredFile {
        name: n.to_string(),
        size,
        namespace: ns.map(|x| x.to_string()),
    };
    s.refresh(&vec![
        file("a.tar.gz", Some(5), Some("x")),
        file("a.meta.json", Some(100), Some("x")),
        file("b.tar.gz", None, Some("x")),
        file("c.gz", Some(7), None),
        file("d.tar.gz", Some(1), Some("y")),
    ]);
    assert_eq!(s.total_entries, 4);
    assert_eq!(s.total_size_bytes, 13);
    assert_eq!(*s.namespace_counts.get("x").unwrap(), 2);
    assert_eq!(*s.namespace_counts.get("y").unwrap(), 1);
    assert_eq!((s.hits_last_24h, s.misses_last_24h), (1, 2));
    s.refresh(&vec![]);
    assert_eq!(s.total_entries, 0);
    assert!(s.namespace_counts.is_empty());
    assert_eq!(s.hits_last_24h, 1);
}

#[test]
fn client_urls() {
    let config = RemoteCacheConfig {
        enabled: true,
        url: Some("http://host//".to_string()),
        token: Some("T".to_string()),
        namespace: None,
    };
    let mut c = RemoteCacheClient::new(config, "main");
    assert!(c.is_enabled());
    assert_eq!(c.namespace, "main");
    assert_eq!(c.entry_url("k"), Some("http://host/cache/main/k".to_string()));
    assert_eq!(c.namespace_url(None), Some("http://host/cache/main".to_string()));
    assert_eq!(c.namespace_url(Some("dev")), Some("http://host/cache/dev".to_string()));
    assert_eq!(c.service_url("/stats").ok(), Some("http://host/stats".to_string()));
    assert_eq!(c.auth_header(), Some(("Authorization".to_string(), "Bearer T".to_string())));
    c.note_upload(true);
    c.note_upload(false);
    c.note_download(true);
    c.note_download(false);
    assert_eq!((c.stats.hits, c.stats.misses, c.stats.pushes), (1, 1, 1));
}

#[test]
fn client_switched_off() {
    let c = RemoteCacheClient::new(RemoteCacheConfig::default(), "main");
    assert!(!c.is_enabled());
    assert_eq!(c.entry_url("k"), None);
    assert_eq!(c.namespace_url(None), None);
    assert!(matches!(c.base_url(), Err(RemoteCacheError::NoUrl)));
    match c.service_url("/stats") {
        Err(e) => assert_eq!(e.message(), "Remote cache not enabled"),
        Ok(_) => panic!("the cache is switched off"),
    }
    assert_eq!(RemoteCacheError::NoUrl.message(), "Remote cache URL not configured");
    assert_eq!(c.auth_header(), None);
}

#[test]
fn replies_are_checked() {
    assert!(check_reply("GC", &reply(204, "204 No Content")).is_ok());
    match check_reply("GC", &reply(500, "500 Oops")) {
        Err(e) => assert_eq!(e.message(), "GC failed with status: 500 Oops"),
        Ok(()) => panic!("this is a failure"),
    }
    assert!(matches!(check_upload(&reply(200, "200 OK")), Ok(true)));
    match check_upload(&reply(413, "413 Big")) {
        Err(e) => assert_eq!(e.message(), "Upload failed with status: 413 Big"),
        Ok(_) => panic!("this is a failure"),
    }
}

#[test]
fn large_files_go_in_chunks() {
    assert_eq!(CHUNK_SIZE, 10 * 1024 * 1024);
    assert!(!is_large(LARGE_FILE_THRESHOLD));
    assert!(is_large(LARGE_FILE_THRESHOLD + 1));
    let mut up = ChunkedUpload::new(25);
    assert!(up.wants_more());
    match up.part_read(10) {
        UploadStep::Send(h) => assert_eq!(h, "bytes 0-9/25"),
        UploadStep::Done => panic!("bytes were read"),
    }
    assert!(up.part_sent(10, &reply(200, "200 OK")).is_ok());
    match up.part_read(15) {
        UploadStep::Send(h) => assert_eq!(h, "bytes 10-24/25"),
        UploadStep::Done => panic!("bytes were read"),
    }
    match up.part_sent(15, &reply(500, "500 Oops")) {
        Err(e) => assert_eq!(e.message(), "Chunk upload failed at offset 10 with status: 500 Oops"),
        Ok(()) => panic!("this is a failure"),
    }
    assert!(up.part_sent(15, &reply(200, "200 OK")).is_ok());
    assert!(!up.wants_more());
    assert!(matches!(up.part_read(0), UploadStep::Done));
}

#[test]
fn downloads_resume() {
    assert_eq!(resume_from(None, Some(5)), 0);
    assert_eq!(resume_from(Some(0), Some(5)), 0);
    assert_eq!(resume_from(Some(7), Some(5)), 5);
    assert_eq!(resume_from(Some(7), None), 7);
    let none: Option<String> = None;
    let len = Some("10".to_string());
    let range = Some("bytes 5-14/15".to_string());
    assert!(matches!(
        classify_download(&reply(404, "404"), 5, &none, &none),
        Ok(DownloadReply::NotFound)
    ));
    assert!(matches!(
        classify_download(&reply(206, "206"), 5, &len, &range),
        Ok(DownloadReply::Append { total_size: 15 })
    ));
    assert!(matches!(
        classify_download(&reply(206, "206"), 5, &len, &none),
        Ok(DownloadReply::Append { total_size: 15 })
    ));
    assert!(matches!(
        classify_download(&reply(206, "206"), 0, &len, &none),
        Ok(DownloadReply::Replace { total_size: 10 })
    ));
    assert!(matches!(
        classify_download(&reply(200, "200"), 5, &none, &none),
        Ok(DownloadReply::Replace { total_size: 0 })
    ));
    match classify_download(&reply(503, "503 Busy"), 0, &none, &none) {
        Err(e) => assert_eq!(e.message(), "Download failed with status: 503 Busy"),
        Ok(_) => panic!("this is a failure"),
    }
    assert!(is_complete(&DownloadReply::Append { total_size: 15 }, 15));
    assert!(!is_complete(&DownloadReply::Append { total_size: 15 }, 14));
    assert!(!is_complete(&DownloadReply::Append { total_size: 0 }, 14));
    assert!(is_complete(&DownloadReply::Replace { total_size: 0 }, 14));
    assert!(!is_complete(&DownloadReply::Replace { total_size: 15 }, 14));
    assert!(has_content(Some(1)));
    assert!(!has_content(Some(0)));
    assert!(!has_content(None));
}

#[test]
fn namespaces_follow_branches() {
    assert_eq!(detect_git_branch(true, " main\n"), Some("main".to_string()));
    assert_eq!(detect_git_branch(true, " \n"), None);
    assert_eq!(detect_git_branch(false, "main"), None);
    assert_eq!(get_default_namespace(Some("dev".to_string())), "dev");
    assert_eq!(get_default_namespace(None), "default");
}
