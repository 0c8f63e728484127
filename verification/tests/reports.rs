use ci_pipeline::color::Ink;
use ci_pipeline::logging::{colorize, pick_color, JobLogger, LineSource, LogEvent, Logger, OutputMode};
use ci_pipeline::models::{JobResult, JobStatus, RemoteCacheStats, SlowJobInfo, Timestamp};
use ci_pipeline::reporting::{
    count_with_status, format_duration, format_status_colored, format_status_emoji, generate_html_report,
    generate_junit_xml, hit_rate_str, html_escape, progress_line, show_line, summary_layout, summary_lines,
    total_duration, truncate, xml_escape, LineStyle, ShownParts, StyledLine,
};
use ci_pipeline::rounding::{half_even_of, percent_tenths_of, round53_of, seconds_of, sum_thousandths_of};
use ci_pipeline::string_map::StringMap;

fn result(name: &str, status: JobStatus, ms: u64, message: Option<&str>) -> JobResult {
    JobResult {
        job_name: name.to_string(),
        status,
        duration_ms: ms,
        retry_count: 0,
        message: message.map(|m| m.to_string()),
        outputs: StringMap::new(),
        started_at: None,
        finished_at: None,
    }
}

#[test]
fn emojis_of_statuses() {
    let all = [
        (JobStatus::Pending, "⏳"),
        (JobStatus::Running, "🔵"),
        (JobStatus::Success, "✅"),
        (JobStatus::Failed, "❌"),
        (JobStatus::Skipped, "⏭"),
        (JobStatus::Cancelled, "🚫"),
    ];
    for (s, e) in all {
        assert_eq!(format_status_emoji(&s), e);
    }
}

#[test]
fn statuses_are_colored() {
    colored::control::set_override(true);
    assert_eq!(format_status_colored(&JobStatus::Success), "\u{1b}[32msuccess\u{1b}[0m");
    assert_eq!(format_status_colored(&JobStatus::Failed), "\u{1b}[31mfailed\u{1b}[0m");
    assert_eq!(format_status_colored(&JobStatus::Skipped), "\u{1b}[33mskipped\u{1b}[0m");
    assert_eq!(format_status_colored(&JobStatus::Running), "\u{1b}[36mrunning\u{1b}[0m");
    assert_eq!(format_status_colored(&JobStatus::Cancelled), "\u{1b}[35mcancelled\u{1b}[0m");
    assert_eq!(format_status_colored(&JobStatus::Pending), "\u{1b}[2mpending\u{1b}[0m");
}

#[test]
fn statuses_are_plain_without_colors() {
    colored::control::set_override(false);
    assert_eq!(format_status_colored(&JobStatus::Success), "success");
    assert_eq!(format_status_colored(&JobStatus::Pending), "pending");
}

#[test]
fn durations() {
    assert_eq!(format_duration(0), "0ms");
    assert_eq!(format_duration(999), "999ms");
    assert_eq!(format_duration(60_000), "1m0s");
    assert_eq!(format_duration(3_725_999), "62m5s");
    for ms in 1000u64..60_000 {
        assert_eq!(format_duration(ms), format!("{:.2}s", ms as f64 / 1000.0));
    }
}

#[test]
fn long_text_is_shortened() {
    assert_eq!(truncate("short", 5), "short");
    assert_eq!(truncate("longer", 5), "lo...");
    assert_eq!(truncate("äöüäöü", 5), "äö...");
}

#[test]
fn text_is_escaped() {
    assert_eq!(xml_escape("<a b=\"c\" d='e'>&"), "&lt;a b=&quot;c&quot; d=&apos;e&apos;&gt;&amp;");
    assert_eq!(html_escape("<a b=\"c\" d='e'>&"), "&lt;a b=&quot;c&quot; d='e'&gt;&amp;");
    assert_eq!(xml_escape("plain text"), "plain text");
    assert_eq!(html_escape("plain text"), "plain text");
}

#[test]
fn progress_shows_a_bar() {
    let line = progress_line(1, 2, 3, 6, 42);
    let bar = format!("{}{}", "█".repeat(5), "░".repeat(25));
    let text = format!("\r[{}] 16% | 1/6 done | 2 running | 3 queued | 42s elapsed", bar);
    let mut padded = text.clone();
    padded.push_str(&" ".repeat(100 - text.chars().count()));
    assert_eq!(line, padded);
    assert!(progress_line(0, 0, 0, 0, -1).starts_with("\r[░"));
    assert!(progress_line(0, 0, 0, 0, -1).contains("] 0% | 0/0 done | 0 running | 0 queued | -1s elapsed"));
}

#[test]
fn junit_reports_each_job() {
    let results = vec![
        result("a<b", JobStatus::Success, 1500, None),
        result("f", JobStatus::Failed, 25, Some("it \"broke\"")),
        result("s", JobStatus::Skipped, 0, Some("why")),
        result("c", JobStatus::Cancelled, 0, None),
        result("p", JobStatus::Pending, 0, None),
    ];
    let total: f64 = results.iter().map(|r| r.duration_ms as f64 / 1000.0).sum();
    let expected = format!(
        "<?xml version=\"1.0\" encoding=\"UTF-8\"?>\n<testsuites>\n  <testsuite name=\"ci-pipeline\" tests=\"5\" failures=\"1\" errors=\"0\" skipped=\"2\" time=\"{:.3}\">\n    <testcase name=\"a&lt;b\" time=\"1.500\"/>\n    <testcase name=\"f\" time=\"0.025\">\n      <failure message=\"it &quot;broke&quot;\">it &quot;broke&quot;</failure>\n    </testcase>\n    <testcase name=\"s\" time=\"0.000\">\n      <skipped message=\"Job skipped\"/>\n    </testcase>\n    <testcase name=\"c\" time=\"0.000\">\n      <skipped message=\"Job cancelled\"/>\n    </testcase>\n    <testcase name=\"p\" time=\"0.000\"/>\n  </testsuite>\n</testsuites>\n",
        total
    );
    assert_eq!(generate_junit_xml(&results), expected);
}

#[test]
fn junit_without_jobs() {
    assert!(generate_junit_xml(&[]).contains("tests=\"0\" failures=\"0\" errors=\"0\" skipped=\"0\" time=\"0.000\">\n  </testsuite>"));
}

#[test]
fn seconds_agree_with_double_precision() {
    let mut x: u64 = 1;
    for _ in 0..4000 {
        x = x.wrapping_mul(6364136223846793005).wrapping_add(1442695040888963407);
        let ms = x >> (x % 60);
        let shown = format!("{:.3}", ms as f64 / 1000.0);
        let n = seconds_of(ms, 1000);
        assert_eq!(format!("{}.{:03}", n / 1000, n % 1000), shown, "{}", ms);
    }
}

#[test]
fn percentages_agree_with_double_precision() {
    let mut x: u64 = 7;
    for _ in 0..4000 {
        x = x.wrapping_mul(6364136223846793005).wrapping_add(1442695040888963407);
        let whole = (x >> (x % 60)).max(1);
        let part = x.rotate_left(17) % whole;
        let shown = format!("{:.1}", (part as f64 / whole as f64) * 100.0);
        let n = percent_tenths_of(part, whole);
        assert_eq!(format!("{}.{}", n / 10, n % 10), shown, "{} of {}", part, whole);
    }
    for whole in 1u64..200 {
        for part in 0..=whole {
            let shown = format!("{:.1}", (part as f64 / whole as f64) * 100.0);
            let n = percent_tenths_of(part, whole);
            assert_eq!(format!("{}.{}", n / 10, n % 10), shown, "{} of {}", part, whole);
        }
    }
}

#[test]
fn sums_agree_with_double_precision() {
    let mut x: u64 = 3;
    for n in 0..300usize {
        let mut v: Vec<u64> = Vec::new();
        for _ in 0..n {
            x = x.wrapping_mul(6364136223846793005).wrapping_add(1442695040888963407);
            v.push(x >> (24 + x % 30));
        }
        let total: f64 = v.iter().map(|d| *d as f64 / 1000.0).sum();
        let t = sum_thousandths_of(&v);
        let shown = format!("{}.{:03}", t / 1000, t % 1000);
        assert_eq!(shown, format!("{:.3}", total.abs()), "{:?}", v);
    }
}

#[test]
fn long_sums_agree_with_double_precision() {
    let shown = |v: &Vec<u64>| {
        let t = sum_thousandths_of(v);
        format!("{}.{:03}", t / 1000, t % 1000)
    };
    let mut x: u64 = 9;
    for n in [3usize, 1000, 1025, 3000] {
        let v = vec![u64::MAX; n];
        let total: f64 = v.iter().map(|d| *d as f64 / 1000.0).sum();
        assert_eq!(shown(&v), format!("{:.3}", total));
        let mut w: Vec<u64> = Vec::new();
        for _ in 0..n {
            x = x.wrapping_mul(6364136223846793005).wrapping_add(1442695040888963407);
            w.push(if x % 3 == 0 { x >> (x % 60) } else { u64::MAX - (x >> 20) });
        }
        let total: f64 = w.iter().map(|d| *d as f64 / 1000.0).sum();
        assert_eq!(shown(&w), format!("{:.3}", total));
    }
    let results = vec![
        result("a", JobStatus::Success, u64::MAX, None),
        result("b", JobStatus::Success, u64::MAX, None),
        result("c", JobStatus::Failed, u64::MAX, None),
    ];
    let total: f64 = results.iter().map(|r| r.duration_ms as f64 / 1000.0).sum();
    let xml = generate_junit_xml(&results);
    assert!(xml.contains(&format!("tests=\"3\" failures=\"1\" errors=\"0\" skipped=\"0\" time=\"{:.3}\">", total)));
    assert_eq!(xml.matches("<testcase").count(), 3);
}

#[test]
fn slow_jobs_of_no_time() {
    colored::control::set_override(false);
    let slow = vec![SlowJobInfo { job_name: "a".to_string(), duration_ms: 5, total_ms: 0 }];
    let stats = RemoteCacheStats { hits: 0, misses: 0, pushes: 0 };
    let lines = summary_lines(&[], &slow, &stats, false);
    assert!(lines.contains(&"   - a: 5ms (0.0% of total)".to_string()));
}

#[test]
fn rounding_to_even() {
    assert_eq!(half_even_of(5, 2), 2);
    assert_eq!(half_even_of(7, 2), 4);
    assert_eq!(half_even_of(8, 3), 3);
    assert_eq!(round53_of(1 << 60), 1 << 60);
    assert_eq!(round53_of((1 << 53) + 1), 1 << 53);
    assert_eq!(round53_of(u64::MAX as u128), 1 << 64);
}

#[test]
fn hit_rates() {
    let stats = RemoteCacheStats { hits: 1, misses: 2, pushes: 0 };
    assert_eq!(hit_rate_str(&stats), "33.3");
    assert_eq!(hit_rate_str(&RemoteCacheStats { hits: 0, misses: 0, pushes: 9 }), "0.0");
    assert_eq!(hit_rate_str(&RemoteCacheStats { hits: 4, misses: 0, pushes: 0 }), "100.0");
}

#[test]
fn counts_and_totals() {
    let results = vec![
        result("a", JobStatus::Success, 10, None),
        result("b", JobStatus::Failed, 5, None),
        result("c", JobStatus::Success, 1, None),
    ];
    assert_eq!(count_with_status(&results, JobStatus::Success), 2);
    assert_eq!(count_with_status(&results, JobStatus::Skipped), 0);
    assert_eq!(total_duration(&results), 16);
}

#[test]
fn summary_without_colors() {
    colored::control::set_override(false);
    let mut long = result("a", JobStatus::Failed, 3000, Some("0123456789012345678901234567890123456789x"));
    long.retry_count = 2;
    let results = vec![long, result("b", JobStatus::Success, 20, None)];
    let slow = vec![SlowJobInfo { job_name: "a".to_string(), duration_ms: 3000, total_ms: 3020 }];
    let stats = RemoteCacheStats { hits: 1, misses: 1, pushes: 3 };
    let row = |n: &str, j: &str, s: &str, d: &str, r: &str, m: &str| {
        format!("{:<4} {:<40} {:<12} {:<12} {:<8} {}", n, j, s, d, r, m)
    };
    let expected = vec![
        "".to_string(),
        "=".repeat(80),
        "Pipeline Summary".to_string(),
        "=".repeat(80),
        row("#", "Job", "Status", "Duration", "Retries", "Message"),
        "-".repeat(80),
        row("1", "a", "failed", "3.00s", "2", "0123456789012345678901234567890123456..."),
        row("2", "b", "success", "20ms", "0", ""),
        "-".repeat(80),
        "Total: 2 jobs, 1 success, 1 failed, 0 skipped, 0 cancelled".to_string(),
        "Total duration: 3.02s".to_string(),
        "".to_string(),
        "Remote Cache".to_string(),
        "-".repeat(80),
        "  Hits:    1  |  Misses:  1  |  Pushes:  3".to_string(),
        "  Hit rate: 50.0%".to_string(),
        "".to_string(),
        "Performance Insights".to_string(),
        "-".repeat(80),
        "⚠  Slow Jobs (duration > 2x average, marked yellow above):".to_string(),
        format!("   - a: 3.00s ({:.1}% of total)", 3000.0 / 3020.0 * 100.0),
        "".to_string(),
    ];
    assert_eq!(summary_lines(&results, &slow, &stats, true), expected);
    let short = summary_lines(&results, &[], &stats, false);
    assert_eq!(short, expected[..12].to_vec());
}

#[test]
fn summary_marks_slow_jobs() {
    let results = vec![result("a", JobStatus::Success, 10, None), result("b", JobStatus::Success, 1, None)];
    let slow = vec![SlowJobInfo { job_name: "a".to_string(), duration_ms: 10, total_ms: 11 }];
    let parts = ShownParts {
        statuses: vec!["S1".to_string(), "S2".to_string()],
        success: "2".to_string(),
        failed: "0".to_string(),
        skipped: "0".to_string(),
        cancelled: "0".to_string(),
        hits: "h".to_string(),
        misses: "m".to_string(),
        pushes: "p".to_string(),
        slow_names: vec!["A!".to_string()],
    };
    let stats = RemoteCacheStats { hits: 0, misses: 0, pushes: 0 };
    let lines = summary_layout(&results, &slow, &stats, false, &parts);
    assert!(lines[6].style == LineStyle::BoldYellow);
    assert!(lines[7].style == LineStyle::Plain);
    assert!(lines[1].style == LineStyle::Bold);
    assert!(lines[6].text.contains("S1"));
    assert!(lines.iter().any(|l| l.text.starts_with("   - A!: 10ms (90.9% of total)")));
}

#[test]
fn styled_lines() {
    colored::control::set_override(true);
    let line = |style: LineStyle| show_line(&StyledLine { style, text: "x".to_string() });
    assert_eq!(line(LineStyle::Plain), "x");
    assert_eq!(line(LineStyle::Bold), "\u{1b}[1mx\u{1b}[0m");
    assert_eq!(line(LineStyle::BoldYellow), "\u{1b}[1;33mx\u{1b}[0m");
    assert!(Ink::Red != Ink::Green);
}

#[test]
fn html_report_lists_jobs() {
    let mut r = result("a<b", JobStatus::Success, 1500, Some("m&m"));
    r.retry_count = 2;
    r.started_at = Some(Timestamp { secs: 3661, nanos: 0, offset: 3600 });
    let html = generate_html_report(&[r, result("z", JobStatus::Cancelled, 500, None)], "2026-01-02 03:04:05");
    assert!(html.starts_with("<!DOCTYPE html>\n<html lang=\"en\">\n"));
    assert!(html.ends_with("</body>\n</html>\n"));
    assert!(html.contains(
        "    <tr class=\"success\">\n      <td>a&lt;b</td>\n      <td><span class=\"badge success\">✅ success</span></td>\n      <td>1.50s</td>\n      <td><span class='retry'>🔄 2</span></td>\n      <td>02:01:01</td>\n      <td></td>\n      <td>m&amp;m</td>\n    </tr>\n"
    ));
    assert!(html.contains("<p>Generated at 2026-01-02 03:04:05 &middot; Total runtime: 2.00s</p>"));
    assert!(html.contains("<div class=\"number\">2</div>\n        <div class=\"label\">Total Jobs</div>"));
    assert!(html.contains("<div class=\"number\">1</div>\n        <div class=\"label\">Skipped</div>"));
    assert!(html.contains("    * { box-sizing: border-box; margin: 0; padding: 0; }\n"));
    assert!(html.contains("ci-pipeline &middot; Generated 2026-01-02 03:04:05"));
}

#[test]
fn status_names() {
    assert_eq!(JobStatus::Pending.name(), "pending");
    assert_eq!(JobStatus::Cancelled.name(), "cancelled");
}

#[test]
fn job_colors() {
    let names = ["cyan", "magenta", "yellow", "green", "blue", "bright_cyan", "bright_magenta", "bright_yellow", "bright_green"];
    for job in ["", "build", "test/linux", "ünïcode"] {
        let mut hash = 0u64;
        for b in job.bytes() {
            hash = hash.wrapping_mul(31).wrapping_add(b as u64);
        }
        assert_eq!(pick_color(job), names[(hash % 9) as usize]);
    }
}

#[test]
fn colors_by_name() {
    colored::control::set_override(true);
    let code = [
        ("cyan", "36"),
        ("magenta", "35"),
        ("yellow", "33"),
        ("green", "32"),
        ("blue", "34"),
        ("bright_cyan", "96"),
        ("bright_magenta", "95"),
        ("bright_yellow", "93"),
        ("bright_green", "92"),
    ];
    for (name, c) in code {
        assert_eq!(colorize("[x]", name), format!("\u{1b}[{}m[x]\u{1b}[0m", c));
    }
    assert_eq!(colorize("[x]", "plaid"), "[x]");
}

#[test]
fn log_files_and_lines() {
    colored::control::set_override(false);
    let logger = Logger::new("/work", OutputMode::Terminal);
    assert_eq!(logger.logs_dir(), "/work/.ci/logs");
    assert_eq!(logger.get_log_path("a b/c"), "/work/.ci/logs/a_b_c.log");
    assert_eq!(logger.log_line("x"), Some("x".to_string()));
    let quiet = Logger::new("/work", OutputMode::Json);
    assert_eq!(quiet.log_line("x"), None);
    let job = JobLogger::new("a b", &logger);
    assert_eq!(job.prefix, "[a b]");
    assert_eq!(job.log_path, "/work/.ci/logs/a_b.log");
    assert_eq!(job.file_line(LineSource::Run, "l"), "l");
    assert_eq!(job.file_line(LineSource::Stdout, "l"), "[stdout] l");
    assert_eq!(job.file_line(LineSource::Stderr, "l"), "[stderr] l");
    assert_eq!(job.terminal_line(LineSource::Stdout, "l", OutputMode::Terminal), Some("[a b] l".to_string()));
    assert_eq!(job.terminal_line(LineSource::Stderr, "l", OutputMode::Html), None);
    colored::control::set_override(true);
    assert_eq!(
        job.terminal_line(LineSource::Stderr, "l", OutputMode::Terminal),
        Some("[a b] \u{1b}[31ml\u{1b}[0m".to_string())
    );
}

#[test]
fn events_are_told_in_json_only() {
    let event = LogEvent::at("now", "job_started", "a", "running", "");
    assert_eq!(event.event_type, "job_started");
    assert_eq!(event.timestamp, "now");
    assert!(Logger::new(".", OutputMode::Json).emit_event(event.clone()).is_some());
    assert!(Logger::new(".", OutputMode::Terminal).emit_event(event.clone()).is_none());
    assert!(Logger::new(".", OutputMode::Junit).emit_event(event).is_none());
}
