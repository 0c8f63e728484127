//! What is told of a run: summary, progress, reports for other programs.
use vstd::prelude::*;
use vstd::slice::slice_subrange;
use vstd::utf8::encode_utf8;

use crate::clock;
use crate::clock::time_of_day_str;
use crate::color;
use crate::color::{paint, paint_bold, paint_bold_yellow, paint_dimmed, Ink};
use crate::conditions;
use crate::conditions::char_width;
use crate::dag::{Dag, DagModel};
use crate::models;
use crate::models::{JobResult, JobStatus, RemoteCacheStats, ResultModel, SlowJobInfo, SlowModel, Timestamp};
use crate::numbers;
use crate::numbers::{decimal_str, fixed_str, pad_right_str, push_decimal, push_repeat, repeat_str, signed_decimal_str};
use crate::rounding;
use crate::rounding::{percent_tenths_of, seconds_of, sum_thousandths_of};
use crate::text;
use crate::text::{append_str, from_chars, join_strs, replace_str, str_eq, to_chars};

verus! {

// ---------------------------------------------------------------------------
// Statuses and durations

/// The symbol of a status.
pub open spec fn emoji(status: JobStatus) -> Seq<char> {
    match status {
        JobStatus::Pending => "⏳"@,
        JobStatus::Running => "🔵"@,
        JobStatus::Success => "✅"@,
        JobStatus::Failed => "❌"@,
        JobStatus::Skipped => "⏭"@,
        JobStatus::Cancelled => "🚫"@,
    }
}

/// The symbol of a status.
pub fn format_status_emoji(status: &JobStatus) -> (r: String)
    ensures
        r@ == emoji(*status),
{
    match status {
        JobStatus::Pending => "⏳".to_owned(),
        JobStatus::Running => "🔵".to_owned(),
        JobStatus::Success => "✅".to_owned(),
        JobStatus::Failed => "❌".to_owned(),
        JobStatus::Skipped => "⏭".to_owned(),
        JobStatus::Cancelled => "🚫".to_owned(),
    }
}

/// The code of the style in which a status is shown.
pub open spec fn status_style(status: JobStatus) -> Seq<char> {
    match status {
        JobStatus::Success => color::ink_code(Ink::Green),
        JobStatus::Failed => color::ink_code(Ink::Red),
        JobStatus::Skipped => color::ink_code(Ink::Yellow),
        JobStatus::Running => color::ink_code(Ink::Cyan),
        JobStatus::Cancelled => color::ink_code(Ink::Magenta),
        JobStatus::Pending => "2"@,
    }
}

/// The name of a status in its style, or plain where colours are switched off.
pub fn format_status_colored(status: &JobStatus) -> (r: String)
    ensures
        color::shows(r@, status_style(*status), models::status_name(*status)),
{
    let s = status.name();
    match status {
        JobStatus::Success => paint(s, Ink::Green),
        JobStatus::Failed => paint(s, Ink::Red),
        JobStatus::Skipped => paint(s, Ink::Yellow),
        JobStatus::Running => paint(s, Ink::Cyan),
        JobStatus::Cancelled => paint(s, Ink::Magenta),
        JobStatus::Pending => paint_dimmed(s),
    }
}

/// A duration as text: milliseconds below a second, seconds with two digits
/// after the point below a minute, else minutes and seconds.
pub open spec fn duration_text(ms: u64) -> Seq<char> {
    if ms < 1000 {
        numbers::decimal(ms as nat) + "ms"@
    } else if ms < 60_000 {
        numbers::fixed(rounding::seconds(ms, 100), 2) + "s"@
    } else {
        numbers::decimal((ms / 60_000) as nat) + "m"@ + numbers::decimal(
            ((ms % 60_000) / 1000) as nat,
        ) + "s"@
    }
}

/// A duration as text.
pub fn format_duration(ms: u64) -> (r: String)
    ensures
        r@ == duration_text(ms),
{
    if ms < 1000 {
        let mut s = decimal_str(ms as u128);
        append_str(&mut s, "ms");
        s
    } else if ms < 60_000 {
        let mut s = fixed_str(seconds_of(ms, 100), 2);
        append_str(&mut s, "s");
        s
    } else {
        let mut s = decimal_str((ms / 60_000) as u128);
        append_str(&mut s, "m");
        push_decimal(&mut s, ((ms % 60_000) / 1000) as u128);
        append_str(&mut s, "s");
        s
    }
}

/// Text of at most `max` characters: longer text is cut off and ends in
/// `...`.
pub open spec fn shortened(s: Seq<char>, max: int) -> Seq<char> {
    if s.len() <= max {
        s
    } else {
        s.take(max - 3) + "..."@
    }
}

/// Text of at most `max` characters.
pub fn truncate(s: &str, max: usize) -> (r: String)
    requires
        s@.len() > max ==> max >= 3,
    ensures
        r@ == shortened(s@, max as int),
{
    let v = to_chars(s);
    if v.len() <= max {
        s.to_owned()
    } else {
        let part = slice_subrange(v.as_slice(), 0, max - 3);
        let mut t = from_chars(part);
        assert(part@ =~= s@.take(max - 3));
        append_str(&mut t, "...");
        t
    }
}

/// How many results have the status.
pub open spec fn count_status(results: Seq<ResultModel>, status: JobStatus) -> nat
    decreases results.len(),
{
    if results.len() == 0 {
        0
    } else {
        count_status(results.drop_last(), status) + if results.last().status == status {
            1nat
        } else {
            0nat
        }
    }
}

/// How many results have the status.
pub fn count_with_status(results: &[JobResult], status: JobStatus) -> (r: usize)
    ensures
        r == count_status(results.deep_view(), status),
        r <= results@.len(),
{
    let ghost all = results.deep_view();
    let mut n: usize = 0;
    let mut i: usize = 0;
    assert(all.take(0) =~= Seq::<ResultModel>::empty());
    while i < results.len()
        invariant
            all == results.deep_view(),
            i <= results@.len(),
            n <= i,
            n == count_status(all.take(i as int), status),
        decreases results@.len() - i,
    {
        assert(all[i as int] == results@[i as int].deep_view());
        assert(all.take(i + 1).drop_last() =~= all.take(i as int));
        if results[i].status == status {
            n = n + 1;
        }
        i = i + 1;
    }
    assert(all.take(all.len() as int) =~= all);
    n
}

/// The durations of results.
pub open spec fn durations(results: Seq<ResultModel>) -> Seq<u64> {
    Seq::new(results.len(), |i: int| results[i].duration_ms)
}

/// How long the results took together.
pub open spec fn total_ms(results: Seq<ResultModel>) -> nat
    decreases results.len(),
{
    if results.len() == 0 {
        0
    } else {
        total_ms(results.drop_last()) + results.last().duration_ms as nat
    }
}

proof fn lemma_total_grows(results: Seq<ResultModel>, n: int)
    requires
        0 <= n <= results.len(),
    ensures
        total_ms(results.take(n)) <= total_ms(results),
    decreases results.len(),
{
    if n == results.len() {
        assert(results.take(n) =~= results);
    } else {
        lemma_total_grows(results.drop_last(), n);
        assert(results.drop_last().take(n) =~= results.take(n));
    }
}

/// How long the results took together.
pub fn total_duration(results: &[JobResult]) -> (r: u64)
    requires
        total_ms(results.deep_view()) <= u64::MAX,
    ensures
        r == total_ms(results.deep_view()),
{
    let ghost all = results.deep_view();
    let mut sum: u64 = 0;
    let mut i: usize = 0;
    assert(all.take(0) =~= Seq::<ResultModel>::empty());
    while i < results.len()
        invariant
            all == results.deep_view(),
            total_ms(all) <= u64::MAX,
            i <= results@.len(),
            sum == total_ms(all.take(i as int)),
        decreases results@.len() - i,
    {
        assert(all[i as int] == results@[i as int].deep_view());
        assert(all.take(i + 1).drop_last() =~= all.take(i as int));
        proof {
            lemma_total_grows(all, i + 1);
        }
        sum = sum + results[i].duration_ms;
        i = i + 1;
    }
    assert(all.take(all.len() as int) =~= all);
    sum
}

/// The message of a result, empty if there is none.
pub open spec fn message_of(r: ResultModel) -> Seq<char> {
    match r.message {
        Some(m) => m,
        None => Seq::empty(),
    }
}

fn message_str(r: &JobResult) -> (m: String)
    ensures
        m@ == message_of(r.deep_view()),
{
    match &r.message {
        Some(m) => m.clone(),
        None => {
            let s = String::new();
            assert(s@ =~= Seq::<char>::empty());
            s
        },
    }
}

// ---------------------------------------------------------------------------
// Progress

/// The part of a scale that a run has covered.
pub open spec fn covered(done: nat, total: nat, scale: nat) -> nat {
    if total == 0 {
        0
    } else {
        (done * scale) / total
    }
}

/// A bar of 30 cells, filled as far as the run has come.
pub open spec fn progress_bar(done: nat, total: nat) -> Seq<char> {
    let filled = covered(done, total, 30);
    numbers::repeat('█', filled) + numbers::repeat(
        '░',
        if filled < 30 {
            (30 - filled) as nat
        } else {
            0
        },
    )
}

/// The line that tells how far a run has come. It goes back to the start of
/// the line first and is at least 100 characters long.
pub open spec fn progress_text(done: nat, running: nat, pending: nat, total: nat, elapsed: int) -> Seq<char> {
    let percent = covered(done, total, 100);
    let bar = progress_bar(done, total);
    let line = "\r["@ + bar + "] "@ + numbers::decimal(percent) + "% | "@ + numbers::decimal(done)
        + "/"@ + numbers::decimal(total) + " done | "@ + numbers::decimal(running) + " running | "@
        + numbers::decimal(pending) + " queued | "@ + numbers::signed_decimal(elapsed)
        + "s elapsed"@;
    numbers::pad_right(line, 100)
}

/// As long as no more jobs are done than there are, the bar has 30 cells and
/// no more than a hundred per cent are covered.
pub proof fn lemma_progress_is_bounded(done: nat, total: nat)
    requires
        done <= total,
    ensures
        progress_bar(done, total).len() == 30,
        covered(done, total, 100) <= 100,
{
    if total > 0 {
        assert((done * 30) / total <= 30) by (nonlinear_arith)
            requires
                done <= total,
                total > 0,
        ;
        assert((done * 100) / total <= 100) by (nonlinear_arith)
            requires
                done <= total,
                total > 0,
        ;
    }
}

/// The line that tells how far a run has come.
pub fn progress_line(done: usize, running: usize, pending: usize, total: usize, elapsed: i64) -> (r: String)
    requires
        total > 0 ==> done * 100 <= usize::MAX,
    ensures
        r@ == progress_text(done as nat, running as nat, pending as nat, total as nat, elapsed as int),
{
    let percent: usize = if total == 0 {
        0
    } else {
        (done * 100) / total
    };
    let filled: usize = if total == 0 {
        0
    } else {
        (done * 30) / total
    };
    let mut bar = repeat_str('█', filled);
    push_repeat(
        &mut bar,
        '░',
        if filled < 30 {
            30 - filled
        } else {
            0
        },
    );
    let mut line = "\r[".to_owned();
    append_str(&mut line, bar.as_str());
    append_str(&mut line, "] ");
    push_decimal(&mut line, percent as u128);
    append_str(&mut line, "% | ");
    push_decimal(&mut line, done as u128);
    append_str(&mut line, "/");
    push_decimal(&mut line, total as u128);
    append_str(&mut line, " done | ");
    push_decimal(&mut line, running as u128);
    append_str(&mut line, " running | ");
    push_decimal(&mut line, pending as u128);
    append_str(&mut line, " queued | ");
    append_str(&mut line, signed_decimal_str(elapsed).as_str());
    append_str(&mut line, "s elapsed");
    pad_right_str(line.as_str(), 100)
}

// ---------------------------------------------------------------------------
// Escapes

/// Text for an XML attribute or element.
pub open spec fn xml_text(s: Seq<char>) -> Seq<char> {
    text::replace(html_text(s), '\'', "&apos;"@)
}

/// Text for an HTML attribute or element.
pub open spec fn html_text(s: Seq<char>) -> Seq<char> {
    text::replace(
        text::replace(text::replace(text::replace(s, '&', "&amp;"@), '<', "&lt;"@), '>', "&gt;"@),
        '"',
        "&quot;"@,
    )
}

/// Text for an XML attribute or element.
pub fn xml_escape(s: &str) -> (r: String)
    ensures
        r@ == xml_text(s@),
{
    replace_str(html_escape(s).as_str(), '\'', "&apos;")
}

/// Text for an HTML attribute or element.
pub fn html_escape(s: &str) -> (r: String)
    ensures
        r@ == html_text(s@),
{
    let a = replace_str(s, '&', "&amp;");
    let b = replace_str(a.as_str(), '<', "&lt;");
    let c = replace_str(b.as_str(), '>', "&gt;");
    replace_str(c.as_str(), '"', "&quot;")
}

/// Replacing a character leaves no occurrence of it where the replacement
/// holds none, and brings in no character that neither text holds.
proof fn lemma_replace_free(s: Seq<char>, c: char, with: Seq<char>, d: char)
    requires
        !with.contains(d),
        d == c || !s.contains(d),
    ensures
        !text::replace(s, c, with).contains(d),
    decreases s.len(),
{
    if s.len() > 0 {
        let h = s.drop_last();
        if d != c {
            assert(!h.contains(d)) by {
                if h.contains(d) {
                    let i = h.index_of(d);
                    assert(s[i] == d);
                }
            }
            assert(s[s.len() - 1] != d) by {
                assert(s.contains(s[s.len() - 1]));
            }
        }
        lemma_replace_free(h, c, with, d);
        let r = text::replace(h, c, with);
        let t = text::replace(s, c, with);
        if t.contains(d) {
            let i = t.index_of(d);
            if i < r.len() {
                assert(r[i] == d);
            } else if s.last() == c {
                assert(with[i - r.len()] == d);
            }
        }
    }
}

/// Escaped HTML text holds no angle brackets and no double quotes.
pub proof fn lemma_html_text_plain(s: Seq<char>)
    ensures
        !html_text(s).contains('<'),
        !html_text(s).contains('>'),
        !html_text(s).contains('"'),
{
    reveal_strlit("&amp;");
    reveal_strlit("&lt;");
    reveal_strlit("&gt;");
    reveal_strlit("&quot;");
    let a = text::replace(s, '&', "&amp;"@);
    let b = text::replace(a, '<', "&lt;"@);
    let c = text::replace(b, '>', "&gt;"@);
    lemma_replace_free(a, '<', "&lt;"@, '<');
    lemma_replace_free(b, '>', "&gt;"@, '<');
    lemma_replace_free(c, '"', "&quot;"@, '<');
    lemma_replace_free(b, '>', "&gt;"@, '>');
    lemma_replace_free(c, '"', "&quot;"@, '>');
    lemma_replace_free(c, '"', "&quot;"@, '"');
}

/// Escaped XML text holds no angle brackets and no quotes.
pub proof fn lemma_xml_text_plain(s: Seq<char>)
    ensures
        !xml_text(s).contains('<'),
        !xml_text(s).contains('>'),
        !xml_text(s).contains('"'),
        !xml_text(s).contains('\''),
{
    lemma_html_text_plain(s);
    reveal_strlit("&apos;");
    lemma_replace_free(html_text(s), '\'', "&apos;"@, '<');
    lemma_replace_free(html_text(s), '\'', "&apos;"@, '>');
    lemma_replace_free(html_text(s), '\'', "&apos;"@, '"');
    lemma_replace_free(html_text(s), '\'', "&apos;"@, '\'');
}

// ---------------------------------------------------------------------------
// Summary

/// The style of a line.
#[derive(Debug, Clone, Copy, PartialEq, Eq, Structural)]
pub enum LineStyle {
    Plain,
    Bold,
    BoldYellow,
}

/// A line of text in a style.
#[derive(Debug, Clone)]
pub struct StyledLine {
    pub style: LineStyle,
    pub text: String,
}

/// A line of text in a style.
#[verifier::ext_equal]
pub struct LineModel {
    pub style: LineStyle,
    pub text: Seq<char>,
}

impl DeepView for StyledLine {
    type V = LineModel;

    open spec fn deep_view(&self) -> LineModel {
        LineModel { style: self.style, text: self.text@ }
    }
}

/// Whether `shown` is the line as a terminal shows it.
pub open spec fn shows_line(shown: Seq<char>, line: LineModel) -> bool {
    match line.style {
        LineStyle::Plain => shown == line.text,
        LineStyle::Bold => color::shows(shown, "1"@, line.text),
        LineStyle::BoldYellow => color::shows(shown, "1;33"@, line.text),
    }
}

/// The line as a terminal shows it.
pub fn show_line(line: &StyledLine) -> (r: String)
    ensures
        shows_line(r@, line.deep_view()),
{
    match line.style {
        LineStyle::Plain => line.text.clone(),
        LineStyle::Bold => paint_bold(line.text.as_str()),
        LineStyle::BoldYellow => paint_bold_yellow(line.text.as_str()),
    }
}

/// A line without a style.
pub open spec fn plain_line(s: Seq<char>) -> LineModel {
    LineModel { style: LineStyle::Plain, text: s }
}

/// A line in bold type.
pub open spec fn bold_line(s: Seq<char>) -> LineModel {
    LineModel { style: LineStyle::Bold, text: s }
}

/// One row of the table of jobs.
pub open spec fn table_row(
    number: Seq<char>,
    job: Seq<char>,
    status: Seq<char>,
    duration: Seq<char>,
    retries: Seq<char>,
    message: Seq<char>,
) -> Seq<char> {
    numbers::pad_right(number, 4) + " "@ + numbers::pad_right(job, 40) + " "@ + numbers::pad_right(
        status,
        12,
    ) + " "@ + numbers::pad_right(duration, 12) + " "@ + numbers::pad_right(retries, 8) + " "@
        + message
}

fn table_row_str(
    number: &str,
    job: &str,
    status: &str,
    duration: &str,
    retries: &str,
    message: &str,
) -> (r: String)
    ensures
        r@ == table_row(number@, job@, status@, duration@, retries@, message@),
{
    let mut s = pad_right_str(number, 4);
    append_str(&mut s, " ");
    append_str(&mut s, pad_right_str(job, 40).as_str());
    append_str(&mut s, " ");
    append_str(&mut s, pad_right_str(status, 12).as_str());
    append_str(&mut s, " ");
    append_str(&mut s, pad_right_str(duration, 12).as_str());
    append_str(&mut s, " ");
    append_str(&mut s, pad_right_str(retries, 8).as_str());
    append_str(&mut s, " ");
    append_str(&mut s, message);
    s
}

/// Whether a job is among the slow ones.
pub open spec fn is_slow(slow: Seq<SlowModel>, job: Seq<char>) -> bool {
    exists|i: int| 0 <= i < slow.len() && (#[trigger] slow[i]).job_name == job
}

fn is_slow_job(slow: &[SlowJobInfo], job: &str) -> (r: bool)
    ensures
        r == is_slow(slow.deep_view(), job@),
{
    let ghost all = slow.deep_view();
    let mut i: usize = 0;
    while i < slow.len()
        invariant
            all == slow.deep_view(),
            i <= slow@.len(),
            forall|k: int| 0 <= k < i ==> (#[trigger] all[k]).job_name != job@,
        decreases slow@.len() - i,
    {
        assert(all[i as int] == slow@[i as int].deep_view());
        if str_eq(slow[i].job_name.as_str(), job) {
            return true;
        }
        i = i + 1;
    }
    false
}

/// The row of the `i`th result; `status` is its status as it is shown.
pub open spec fn result_row(results: Seq<ResultModel>, slow: Seq<SlowModel>, i: int, status: Seq<char>) -> LineModel {
    let r = results[i];
    LineModel {
        style: if is_slow(slow, r.job_name) {
            LineStyle::BoldYellow
        } else {
            LineStyle::Plain
        },
        text: table_row(
            numbers::decimal((i + 1) as nat),
            shortened(r.job_name, 38),
            status,
            duration_text(r.duration_ms),
            numbers::decimal(r.retry_count as nat),
            shortened(message_of(r), 40),
        ),
    }
}

/// The parts of the summary that are shown in a style of their own.
#[derive(Debug, Clone)]
pub struct ShownParts {
    /// The status of each result.
    pub statuses: Vec<String>,
    /// How many jobs succeeded, failed, were skipped, were cancelled.
    pub success: String,
    pub failed: String,
    pub skipped: String,
    pub cancelled: String,
    /// What the remote cache was used for.
    pub hits: String,
    pub misses: String,
    pub pushes: String,
    /// The name of each slow job.
    pub slow_names: Vec<String>,
}

/// The parts of the summary that are shown in a style of their own.
#[verifier::ext_equal]
pub struct PartsModel {
    pub statuses: Seq<Seq<char>>,
    pub success: Seq<char>,
    pub failed: Seq<char>,
    pub skipped: Seq<char>,
    pub cancelled: Seq<char>,
    pub hits: Seq<char>,
    pub misses: Seq<char>,
    pub pushes: Seq<char>,
    pub slow_names: Seq<Seq<char>>,
}

impl DeepView for ShownParts {
    type V = PartsModel;

    open spec fn deep_view(&self) -> PartsModel {
        PartsModel {
            statuses: self.statuses.deep_view(),
            success: self.success@,
            failed: self.failed@,
            skipped: self.skipped@,
            cancelled: self.cancelled@,
            hits: self.hits@,
            misses: self.misses@,
            pushes: self.pushes@,
            slow_names: self.slow_names.deep_view(),
        }
    }
}

/// The title and the head of the table.
pub open spec fn summary_head() -> Seq<LineModel> {
    seq![
        plain_line(Seq::empty()),
        bold_line(numbers::repeat('=', 80)),
        bold_line("Pipeline Summary"@),
        bold_line(numbers::repeat('=', 80)),
        bold_line(
            table_row(
                "#"@,
                "Job"@,
                "Status"@,
                "Duration"@,
                "Retries"@,
                "Message"@,
            ),
        ),
        plain_line(numbers::repeat('-', 80)),
    ]
}

/// The totals.
pub open spec fn summary_totals(results: Seq<ResultModel>, parts: PartsModel) -> Seq<LineModel> {
    seq![
        plain_line(numbers::repeat('-', 80)),
        plain_line(
            "Total: "@ + numbers::decimal(results.len()) + " jobs, "@ + parts.success + " success, "@
                + parts.failed + " failed, "@ + parts.skipped + " skipped, "@ + parts.cancelled
                + " cancelled"@,
        ),
        plain_line("Total duration: "@ + duration_text(total_ms(results) as u64)),
        plain_line(Seq::empty()),
    ]
}

/// The share of requests that the remote cache could answer, in percent.
pub open spec fn hit_rate(stats: RemoteCacheStats) -> Seq<char> {
    if stats.hits + stats.misses > 0 {
        numbers::fixed(
            rounding::percent_tenths(stats.hits, (stats.hits + stats.misses) as u64),
            1,
        )
    } else {
        "0.0"@
    }
}

/// What the remote cache was used for.
pub open spec fn summary_cache(stats: RemoteCacheStats, parts: PartsModel) -> Seq<LineModel> {
    seq![
        bold_line("Remote Cache"@),
        plain_line(numbers::repeat('-', 80)),
        plain_line(
            "  Hits:    "@ + parts.hits + "  |  Misses:  "@ + parts.misses + "  |  Pushes:  "@
                + parts.pushes,
        ),
        plain_line("  Hit rate: "@ + hit_rate(stats) + "%"@),
        plain_line(Seq::empty()),
    ]
}

/// The share that a slow job has in the time of all, in percent; of no time at
/// all it is zero.
pub open spec fn slow_share(slow: SlowModel) -> Seq<char> {
    if slow.total_ms > 0 {
        numbers::fixed(rounding::percent_tenths(slow.duration_ms, slow.total_ms), 1)
    } else {
        "0.0"@
    }
}

/// The line on a slow job, whose name is shown as `name`.
pub open spec fn slow_line(slow: SlowModel, name: Seq<char>) -> Seq<char> {
    "   - "@ + name + ": "@ + duration_text(slow.duration_ms) + " ("@ + slow_share(slow)
        + "% of total)"@
}

/// The slow jobs.
pub open spec fn summary_slow(slow: Seq<SlowModel>, parts: PartsModel) -> Seq<LineModel> {
    seq![
        bold_line("Performance Insights"@),
        plain_line(numbers::repeat('-', 80)),
        plain_line("⚠  Slow Jobs (duration > 2x average, marked yellow above):"@),
    ] + Seq::new(slow.len(), |i: int| plain_line(slow_line(slow[i], parts.slow_names[i]))) + seq![
        plain_line(Seq::empty()),
    ]
}

/// The lines of the summary.
pub open spec fn summary(
    results: Seq<ResultModel>,
    slow: Seq<SlowModel>,
    stats: RemoteCacheStats,
    cache_enabled: bool,
    parts: PartsModel,
) -> Seq<LineModel> {
    summary_head() + Seq::new(
        results.len(),
        |i: int| result_row(results, slow, i, parts.statuses[i]),
    ) + summary_totals(results, parts) + (if cache_enabled {
        summary_cache(stats, parts)
    } else {
        Seq::empty()
    }) + (if slow.len() > 0 {
        summary_slow(slow, parts)
    } else {
        Seq::empty()
    })
}

/// Whether each part is shown as it should be.
pub open spec fn shows_parts(
    results: Seq<ResultModel>,
    slow: Seq<SlowModel>,
    stats: RemoteCacheStats,
    parts: PartsModel,
) -> bool {
    &&& parts.statuses.len() == results.len()
    &&& forall|i: int|
        0 <= i < results.len() ==> color::shows(
            #[trigger] parts.statuses[i],
            status_style(results[i].status),
            models::status_name(results[i].status),
        )
    &&& color::shows(
        parts.success,
        color::ink_code(Ink::Green),
        numbers::decimal(count_status(results, JobStatus::Success)),
    )
    &&& color::shows(
        parts.failed,
        color::ink_code(Ink::Red),
        numbers::decimal(count_status(results, JobStatus::Failed)),
    )
    &&& color::shows(
        parts.skipped,
        color::ink_code(Ink::Yellow),
        numbers::decimal(count_status(results, JobStatus::Skipped)),
    )
    &&& color::shows(
        parts.cancelled,
        color::ink_code(Ink::Magenta),
        numbers::decimal(count_status(results, JobStatus::Cancelled)),
    )
    &&& color::shows(parts.hits, color::ink_code(Ink::Green), numbers::decimal(stats.hits as nat))
    &&& color::shows(
        parts.misses,
        color::ink_code(Ink::Yellow),
        numbers::decimal(stats.misses as nat),
    )
    &&& color::shows(
        parts.pushes,
        color::ink_code(Ink::Cyan),
        numbers::decimal(stats.pushes as nat),
    )
    &&& parts.slow_names.len() == slow.len()
    &&& forall|i: int|
        0 <= i < slow.len() ==> color::shows(
            #[trigger] parts.slow_names[i],
            "1;33"@,
            slow[i].job_name,
        )
}

fn push_line(lines: &mut Vec<StyledLine>, style: LineStyle, text: String)
    ensures
        final(lines).deep_view() == old(lines).deep_view().push(LineModel { style, text: text@ }),
{
    let ghost before = lines.deep_view();
    lines.push(StyledLine { style, text });
    assert(lines.deep_view() =~= before.push(LineModel { style, text: text@ }));
}

fn push_head(lines: &mut Vec<StyledLine>)
    ensures
        final(lines).deep_view() == old(lines).deep_view() + summary_head(),
{
    let ghost before = lines.deep_view();
    let empty = String::new();
    assert(empty@ =~= Seq::<char>::empty());
    push_line(lines, LineStyle::Plain, empty);
    push_line(lines, LineStyle::Bold, repeat_str('=', 80));
    push_line(lines, LineStyle::Bold, "Pipeline Summary".to_owned());
    push_line(lines, LineStyle::Bold, repeat_str('=', 80));
    push_line(
        lines,
        LineStyle::Bold,
        table_row_str("#", "Job", "Status", "Duration", "Retries", "Message"),
    );
    push_line(lines, LineStyle::Plain, repeat_str('-', 80));
    assert(lines.deep_view() =~= before + summary_head());
}

fn push_totals(lines: &mut Vec<StyledLine>, results: &[JobResult], parts: &ShownParts)
    requires
        total_ms(results.deep_view()) <= u64::MAX,
    ensures
        final(lines).deep_view() == old(lines).deep_view() + summary_totals(
            results.deep_view(),
            parts.deep_view(),
        ),
{
    let ghost before = lines.deep_view();
    push_line(lines, LineStyle::Plain, repeat_str('-', 80));
    let mut total = "Total: ".to_owned();
    push_decimal(&mut total, results.len() as u128);
    append_str(&mut total, " jobs, ");
    append_str(&mut total, parts.success.as_str());
    append_str(&mut total, " success, ");
    append_str(&mut total, parts.failed.as_str());
    append_str(&mut total, " failed, ");
    append_str(&mut total, parts.skipped.as_str());
    append_str(&mut total, " skipped, ");
    append_str(&mut total, parts.cancelled.as_str());
    append_str(&mut total, " cancelled");
    push_line(lines, LineStyle::Plain, total);
    let mut duration = "Total duration: ".to_owned();
    append_str(&mut duration, format_duration(total_duration(results)).as_str());
    push_line(lines, LineStyle::Plain, duration);
    let empty = String::new();
    assert(empty@ =~= Seq::<char>::empty());
    push_line(lines, LineStyle::Plain, empty);
    assert(lines.deep_view() =~= before + summary_totals(results.deep_view(), parts.deep_view()));
}

/// The share of requests that the remote cache could answer, in percent.
pub fn hit_rate_str(stats: &RemoteCacheStats) -> (r: String)
    requires
        stats.hits + stats.misses <= u64::MAX,
    ensures
        r@ == hit_rate(*stats),
{
    let total: u64 = stats.hits + stats.misses;
    if total > 0 {
        fixed_str(percent_tenths_of(stats.hits, total), 1)
    } else {
        "0.0".to_owned()
    }
}

fn push_cache(lines: &mut Vec<StyledLine>, stats: &RemoteCacheStats, parts: &ShownParts)
    requires
        stats.hits + stats.misses <= u64::MAX,
    ensures
        final(lines).deep_view() == old(lines).deep_view() + summary_cache(*stats, parts.deep_view()),
{
    let ghost before = lines.deep_view();
    push_line(lines, LineStyle::Bold, "Remote Cache".to_owned());
    push_line(lines, LineStyle::Plain, repeat_str('-', 80));
    let mut usage = "  Hits:    ".to_owned();
    append_str(&mut usage, parts.hits.as_str());
    append_str(&mut usage, "  |  Misses:  ");
    append_str(&mut usage, parts.misses.as_str());
    append_str(&mut usage, "  |  Pushes:  ");
    append_str(&mut usage, parts.pushes.as_str());
    push_line(lines, LineStyle::Plain, usage);
    let mut rate = "  Hit rate: ".to_owned();
    append_str(&mut rate, hit_rate_str(stats).as_str());
    append_str(&mut rate, "%");
    push_line(lines, LineStyle::Plain, rate);
    let empty = String::new();
    assert(empty@ =~= Seq::<char>::empty());
    push_line(lines, LineStyle::Plain, empty);
    assert(lines.deep_view() =~= before + summary_cache(*stats, parts.deep_view()));
}

fn push_slow(lines: &mut Vec<StyledLine>, slow: &[SlowJobInfo], parts: &ShownParts)
    requires
        parts.slow_names@.len() == slow@.len(),
    ensures
        final(lines).deep_view() == old(lines).deep_view() + summary_slow(
            slow.deep_view(),
            parts.deep_view(),
        ),
{
    let ghost before = lines.deep_view();
    let ghost all = slow.deep_view();
    let ghost names = parts.slow_names.deep_view();
    push_line(lines, LineStyle::Bold, "Performance Insights".to_owned());
    push_line(lines, LineStyle::Plain, repeat_str('-', 80));
    push_line(
        lines,
        LineStyle::Plain,
        "⚠  Slow Jobs (duration > 2x average, marked yellow above):".to_owned(),
    );
    let ghost head = lines.deep_view();
    let ghost rows = Seq::new(all.len(), |i: int| plain_line(slow_line(all[i], names[i])));
    let mut i: usize = 0;
    assert(head + rows.take(0) =~= head);
    while i < slow.len()
        invariant
            all == slow.deep_view(),
            names == parts.slow_names.deep_view(),
            names.len() == all.len(),
            rows == Seq::new(all.len(), |i: int| plain_line(slow_line(all[i], names[i]))),
            i <= slow@.len(),
            lines.deep_view() == head + rows.take(i as int),
        decreases slow@.len() - i,
    {
        let s = &slow[i];
        assert(all[i as int] == s.deep_view());
        let mut line = "   - ".to_owned();
        append_str(&mut line, parts.slow_names[i].as_str());
        append_str(&mut line, ": ");
        append_str(&mut line, format_duration(s.duration_ms).as_str());
        append_str(&mut line, " (");
        if s.total_ms > 0 {
            append_str(&mut line, fixed_str(percent_tenths_of(s.duration_ms, s.total_ms), 1).as_str());
        } else {
            append_str(&mut line, "0.0");
        }
        append_str(&mut line, "% of total)");
        assert(line@ == slow_line(all[i as int], names[i as int]));
        push_line(lines, LineStyle::Plain, line);
        assert(lines.deep_view() =~= head + rows.take(i + 1));
        i = i + 1;
    }
    assert(rows.take(rows.len() as int) =~= rows);
    let empty = String::new();
    assert(empty@ =~= Seq::<char>::empty());
    push_line(lines, LineStyle::Plain, empty);
    assert(lines.deep_view() =~= before + summary_slow(all, parts.deep_view()));
}

/// The lines of the summary, given the parts that are shown in a style of
/// their own.
pub fn summary_layout(
    results: &[JobResult],
    slow: &[SlowJobInfo],
    stats: &RemoteCacheStats,
    cache_enabled: bool,
    parts: &ShownParts,
) -> (r: Vec<StyledLine>)
    requires
        parts.statuses@.len() == results@.len(),
        parts.slow_names@.len() == slow@.len(),
        total_ms(results.deep_view()) <= u64::MAX,
        stats.hits + stats.misses <= u64::MAX,
    ensures
        r.deep_view() == summary(
            results.deep_view(),
            slow.deep_view(),
            *stats,
            cache_enabled,
            parts.deep_view(),
        ),
{
    let ghost all = results.deep_view();
    let ghost slows = slow.deep_view();
    let ghost statuses = parts.statuses.deep_view();
    let mut lines: Vec<StyledLine> = Vec::new();
    assert(lines.deep_view() =~= Seq::<LineModel>::empty());
    push_head(&mut lines);
    let ghost head = lines.deep_view();
    let ghost rows = Seq::new(all.len(), |i: int| result_row(all, slows, i, statuses[i]));
    let mut i: usize = 0;
    assert(head + rows.take(0) =~= head);
    while i < results.len()
        invariant
            all == results.deep_view(),
            slows == slow.deep_view(),
            statuses == parts.statuses.deep_view(),
            statuses.len() == all.len(),
            rows == Seq::new(all.len(), |i: int| result_row(all, slows, i, statuses[i])),
            i <= results@.len(),
            lines.deep_view() == head + rows.take(i as int),
        decreases results@.len() - i,
    {
        let r = &results[i];
        assert(all[i as int] == r.deep_view());
        let message = truncate(message_str(r).as_str(), 40);
        let name = truncate(r.job_name.as_str(), 38);
        let line = table_row_str(
            decimal_str(i as u128 + 1).as_str(),
            name.as_str(),
            parts.statuses[i].as_str(),
            format_duration(r.duration_ms).as_str(),
            decimal_str(r.retry_count as u128).as_str(),
            message.as_str(),
        );
        let style = if is_slow_job(slow, r.job_name.as_str()) {
            LineStyle::BoldYellow
        } else {
            LineStyle::Plain
        };
        push_line(&mut lines, style, line);
        assert(rows[i as int] == LineModel { style, text: line@ });
        assert(lines.deep_view() =~= head + rows.take(i + 1));
        i = i + 1;
    }
    assert(rows.take(rows.len() as int) =~= rows);
    push_totals(&mut lines, results, parts);
    if cache_enabled {
        push_cache(&mut lines, stats, parts);
    }
    if slow.len() > 0 {
        push_slow(&mut lines, slow, parts);
    }
    assert(lines.deep_view() =~= summary(all, slows, *stats, cache_enabled, parts.deep_view()));
    lines
}

fn show_parts(results: &[JobResult], slow: &[SlowJobInfo], stats: &RemoteCacheStats) -> (r: ShownParts)
    ensures
        shows_parts(results.deep_view(), slow.deep_view(), *stats, r.deep_view()),
{
    let ghost all = results.deep_view();
    let ghost slows = slow.deep_view();
    let mut statuses: Vec<String> = Vec::new();
    let mut i: usize = 0;
    while i < results.len()
        invariant
            all == results.deep_view(),
            i <= results@.len(),
            statuses@.len() == i,
            forall|k: int|
                0 <= k < i ==> color::shows(
                    (#[trigger] statuses@[k])@,
                    status_style(all[k].status),
                    models::status_name(all[k].status),
                ),
        decreases results@.len() - i,
    {
        assert(all[i as int] == results@[i as int].deep_view());
        statuses.push(format_status_colored(&results[i].status));
        i = i + 1;
    }
    let mut slow_names: Vec<String> = Vec::new();
    let mut j: usize = 0;
    while j < slow.len()
        invariant
            slows == slow.deep_view(),
            j <= slow@.len(),
            slow_names@.len() == j,
            forall|k: int|
                0 <= k < j ==> color::shows((#[trigger] slow_names@[k])@, "1;33"@, slows[k].job_name),
        decreases slow@.len() - j,
    {
        assert(slows[j as int] == slow@[j as int].deep_view());
        slow_names.push(paint_bold_yellow(slow[j].job_name.as_str()));
        j = j + 1;
    }
    let success = decimal_str(count_with_status(results, JobStatus::Success) as u128);
    let failed = decimal_str(count_with_status(results, JobStatus::Failed) as u128);
    let skipped = decimal_str(count_with_status(results, JobStatus::Skipped) as u128);
    let cancelled = decimal_str(count_with_status(results, JobStatus::Cancelled) as u128);
    let parts = ShownParts {
        statuses,
        success: paint(success.as_str(), Ink::Green),
        failed: paint(failed.as_str(), Ink::Red),
        skipped: paint(skipped.as_str(), Ink::Yellow),
        cancelled: paint(cancelled.as_str(), Ink::Magenta),
        hits: paint(decimal_str(stats.hits as u128).as_str(), Ink::Green),
        misses: paint(decimal_str(stats.misses as u128).as_str(), Ink::Yellow),
        pushes: paint(decimal_str(stats.pushes as u128).as_str(), Ink::Cyan),
        slow_names,
    };
    proof {
        let m = parts.deep_view();
        assert forall|i: int| 0 <= i < all.len() implies color::shows(
            #[trigger] m.statuses[i],
            status_style(all[i].status),
            models::status_name(all[i].status),
        ) by {
            assert(m.statuses[i] == statuses@[i]@);
        }
        assert forall|i: int| 0 <= i < slows.len() implies color::shows(
            #[trigger] m.slow_names[i],
            "1;33"@,
            slows[i].job_name,
        ) by {
            assert(m.slow_names[i] == slow_names@[i]@);
        }
    }
    parts
}

/// The lines of the summary as a terminal shows them.
pub fn summary_lines(
    results: &[JobResult],
    slow: &[SlowJobInfo],
    stats: &RemoteCacheStats,
    cache_enabled: bool,
) -> (r: Vec<String>)
    requires
        total_ms(results.deep_view()) <= u64::MAX,
        stats.hits + stats.misses <= u64::MAX,
    ensures
        exists|parts: PartsModel| #[trigger]
            shows_parts(results.deep_view(), slow.deep_view(), *stats, parts) && shows_all(
                r.deep_view(),
                summary(results.deep_view(), slow.deep_view(), *stats, cache_enabled, parts),
            ),
{
    let parts = show_parts(results, slow, stats);
    let lines = summary_layout(results, slow, stats, cache_enabled, &parts);
    let ghost all = lines.deep_view();
    let mut out: Vec<String> = Vec::new();
    let mut i: usize = 0;
    while i < lines.len()
        invariant
            all == lines.deep_view(),
            i <= lines@.len(),
            out@.len() == i,
            forall|k: int| 0 <= k < i ==> shows_line((#[trigger] out@[k])@, all[k]),
        decreases lines@.len() - i,
    {
        assert(all[i as int] == lines@[i as int].deep_view());
        out.push(show_line(&lines[i]));
        i = i + 1;
    }
    assert(shows_all(out.deep_view(), all)) by {
        assert forall|k: int| 0 <= k < all.len() implies shows_line(
            #[trigger] out.deep_view()[k],
            all[k],
        ) by {
            assert(out.deep_view()[k] == out@[k]@);
        }
    }
    assert(shows_parts(results.deep_view(), slow.deep_view(), *stats, parts.deep_view()));
    out
}

/// Whether each line is shown as it should be.
pub open spec fn shows_all(shown: Seq<Seq<char>>, lines: Seq<LineModel>) -> bool {
    &&& shown.len() == lines.len()
    &&& forall|i: int| 0 <= i < lines.len() ==> shows_line(#[trigger] shown[i], lines[i])
}

// ---------------------------------------------------------------------------
// JUnit report

/// What stands behind the time of a test case.
pub open spec fn case_end(r: ResultModel) -> Seq<char> {
    match r.status {
        JobStatus::Failed => ">\n"@ + "      <failure message=\""@ + xml_text(message_of(r)) + "\">"@
            + xml_text(message_of(r)) + "</failure>"@ + "\n    </testcase>\n"@,
        JobStatus::Skipped => ">\n"@ + "      <skipped message=\"Job skipped\"/>\n"@
            + "    </testcase>\n"@,
        JobStatus::Cancelled => ">\n"@ + "      <skipped message=\"Job cancelled\"/>\n"@
            + "    </testcase>\n"@,
        _ => "/>\n"@,
    }
}

/// The test case of a result.
pub open spec fn test_case(r: ResultModel) -> Seq<char> {
    "    <testcase name=\""@ + xml_text(r.job_name) + "\" time=\""@ + numbers::fixed(
        rounding::seconds(r.duration_ms, 1000),
        3,
    ) + "\""@ + case_end(r)
}

/// The test cases of results.
pub open spec fn test_cases(results: Seq<ResultModel>) -> Seq<char>
    decreases results.len(),
{
    if results.len() == 0 {
        Seq::empty()
    } else {
        test_cases(results.drop_last()) + test_case(results.last())
    }
}

/// How many results were skipped or cancelled.
pub open spec fn left_out(results: Seq<ResultModel>) -> nat {
    count_status(results, JobStatus::Skipped) + count_status(results, JobStatus::Cancelled)
}

/// The report of results in the format of JUnit.
pub open spec fn junit(results: Seq<ResultModel>) -> Seq<char> {
    "<?xml version=\"1.0\" encoding=\"UTF-8\"?>\n<testsuites>\n"@
        + "  <testsuite name=\"ci-pipeline\" tests=\""@ + numbers::decimal(results.len())
        + "\" failures=\""@ + numbers::decimal(count_status(results, JobStatus::Failed))
        + "\" errors=\"0\" skipped=\""@ + numbers::decimal(left_out(results)) + "\" time=\""@
        + numbers::fixed(rounding::sum_thousandths(durations(results)), 3) + "\">\n"@ + test_cases(
        results,
    ) + "  </testsuite>\n</testsuites>\n"@
}

fn push_case_end(s: &mut String, r: &JobResult)
    ensures
        final(s)@ == old(s)@ + case_end(r.deep_view()),
{
    let ghost before = s@;
    match r.status {
        JobStatus::Failed => {
            let message = xml_escape(message_str(r).as_str());
            append_str(s, ">\n");
            append_str(s, "      <failure message=\"");
            append_str(s, message.as_str());
            append_str(s, "\">");
            append_str(s, message.as_str());
            append_str(s, "</failure>");
            append_str(s, "\n    </testcase>\n");
        },
        JobStatus::Skipped => {
            append_str(s, ">\n");
            append_str(s, "      <skipped message=\"Job skipped\"/>\n");
            append_str(s, "    </testcase>\n");
        },
        JobStatus::Cancelled => {
            append_str(s, ">\n");
            append_str(s, "      <skipped message=\"Job cancelled\"/>\n");
            append_str(s, "    </testcase>\n");
        },
        _ => {
            append_str(s, "/>\n");
        },
    }
    assert(s@ =~= before + case_end(r.deep_view()));
}

/// The report of results in the format of JUnit.
pub fn generate_junit_xml(results: &[JobResult]) -> (r: String)
    ensures
        r@ == junit(results.deep_view()),
{
    let ghost all = results.deep_view();
    let mut cases = String::new();
    let mut times: Vec<u64> = Vec::new();
    let mut i: usize = 0;
    assert(all.take(0) =~= Seq::<ResultModel>::empty());
    assert(cases@ =~= test_cases(all.take(0)));
    while i < results.len()
        invariant
            all == results.deep_view(),
            i <= results@.len(),
            cases@ == test_cases(all.take(i as int)),
            times@.len() == i,
            forall|k: int| 0 <= k < i ==> #[trigger] times@[k] == all[k].duration_ms,
        decreases results@.len() - i,
    {
        let r = &results[i];
        let ghost before = cases@;
        assert(all[i as int] == r.deep_view());
        assert(all.take(i + 1).drop_last() =~= all.take(i as int));
        append_str(&mut cases, "    <testcase name=\"");
        append_str(&mut cases, xml_escape(r.job_name.as_str()).as_str());
        append_str(&mut cases, "\" time=\"");
        append_str(&mut cases, fixed_str(seconds_of(r.duration_ms, 1000), 3).as_str());
        append_str(&mut cases, "\"");
        push_case_end(&mut cases, r);
        assert(cases@ =~= before + test_case(r.deep_view()));
        times.push(r.duration_ms);
        i = i + 1;
    }
    assert(all.take(all.len() as int) =~= all);
    assert(times@ =~= durations(all));
    let mut s = "<?xml version=\"1.0\" encoding=\"UTF-8\"?>\n<testsuites>\n".to_owned();
    append_str(&mut s, "  <testsuite name=\"ci-pipeline\" tests=\"");
    push_decimal(&mut s, results.len() as u128);
    append_str(&mut s, "\" failures=\"");
    push_decimal(&mut s, count_with_status(results, JobStatus::Failed) as u128);
    append_str(&mut s, "\" errors=\"0\" skipped=\"");
    push_decimal(
        &mut s,
        count_with_status(results, JobStatus::Skipped) as u128 + count_with_status(
            results,
            JobStatus::Cancelled,
        ) as u128,
    );
    append_str(&mut s, "\" time=\"");
    append_str(&mut s, fixed_str(sum_thousandths_of(&times), 3).as_str());
    append_str(&mut s, "\">\n");
    append_str(&mut s, cases.as_str());
    append_str(&mut s, "  </testsuite>\n</testsuites>\n");
    s
}

// ---------------------------------------------------------------------------
// HTML report

/// The page of HTML up to the time of its making.
pub const REPORT_HEAD: &'static str = r#"<!DOCTYPE html>
<html lang="en">
<head>
  <meta charset="UTF-8">
  <meta name="viewport" content="width=device-width, initial-scale=1.0">
  <title>CI Pipeline Report</title>
  <style>
    * { box-sizing: border-box; margin: 0; padding: 0; }
    body {
      font-family: -apple-system, BlinkMacSystemFont, 'Segoe UI', Roboto, sans-serif;
      background: #f5f7fa;
      padding: 20px;
      color: #333;
    }
    .container { max-width: 1200px; margin: 0 auto; }
    .header {
      background: linear-gradient(135deg, #667eea 0%, #764ba2 100%);
      color: white;
      padding: 30px;
      border-radius: 12px;
      margin-bottom: 24px;
    }
    .header h1 { font-size: 28px; margin-bottom: 8px; }
    .header p { opacity: 0.9; }
    .stats {
      display: grid;
      grid-template-columns: repeat(auto-fit, minmax(150px, 1fr));
      gap: 16px;
      margin-bottom: 24px;
    }
    .stat-card {
      background: white;
      border-radius: 8px;
      padding: 20px;
      box-shadow: 0 2px 4px rgba(0,0,0,0.05);
      text-align: center;
    }
    .stat-card .number { font-size: 32px; font-weight: bold; margin-bottom: 4px; }
    .stat-card .label { font-size: 14px; color: #666; }
    .stat-card.success .number { color: #10b981; }
    .stat-card.failed .number { color: #ef4444; }
    .stat-card.skipped .number { color: #f59e0b; }
    .stat-card.total .number { color: #3b82f6; }
    .table-container {
      background: white;
      border-radius: 12px;
      overflow: hidden;
      box-shadow: 0 2px 4px rgba(0,0,0,0.05);
    }
    table { width: 100%; border-collapse: collapse; }
    th, td {
      padding: 14px 16px;
      text-align: left;
      border-bottom: 1px solid #e5e7eb;
    }
    th {
      background: #f9fafb;
      font-weight: 600;
      color: #374151;
      font-size: 13px;
      text-transform: uppercase;
      letter-spacing: 0.05em;
    }
    tr.success td { background: rgba(16, 185, 129, 0.05); }
    tr.failed td { background: rgba(239, 68, 68, 0.05); }
    tr.skipped td, tr.cancelled td { background: rgba(245, 158, 11, 0.05); }
    .badge {
      display: inline-flex;
      align-items: center;
      gap: 4px;
      padding: 4px 10px;
      border-radius: 20px;
      font-size: 12px;
      font-weight: 600;
    }
    .badge.success { background: #d1fae5; color: #065f46; }
    .badge.failed { background: #fee2e2; color: #991b1b; }
    .badge.skipped, .badge.cancelled { background: #fef3c7; color: #92400e; }
    .badge.running { background: #dbeafe; color: #1e40af; }
    .badge.pending { background: #e5e7eb; color: #374151; }
    .retry { color: #92400e; font-weight: 600; }
    .footer {
      text-align: center;
      padding: 20px;
      color: #9ca3af;
      font-size: 13px;
      margin-top: 24px;
    }
  </style>
</head>
<body>
  <div class="container">
    <div class="header">
      <h1>CI Pipeline Report</h1>
      <p>Generated at "#;

/// The page of HTML up to the number of jobs.
pub const REPORT_TOTAL: &'static str = r#"</p>
    </div>

    <div class="stats">
      <div class="stat-card total">
        <div class="number">"#;

/// The page of HTML up to the number of successes.
pub const REPORT_SUCCESS: &'static str = r#"</div>
        <div class="label">Total Jobs</div>
      </div>
      <div class="stat-card success">
        <div class="number">"#;

/// The page of HTML up to the number of failures.
pub const REPORT_FAILED: &'static str = r#"</div>
        <div class="label">Success</div>
      </div>
      <div class="stat-card failed">
        <div class="number">"#;

/// The page of HTML up to the number of jobs left out.
pub const REPORT_SKIPPED: &'static str = r#"</div>
        <div class="label">Failed</div>
      </div>
      <div class="stat-card skipped">
        <div class="number">"#;

/// The page of HTML up to the rows of the table.
pub const REPORT_TABLE: &'static str = r#"</div>
        <div class="label">Skipped</div>
      </div>
    </div>

    <div class="table-container">
      <table>
        <thead>
          <tr>
            <th>Job Name</th>
            <th>Status</th>
            <th>Duration</th>
            <th>Retries</th>
            <th>Started</th>
            <th>Finished</th>
            <th>Message</th>
          </tr>
        </thead>
        <tbody>
"#;

/// The page of HTML from the end of the table up to the time of its making.
pub const REPORT_FOOTER: &'static str = r#"        </tbody>
      </table>
    </div>

    <div class="footer">
      ci-pipeline &middot; Generated "#;

/// The page of HTML behind the time of its making.
pub const REPORT_END: &'static str = r#"
    </div>
  </div>
</body>
</html>
"#;

/// The time of day of an instant, empty if there is none.
pub open spec fn time_cell(t: Option<Timestamp>) -> Seq<char> {
    match t {
        Some(t) => clock::time_of_day(t),
        None => Seq::empty(),
    }
}

/// How often a job was tried again.
pub open spec fn retry_cell(count: u32) -> Seq<char> {
    if count > 0 {
        "<span class='retry'>🔄 "@ + numbers::decimal(count as nat) + "</span>"@
    } else {
        "-"@
    }
}

/// The table row of a result.
pub open spec fn html_row(r: ResultModel) -> Seq<char> {
    let class = models::status_name(r.status);
    "    <tr class=\""@ + class + "\">\n      <td>"@ + html_text(r.job_name)
        + "</td>\n      <td><span class=\"badge "@ + class + "\">"@ + emoji(r.status) + " "@ + class
        + "</span></td>\n      <td>"@ + duration_text(r.duration_ms) + "</td>\n      <td>"@
        + retry_cell(r.retry_count) + "</td>\n      <td>"@ + time_cell(r.started_at)
        + "</td>\n      <td>"@ + time_cell(r.finished_at) + "</td>\n      <td>"@ + html_text(
        message_of(r),
    ) + "</td>\n    </tr>\n"@
}

/// The table rows of results.
pub open spec fn html_rows(results: Seq<ResultModel>) -> Seq<char>
    decreases results.len(),
{
    if results.len() == 0 {
        Seq::empty()
    } else {
        html_rows(results.drop_last()) + html_row(results.last())
    }
}

/// The report of results as a page of HTML.
pub open spec fn html_report(results: Seq<ResultModel>, generated_at: Seq<char>) -> Seq<char> {
    REPORT_HEAD@ + generated_at + " &middot; Total runtime: "@ + duration_text(
        total_ms(results) as u64,
    ) + REPORT_TOTAL@ + numbers::decimal(results.len()) + REPORT_SUCCESS@ + numbers::decimal(
        count_status(results, JobStatus::Success),
    ) + REPORT_FAILED@ + numbers::decimal(count_status(results, JobStatus::Failed))
        + REPORT_SKIPPED@ + numbers::decimal(left_out(results)) + REPORT_TABLE@ + html_rows(results)
        + REPORT_FOOTER@ + generated_at + REPORT_END@
}

/// Whether the instants of a result can be shown as times of day.
pub open spec fn times_fit(r: ResultModel) -> bool {
    &&& r.started_at matches Some(t) ==> t.in_range()
    &&& r.finished_at matches Some(t) ==> t.in_range()
}

fn time_cell_str(t: Option<Timestamp>) -> (r: String)
    requires
        t matches Some(t) ==> t.in_range(),
    ensures
        r@ == time_cell(t),
{
    match t {
        Some(t) => time_of_day_str(t),
        None => {
            let s = String::new();
            assert(s@ =~= Seq::<char>::empty());
            s
        },
    }
}

fn retry_cell_str(count: u32) -> (r: String)
    ensures
        r@ == retry_cell(count),
{
    if count > 0 {
        let mut s = "<span class='retry'>🔄 ".to_owned();
        push_decimal(&mut s, count as u128);
        append_str(&mut s, "</span>");
        s
    } else {
        "-".to_owned()
    }
}

fn html_row_str(r: &JobResult) -> (s: String)
    requires
        times_fit(r.deep_view()),
    ensures
        s@ == html_row(r.deep_view()),
{
    let class = r.status.name();
    let mut s = "    <tr class=\"".to_owned();
    append_str(&mut s, class);
    append_str(&mut s, "\">\n      <td>");
    append_str(&mut s, html_escape(r.job_name.as_str()).as_str());
    append_str(&mut s, "</td>\n      <td><span class=\"badge ");
    append_str(&mut s, class);
    append_str(&mut s, "\">");
    append_str(&mut s, format_status_emoji(&r.status).as_str());
    append_str(&mut s, " ");
    append_str(&mut s, class);
    append_str(&mut s, "</span></td>\n      <td>");
    append_str(&mut s, format_duration(r.duration_ms).as_str());
    append_str(&mut s, "</td>\n      <td>");
    append_str(&mut s, retry_cell_str(r.retry_count).as_str());
    append_str(&mut s, "</td>\n      <td>");
    append_str(&mut s, time_cell_str(r.started_at).as_str());
    append_str(&mut s, "</td>\n      <td>");
    append_str(&mut s, time_cell_str(r.finished_at).as_str());
    append_str(&mut s, "</td>\n      <td>");
    append_str(&mut s, html_escape(message_str(r).as_str()).as_str());
    append_str(&mut s, "</td>\n    </tr>\n");
    s
}

/// The report of results as a page of HTML, made at the given time.
pub fn generate_html_report(results: &[JobResult], generated_at: &str) -> (r: String)
    requires
        total_ms(results.deep_view()) <= u64::MAX,
        forall|i: int| 0 <= i < results@.len() ==> times_fit(#[trigger] results.deep_view()[i]),
    ensures
        r@ == html_report(results.deep_view(), generated_at@),
{
    let ghost all = results.deep_view();
    let mut rows = String::new();
    let mut i: usize = 0;
    assert(all.take(0) =~= Seq::<ResultModel>::empty());
    assert(rows@ =~= html_rows(all.take(0)));
    while i < results.len()
        invariant
            all == results.deep_view(),
            forall|i: int| 0 <= i < results@.len() ==> times_fit(#[trigger] all[i]),
            i <= results@.len(),
            rows@ == html_rows(all.take(i as int)),
        decreases results@.len() - i,
    {
        assert(all[i as int] == results@[i as int].deep_view());
        assert(all.take(i + 1).drop_last() =~= all.take(i as int));
        append_str(&mut rows, html_row_str(&results[i]).as_str());
        i = i + 1;
    }
    assert(all.take(all.len() as int) =~= all);
    let mut s = REPORT_HEAD.to_owned();
    append_str(&mut s, generated_at);
    append_str(&mut s, " &middot; Total runtime: ");
    append_str(&mut s, format_duration(total_duration(results)).as_str());
    append_str(&mut s, REPORT_TOTAL);
    push_decimal(&mut s, results.len() as u128);
    append_str(&mut s, REPORT_SUCCESS);
    push_decimal(&mut s, count_with_status(results, JobStatus::Success) as u128);
    append_str(&mut s, REPORT_FAILED);
    push_decimal(&mut s, count_with_status(results, JobStatus::Failed) as u128);
    append_str(&mut s, REPORT_SKIPPED);
    push_decimal(
        &mut s,
        count_with_status(results, JobStatus::Skipped) as u128 + count_with_status(
            results,
            JobStatus::Cancelled,
        ) as u128,
    );
    append_str(&mut s, REPORT_TABLE);
    append_str(&mut s, rows.as_str());
    append_str(&mut s, REPORT_FOOTER);
    append_str(&mut s, generated_at);
    append_str(&mut s, REPORT_END);
    s
}

// ---------------------------------------------------------------------------
// The graph as text

/// The number of bytes of a text in UTF-8.
pub open spec fn byte_len(s: Seq<char>) -> nat
    decreases s.len(),
{
    if s.len() == 0 {
        0
    } else {
        byte_len(s.drop_last()) + conditions::utf8_width(s.last())
    }
}

/// The greatest number of bytes of the texts.
pub open spec fn longest(names: Seq<Seq<char>>) -> nat
    decreases names.len(),
{
    if names.len() == 0 {
        0
    } else if byte_len(names.last()) > longest(names.drop_last()) {
        byte_len(names.last())
    } else {
        longest(names.drop_last())
    }
}

/// The line on the `i`th job, whose name is padded to `width`.
pub open spec fn ascii_line(model: DagModel, i: int, name: Seq<char>, width: nat) -> Seq<char> {
    let deps = model.deps(name);
    "  "@ + numbers::pad_right(numbers::decimal((i + 1) as nat), 3) + " "@ + (if deps.len() == 0 {
        "◯"@
    } else {
        "◉"@
    }) + " "@ + numbers::pad_right(name, width) + " ← depends on: "@ + (if deps.len() == 0 {
        "─"@
    } else {
        text::join(deps, ", "@)
    })
}

/// The lines that show the graph, the jobs in the given order.
pub open spec fn ascii_dag(model: DagModel, order: Seq<Seq<char>>) -> Seq<Seq<char>> {
    let width = longest(order) + 2;
    seq![Seq::empty(), "DAG (Topological Order):"@, numbers::repeat('─', width + 20)] + Seq::new(
        order.len(),
        |i: int| ascii_line(model, i, order[i], width),
    ) + seq![
        numbers::repeat('─', width + 20),
        "  ◯ = root (no deps), ◉ = has dependencies"@,
        Seq::empty(),
    ]
}

proof fn lemma_byte_len_grows(s: Seq<char>, n: int)
    requires
        0 <= n <= s.len(),
    ensures
        byte_len(s.take(n)) <= byte_len(s),
    decreases s.len(),
{
    if n == s.len() {
        assert(s.take(n) =~= s);
    } else {
        lemma_byte_len_grows(s.drop_last(), n);
        assert(s.drop_last().take(n) =~= s.take(n));
    }
}

/// The number of bytes of a text in UTF-8.
pub fn byte_len_of(s: &str) -> (r: usize)
    requires
        byte_len(s@) <= usize::MAX,
    ensures
        r == byte_len(s@),
{
    let v = to_chars(s);
    let mut n: usize = 0;
    let mut i: usize = 0;
    assert(s@.take(0) =~= Seq::<char>::empty());
    while i < v.len()
        invariant
            v@ == s@,
            byte_len(s@) <= usize::MAX,
            i <= v@.len(),
            n == byte_len(s@.take(i as int)),
        decreases v@.len() - i,
    {
        assert(s@.take(i + 1).drop_last() =~= s@.take(i as int));
        proof {
            lemma_byte_len_grows(s@, i + 1);
        }
        n = n + char_width(v[i]);
        i = i + 1;
    }
    assert(s@.take(s@.len() as int) =~= s@);
    n
}

proof fn lemma_longest(names: Seq<Seq<char>>, bound: nat)
    requires
        forall|i: int| 0 <= i < names.len() ==> byte_len(#[trigger] names[i]) <= bound,
    ensures
        longest(names) <= bound,
    decreases names.len(),
{
    if names.len() > 0 {
        let d = names.drop_last();
        assert forall|i: int| 0 <= i < d.len() implies byte_len(#[trigger] d[i]) <= bound by {
            assert(names[i] == d[i]);
        }
        lemma_longest(d, bound);
        assert(byte_len(names[names.len() - 1]) <= bound);
    }
}

fn longest_of(names: &Vec<String>) -> (r: usize)
    requires
        forall|i: int| 0 <= i < names@.len() ==> byte_len(#[trigger] names.deep_view()[i]) <= usize::MAX,
    ensures
        r == longest(names.deep_view()),
{
    let ghost all = names.deep_view();
    let mut best: usize = 0;
    let mut i: usize = 0;
    assert(all.take(0) =~= Seq::<Seq<char>>::empty());
    while i < names.len()
        invariant
            all == names.deep_view(),
            forall|i: int| 0 <= i < all.len() ==> byte_len(#[trigger] all[i]) <= usize::MAX,
            i <= names@.len(),
            best == longest(all.take(i as int)),
        decreases names@.len() - i,
    {
        assert(all[i as int] == names@[i as int]@);
        assert(all.take(i + 1).drop_last() =~= all.take(i as int));
        let n: usize = byte_len_of(names[i].as_str());
        if n > best {
            best = n;
        }
        i = i + 1;
    }
    assert(all.take(all.len() as int) =~= all);
    best
}

fn ascii_line_str(dag: &Dag, i: usize, name: &str, width: usize) -> (r: String)
    ensures
        r@ == ascii_line(dag.model(), i as int, name@, width as nat),
{
    let deps = dag.dependencies_of(name);
    let mut s = "  ".to_owned();
    append_str(&mut s, pad_right_str(decimal_str(i as u128 + 1).as_str(), 3).as_str());
    append_str(&mut s, " ");
    if deps.len() == 0 {
        append_str(&mut s, "◯");
    } else {
        append_str(&mut s, "◉");
    }
    append_str(&mut s, " ");
    append_str(&mut s, pad_right_str(name, width).as_str());
    append_str(&mut s, " ← depends on: ");
    if deps.len() == 0 {
        append_str(&mut s, "─");
    } else {
        append_str(&mut s, join_strs(&deps, ", ").as_str());
    }
    s
}

/// The lines that show the graph: its jobs in the order in which they can run,
/// or none if some depend on each other in a circle.
pub fn ascii_dag_lines(dag: &Dag) -> (r: Vec<String>)
    requires
        forall|i: int|
            0 <= i < dag.model().names.len() ==> byte_len(#[trigger] dag.model().names[i])
                <= usize::MAX - 22,
    ensures
        r.deep_view() == ascii_dag(
            dag.model(),
            if dag.model().cyclic() {
                Seq::empty()
            } else {
                dag.model().order()
            },
        ),
{
    let ghost model = dag.model();
    let order = match dag.topological_order() {
        Ok(order) => order,
        Err(_) => Vec::new(),
    };
    let ghost names = order.deep_view();
    proof {
        assert(model.cyclic() ==> names =~= Seq::<Seq<char>>::empty());
        assert forall|i: int| 0 <= i < names.len() implies byte_len(#[trigger] names[i]) <= usize::MAX
            - 22 by {
            assert(names[i] == model.names[model.node_order()[i]]);
        }
        lemma_longest(names, (usize::MAX - 22) as nat);
    }
    let width: usize = longest_of(&order) + 2;
    let mut lines: Vec<String> = Vec::new();
    lines.push(String::new());
    lines.push("DAG (Topological Order):".to_owned());
    lines.push(repeat_str('─', width + 20));
    assert(lines@[0]@ =~= Seq::<char>::empty());
    let ghost head = lines.deep_view();
    let ghost rows = Seq::new(names.len(), |i: int| ascii_line(model, i, names[i], width as nat));
    assert(head =~= seq![
        Seq::<char>::empty(),
        "DAG (Topological Order):"@,
        numbers::repeat('─', width as nat + 20),
    ]);
    let mut i: usize = 0;
    assert(head + rows.take(0) =~= head);
    while i < order.len()
        invariant
            model == dag.model(),
            names == order.deep_view(),
            rows == Seq::new(names.len(), |i: int| ascii_line(model, i, names[i], width as nat)),
            i <= order@.len(),
            lines.deep_view() == head + rows.take(i as int),
        decreases order@.len() - i,
    {
        let ghost now = lines.deep_view();
        assert(names[i as int] == order@[i as int]@);
        let line = ascii_line_str(dag, i, order[i].as_str(), width);
        lines.push(line);
        assert(lines.deep_view() =~= now.push(line@));
        assert(lines.deep_view() =~= head + rows.take(i + 1));
        i = i + 1;
    }
    assert(rows.take(rows.len() as int) =~= rows);
    let ghost before = lines.deep_view();
    lines.push(repeat_str('─', width + 20));
    lines.push("  ◯ = root (no deps), ◉ = has dependencies".to_owned());
    lines.push(String::new());
    assert(lines@[lines@.len() - 1]@ =~= Seq::<char>::empty());
    assert(lines.deep_view() =~= before + seq![
        numbers::repeat('─', width as nat + 20),
        "  ◯ = root (no deps), ◉ = has dependencies"@,
        Seq::<char>::empty(),
    ]);
    lines
}

// ---------------------------------------------------------------------------
// Laws of counts and times

/// The results with a status are counted, one by one.
pub proof fn lemma_count_status(results: Seq<ResultModel>, status: JobStatus)
    ensures
        count_status(results, status) == results.filter(|r: ResultModel| r.status == status).len(),
    decreases results.len(),
{
    reveal(Seq::filter);
    if results.len() > 0 {
        lemma_count_status(results.drop_last(), status);
    }
}

/// Every result counts once, under its status.
pub proof fn lemma_counts_add_up(results: Seq<ResultModel>)
    ensures
        count_status(results, JobStatus::Success) + count_status(results, JobStatus::Failed)
            + count_status(results, JobStatus::Skipped) + count_status(results, JobStatus::Cancelled)
            + count_status(results, JobStatus::Pending) + count_status(results, JobStatus::Running)
            == results.len(),
        left_out(results) == results.len() - count_status(results, JobStatus::Success) - count_status(
            results,
            JobStatus::Failed,
        ) - count_status(results, JobStatus::Pending) - count_status(results, JobStatus::Running),
    decreases results.len(),
{
    if results.len() > 0 {
        lemma_counts_add_up(results.drop_last());
    }
}

/// The time of results one behind the other is that of both together.
pub proof fn lemma_total_adds(a: Seq<ResultModel>, b: Seq<ResultModel>, r: ResultModel)
    ensures
        total_ms(a + b) == total_ms(a) + total_ms(b),
        total_ms(seq![r]) == r.duration_ms,
    decreases b.len(),
{
    assert(seq![r].drop_last() =~= Seq::<ResultModel>::empty());
    assert(total_ms(Seq::<ResultModel>::empty()) == 0);
    if b.len() == 0 {
        assert(a + b =~= a);
    } else {
        lemma_total_adds(a, b.drop_last(), r);
        assert((a + b).drop_last() =~= a + b.drop_last());
        assert((a + b).last() == b.last());
    }
}

/// A duration is shown in milliseconds below a second, and from a minute on in
/// whole minutes and seconds.
pub proof fn lemma_duration_text(ms: u64, minutes: u64, seconds: u64, rest: u64)
    requires
        seconds < 60,
        rest < 1000,
        ms == minutes * 60_000 + seconds * 1000 + rest,
    ensures
        minutes == 0 && seconds == 0 ==> duration_text(ms) == numbers::decimal(rest as nat) + "ms"@,
        minutes > 0 ==> duration_text(ms) == numbers::decimal(minutes as nat) + "m"@
            + numbers::decimal(seconds as nat) + "s"@,
        minutes == 0 && seconds > 0 ==> duration_text(ms).len() > 0 && duration_text(ms).last() == 's'
            && duration_text(ms).contains('.'),
{
    reveal_strlit("s");
    if minutes == 0 && seconds > 0 {
        let n = rounding::seconds(ms, 100);
        let t = duration_text(ms);
        reveal_strlit(".");
        let k = numbers::decimal(n / numbers::ten_pow(2)).len() as int;
        assert(t[k] == '.');
    }
    if minutes > 0 {
        assert(ms / 60_000 == minutes);
        assert((ms % 60_000) / 1000 == seconds);
    }
}

/// Text that fits is shown whole; longer text is cut to the width that there
/// is, with dots at the end.
pub proof fn lemma_shortened(s: Seq<char>, max: int)
    requires
        max >= 3,
    ensures
        s.len() <= max ==> shortened(s, max) == s,
        s.len() > max ==> shortened(s, max).len() == max && shortened(s, max).take(max - 3) == s.take(
            max - 3,
        ) && shortened(s, max).skip(max - 3) == "..."@,
{
    reveal_strlit("...");
    if s.len() > max {
        assert(shortened(s, max).take(max - 3) =~= s.take(max - 3));
        assert(shortened(s, max).skip(max - 3) =~= "..."@);
    }
}

/// Nothing done covers nothing, everything done covers the whole, and more done
/// never covers less.
pub proof fn lemma_covered(done: nat, more: nat, total: nat, scale: nat)
    requires
        total > 0,
        done <= more,
    ensures
        covered(0, total, scale) == 0,
        covered(total, total, scale) == scale,
        covered(done, total, scale) <= covered(more, total, scale),
        covered(done, total, scale) * total <= done * scale,
        done * scale < (covered(done, total, scale) + 1) * total,
        covered(done, 0, scale) == 0,
{
    assert(0 * scale == 0) by (nonlinear_arith);
    assert((total * scale) / total == scale) by (nonlinear_arith)
        requires
            total > 0,
    ;
    let a = done * scale;
    let b = more * scale;
    assert(a <= b) by (nonlinear_arith)
        requires
            done <= more,
            a == done * scale,
            b == more * scale,
    ;
    assert(a / total <= b / total) by (nonlinear_arith)
        requires
            a <= b,
            total > 0,
    ;
    assert((a / total) * total <= a < (a / total + 1) * total) by (nonlinear_arith)
        requires
            total > 0,
    ;
}

/// The bar is filled from the left, as far as is covered.
pub proof fn lemma_bar_is_filled(done: nat, total: nat, i: int)
    requires
        done <= total,
        0 <= i < 30,
    ensures
        progress_bar(done, total).len() == 30,
        progress_bar(done, total)[i] == (if total > 0 && i < (done * 30) / total {
            '█'
        } else {
            '░'
        }),
{
    lemma_progress_is_bounded(done, total);
}

// ---------------------------------------------------------------------------
// Laws of escaping

/// Escaping goes character by character: each character with a meaning in HTML
/// is written as its entity, every other as itself.
pub proof fn lemma_html_by_char(a: Seq<char>, b: Seq<char>, c: char)
    ensures
        html_text(a + b) == html_text(a) + html_text(b),
        html_text(seq!['&']) == "&amp;"@,
        html_text(seq!['<']) == "&lt;"@,
        html_text(seq!['>']) == "&gt;"@,
        html_text(seq!['"']) == "&quot;"@,
        c != '&' && c != '<' && c != '>' && c != '"' ==> html_text(seq![c]) == seq![c],
        html_text(Seq::empty()) == Seq::<char>::empty(),
{
    reveal_strlit("&amp;");
    reveal_strlit("&lt;");
    reveal_strlit("&gt;");
    reveal_strlit("&quot;");
    let none = Seq::<char>::empty();
    let x1 = text::replace(a, '&', "&amp;"@);
    let y1 = text::replace(b, '&', "&amp;"@);
    let x2 = text::replace(x1, '<', "&lt;"@);
    let y2 = text::replace(y1, '<', "&lt;"@);
    let x3 = text::replace(x2, '>', "&gt;"@);
    let y3 = text::replace(y2, '>', "&gt;"@);
    text::lemma_replace_parts(a, b, c, '&', "&amp;"@);
    text::lemma_replace_parts(x1, y1, c, '<', "&lt;"@);
    text::lemma_replace_parts(x2, y2, c, '>', "&gt;"@);
    text::lemma_replace_parts(x3, y3, c, '"', "&quot;"@);
    // The entities themselves are not touched again.
    lemma_replace_absent("&amp;"@, '<', "&lt;"@);
    lemma_replace_absent("&amp;"@, '>', "&gt;"@);
    lemma_replace_absent("&amp;"@, '"', "&quot;"@);
    lemma_replace_absent("&lt;"@, '>', "&gt;"@);
    lemma_replace_absent("&lt;"@, '"', "&quot;"@);
    lemma_replace_absent("&gt;"@, '"', "&quot;"@);
    lemma_replace_absent(seq!['<'], '&', "&amp;"@);
    lemma_replace_absent(seq!['>'], '&', "&amp;"@);
    lemma_replace_absent(seq!['>'], '<', "&lt;"@);
    lemma_replace_absent(seq!['"'], '&', "&amp;"@);
    lemma_replace_absent(seq!['"'], '<', "&lt;"@);
    lemma_replace_absent(seq!['"'], '>', "&gt;"@);
    text::lemma_replace_parts(none, none, c, '&', "&amp;"@);
    text::lemma_replace_parts(none, none, c, '<', "&lt;"@);
    text::lemma_replace_parts(none, none, c, '>', "&gt;"@);
    text::lemma_replace_parts(none, none, c, '"', "&quot;"@);
}

proof fn lemma_replace_absent(s: Seq<char>, c: char, with: Seq<char>)
    requires
        forall|i: int| 0 <= i < s.len() ==> #[trigger] s[i] != c,
    ensures
        text::replace(s, c, with) == s,
    decreases s.len(),
{
    if s.len() > 0 {
        assert(s[s.len() - 1] != c);
        lemma_replace_absent(s.drop_last(), c, with);
        assert(s.drop_last().push(s.last()) =~= s);
    } else {
        assert(s =~= Seq::<char>::empty());
    }
}

/// In XML an apostrophe is escaped too; everything else is written as in HTML.
pub proof fn lemma_xml_by_char(a: Seq<char>, b: Seq<char>, c: char)
    ensures
        xml_text(a + b) == xml_text(a) + xml_text(b),
        xml_text(seq!['\'']) == "&apos;"@,
        xml_text(seq!['&']) == "&amp;"@,
        xml_text(seq!['<']) == "&lt;"@,
        xml_text(seq!['>']) == "&gt;"@,
        xml_text(seq!['"']) == "&quot;"@,
        c != '&' && c != '<' && c != '>' && c != '"' && c != '\'' ==> xml_text(seq![c]) == seq![c],
{
    reveal_strlit("&amp;");
    reveal_strlit("&lt;");
    reveal_strlit("&gt;");
    reveal_strlit("&quot;");
    lemma_html_by_char(a, b, c);
    lemma_html_by_char(a, b, '\'');
    text::lemma_replace_parts(html_text(a), html_text(b), c, '\'', "&apos;"@);
    lemma_replace_absent("&amp;"@, '\'', "&apos;"@);
    lemma_replace_absent("&lt;"@, '\'', "&apos;"@);
    lemma_replace_absent("&gt;"@, '\'', "&apos;"@);
    lemma_replace_absent("&quot;"@, '\'', "&apos;"@);
}

// ---------------------------------------------------------------------------
// Laws of reports

/// The summary has a row for each result, in their order, below the heading,
/// and the totals below the rows; the remote cache and the slow jobs come
/// behind, if there is anything to say of them.
pub proof fn lemma_summary_rows(
    results: Seq<ResultModel>,
    slow: Seq<SlowModel>,
    stats: RemoteCacheStats,
    cache_enabled: bool,
    parts: PartsModel,
    i: int,
)
    requires
        0 <= i < results.len(),
    ensures
        ({
            let lines = summary(results, slow, stats, cache_enabled, parts);
            let row = lines[6 + i];
            &&& row.text == table_row(
                numbers::decimal((i + 1) as nat),
                shortened(results[i].job_name, 38),
                parts.statuses[i],
                duration_text(results[i].duration_ms),
                numbers::decimal(results[i].retry_count as nat),
                shortened(message_of(results[i]), 40),
            )
            &&& row.style == LineStyle::BoldYellow <==> exists|k: int|
                0 <= k < slow.len() && (#[trigger] slow[k]).job_name == results[i].job_name
            &&& lines.len() == 10 + results.len() + (if cache_enabled {
                5int
            } else {
                0
            }) + (if slow.len() > 0 {
                4 + slow.len()
            } else {
                0
            })
            &&& lines[8 + results.len() as int].text == "Total duration: "@ + duration_text(
                total_ms(results) as u64,
            )
        }),
{
}

/// What becomes of a test case: it fails, is skipped or passes as its job did.
pub proof fn lemma_case_end(r: ResultModel)
    ensures
        r.status == JobStatus::Success ==> case_end(r) == "/>\n"@,
        r.status == JobStatus::Failed ==> exists|p: int| #[trigger]
            text::occurs_at(case_end(r), "      <failure message=\""@ + xml_text(message_of(r)), p),
        r.status == JobStatus::Skipped ==> exists|p: int| #[trigger]
            text::occurs_at(case_end(r), "      <skipped message=\"Job skipped\"/>\n"@, p),
        r.status == JobStatus::Cancelled ==> exists|p: int| #[trigger]
            text::occurs_at(case_end(r), "      <skipped message=\"Job cancelled\"/>\n"@, p),
{
    let head = ">\n"@;
    let m = xml_text(message_of(r));
    let a = "      <failure message=\""@ + m;
    if r.status == JobStatus::Failed {
        let rest = "\">"@ + m + "</failure>"@ + "\n    </testcase>\n"@;
        assert(case_end(r) =~= head + a + rest);
        lemma_found_between(head, a, rest);
    }
    if r.status == JobStatus::Skipped {
        assert(case_end(r) =~= head + "      <skipped message=\"Job skipped\"/>\n"@
            + "    </testcase>\n"@);
        lemma_found_between(head, "      <skipped message=\"Job skipped\"/>\n"@, "    </testcase>\n"@);
    }
    if r.status == JobStatus::Cancelled {
        assert(case_end(r) =~= head + "      <skipped message=\"Job cancelled\"/>\n"@
            + "    </testcase>\n"@);
        lemma_found_between(
            head,
            "      <skipped message=\"Job cancelled\"/>\n"@,
            "    </testcase>\n"@,
        );
    }
}

proof fn lemma_found_between(a: Seq<char>, x: Seq<char>, b: Seq<char>)
    ensures
        exists|p: int| #[trigger] text::occurs_at(a + x + b, x, p),
{
    let p = a.len() as int;
    assert((a + x + b).subrange(p, p + x.len()) =~= x);
    assert(text::occurs_at(a + x + b, x, p));
}

proof fn lemma_cases_hold(results: Seq<ResultModel>, i: int) -> (r: (Seq<char>, Seq<char>))
    requires
        0 <= i < results.len(),
    ensures
        test_cases(results) == r.0 + test_case(results[i]) + r.1,
    decreases results.len(),
{
    let d = test_cases(results.drop_last());
    if i == results.len() - 1 {
        assert(test_cases(results) =~= d + test_case(results[i]) + Seq::<char>::empty());
        (d, Seq::empty())
    } else {
        let (a, b) = lemma_cases_hold(results.drop_last(), i);
        let more = test_case(results.last());
        assert(test_cases(results) =~= a + test_case(results[i]) + (b + more));
        (a, b + more)
    }
}

proof fn lemma_rows_hold(results: Seq<ResultModel>, i: int) -> (r: (Seq<char>, Seq<char>))
    requires
        0 <= i < results.len(),
    ensures
        html_rows(results) == r.0 + html_row(results[i]) + r.1,
    decreases results.len(),
{
    let d = html_rows(results.drop_last());
    if i == results.len() - 1 {
        assert(html_rows(results) =~= d + html_row(results[i]) + Seq::<char>::empty());
        (d, Seq::empty())
    } else {
        let (a, b) = lemma_rows_hold(results.drop_last(), i);
        let more = html_row(results.last());
        assert(html_rows(results) =~= a + html_row(results[i]) + (b + more));
        (a, b + more)
    }
}

/// Every result has its test case in the JUnit report, which tells how many
/// there are, how many failed and how many were skipped or cancelled.
pub proof fn lemma_junit_holds_all(results: Seq<ResultModel>, i: int, failed: nat, others: nat)
    requires
        0 <= i < results.len(),
        failed == results.filter(|r: ResultModel| r.status == JobStatus::Failed).len(),
        others == results.filter(|r: ResultModel| r.status == JobStatus::Skipped).len()
            + results.filter(|r: ResultModel| r.status == JobStatus::Cancelled).len(),
    ensures
        exists|p: int| #[trigger] text::occurs_at(junit(results), test_case(results[i]), p),
        exists|p: int| #[trigger]
            text::occurs_at(
                junit(results),
                " tests=\""@ + numbers::decimal(results.len()) + "\" failures=\""@ + numbers::decimal(
                    failed,
                ) + "\" errors=\"0\" skipped=\""@ + numbers::decimal(others),
                p,
            ),
{
    lemma_count_status(results, JobStatus::Failed);
    lemma_count_status(results, JobStatus::Skipped);
    lemma_count_status(results, JobStatus::Cancelled);
    let head = "<?xml version=\"1.0\" encoding=\"UTF-8\"?>\n<testsuites>\n"@;
    let name = "  <testsuite name=\"ci-pipeline\""@;
    let tests = "  <testsuite name=\"ci-pipeline\" tests=\""@;
    let counts = " tests=\""@ + numbers::decimal(results.len()) + "\" failures=\""@ + numbers::decimal(
        count_status(results, JobStatus::Failed),
    ) + "\" errors=\"0\" skipped=\""@ + numbers::decimal(left_out(results));
    let time = "\" time=\""@ + numbers::fixed(rounding::sum_thousandths(durations(results)), 3)
        + "\">\n"@;
    let end = "  </testsuite>\n</testsuites>\n"@;
    let cases = test_cases(results);
    reveal_strlit("  <testsuite name=\"ci-pipeline\" tests=\"");
    reveal_strlit("  <testsuite name=\"ci-pipeline\"");
    reveal_strlit(" tests=\"");
    assert(tests =~= name + " tests=\""@);
    assert(junit(results) =~= (head + name) + counts + (time + cases + end));
    lemma_found_between(head + name, counts, time + cases + end);
    let (a, b) = lemma_cases_hold(results, i);
    assert(junit(results) =~= (head + name + counts + time + a) + test_case(results[i]) + (b + end));
    lemma_found_between(head + name + counts + time + a, test_case(results[i]), b + end);
}

/// Every result has its row in the HTML report.
pub proof fn lemma_html_holds_all(results: Seq<ResultModel>, generated_at: Seq<char>, i: int)
    requires
        0 <= i < results.len(),
    ensures
        exists|p: int| #[trigger]
            text::occurs_at(html_report(results, generated_at), html_row(results[i]), p),
{
    let (a, b) = lemma_rows_hold(results, i);
    let head = REPORT_HEAD@ + generated_at + " &middot; Total runtime: "@ + duration_text(
        total_ms(results) as u64,
    ) + REPORT_TOTAL@ + numbers::decimal(results.len()) + REPORT_SUCCESS@ + numbers::decimal(
        count_status(results, JobStatus::Success),
    ) + REPORT_FAILED@ + numbers::decimal(count_status(results, JobStatus::Failed))
        + REPORT_SKIPPED@ + numbers::decimal(left_out(results)) + REPORT_TABLE@;
    let rest = REPORT_FOOTER@ + generated_at + REPORT_END@;
    assert(html_report(results, generated_at) =~= (head + a) + html_row(results[i]) + (b + rest));
    lemma_found_between(head + a, html_row(results[i]), b + rest);
}

/// A row of the HTML report shows the name of the job and its message, escaped.
pub proof fn lemma_html_row_shows(r: ResultModel, said: Seq<char>)
    requires
        r.message == Some(said) || (r.message is None && said == Seq::<char>::empty()),
    ensures
        exists|p: int| #[trigger]
            text::occurs_at(
                html_row(r),
                "\">\n      <td>"@ + html_text(r.job_name) + "</td>\n      <td><span class=\"badge "@,
                p,
            ),
        exists|p: int| #[trigger]
            text::occurs_at(
                html_row(r),
                "</td>\n      <td>"@ + html_text(said) + "</td>\n    </tr>\n"@,
                p,
            ),
{
    let class = models::status_name(r.status);
    let front = "    <tr class=\""@ + class;
    let name = html_text(r.job_name);
    let message = html_text(said);
    let x = "\">\n      <td>"@ + name + "</td>\n      <td><span class=\"badge "@;
    let cell = "</td>\n      <td>"@;
    let s0 = front + "\">\n      <td>"@ + name + "</td>\n      <td><span class=\"badge "@;
    lemma_three_behind(front, "\">\n      <td>"@, name, "</td>\n      <td><span class=\"badge "@);
    let s1 = s0 + class;
    let s2 = s1 + "\">"@;
    let s3 = s2 + emoji(r.status);
    let s4 = s3 + " "@;
    let s5 = s4 + class;
    let s6 = s5 + "</span></td>\n      <td>"@;
    let s7 = s6 + duration_text(r.duration_ms);
    let s8 = s7 + cell;
    let s9 = s8 + retry_cell(r.retry_count);
    let s10 = s9 + cell;
    let s11 = s10 + time_cell(r.started_at);
    let s12 = s11 + cell;
    let s13 = s12 + time_cell(r.finished_at);
    let s14 = s13 + cell;
    let s15 = s14 + message;
    let s16 = s15 + "</td>\n    </tr>\n"@;
    let p = front.len() as int;
    lemma_occurs_still(s0, class, x, p);
    lemma_occurs_still(s1, "\">"@, x, p);
    lemma_occurs_still(s2, emoji(r.status), x, p);
    lemma_occurs_still(s3, " "@, x, p);
    lemma_occurs_still(s4, class, x, p);
    lemma_occurs_still(s5, "</span></td>\n      <td>"@, x, p);
    lemma_occurs_still(s6, duration_text(r.duration_ms), x, p);
    lemma_occurs_still(s7, cell, x, p);
    lemma_occurs_still(s8, retry_cell(r.retry_count), x, p);
    lemma_occurs_still(s9, cell, x, p);
    lemma_occurs_still(s10, time_cell(r.started_at), x, p);
    lemma_occurs_still(s11, cell, x, p);
    lemma_occurs_still(s12, time_cell(r.finished_at), x, p);
    lemma_occurs_still(s13, cell, x, p);
    lemma_occurs_still(s14, message, x, p);
    lemma_occurs_still(s15, "</td>\n    </tr>\n"@, x, p);
    lemma_three_behind(s13, cell, message, "</td>\n    </tr>\n"@);
    assert(message_of(r) == said);
    assert(html_row(r) == s16);
}

proof fn lemma_three_behind(q: Seq<char>, a: Seq<char>, b: Seq<char>, c: Seq<char>)
    ensures
        text::occurs_at(q + a + b + c, a + b + c, q.len() as int),
{
    let s = q + a + b + c;
    let n = q.len() as int;
    assert(s.subrange(n, n + (a + b + c).len()) =~= a + b + c);
}

proof fn lemma_occurs_still(s: Seq<char>, t: Seq<char>, x: Seq<char>, p: int)
    requires
        text::occurs_at(s, x, p),
    ensures
        text::occurs_at(s + t, x, p),
{
    assert((s + t).subrange(p, p + x.len()) =~= s.subrange(p, p + x.len()));
}

/// The longest name is one of the names, and no name is longer.
pub proof fn lemma_longest_is_a_name(names: Seq<Seq<char>>, i: int)
    requires
        0 <= i < names.len(),
    ensures
        byte_len(names[i]) <= longest(names),
        exists|k: int| 0 <= k < names.len() && byte_len(#[trigger] names[k]) == longest(names),
    decreases names.len(),
{
    reveal_with_fuel(longest, 2);
    let d = names.drop_last();
    if d.len() > 0 {
        if i < d.len() {
            lemma_longest_is_a_name(d, i);
        } else {
            lemma_longest_is_a_name(d, 0);
        }
        let k = choose|k: int| 0 <= k < d.len() && byte_len(#[trigger] d[k]) == longest(d);
        assert(names[k] == d[k]);
    }
    assert(names[names.len() - 1] == names.last());
}

/// The listing of a graph has a line for each job, in the order given, which
/// names what the job depends on.
pub proof fn lemma_listing_lines(model: DagModel, order: Seq<Seq<char>>, i: int)
    requires
        0 <= i < order.len(),
    ensures
        ascii_dag(model, order).len() == order.len() + 6,
        model.deps(order[i]).len() == 0 ==> exists|p: int| #[trigger]
            text::occurs_at(ascii_dag(model, order)[3 + i], " ← depends on: "@ + "─"@, p),
        model.deps(order[i]).len() > 0 ==> exists|p: int| #[trigger]
            text::occurs_at(
                ascii_dag(model, order)[3 + i],
                " ← depends on: "@ + text::join(model.deps(order[i]), ", "@),
                p,
            ),
{
    let width = longest(order) + 2;
    let deps = model.deps(order[i]);
    let line = ascii_dag(model, order)[3 + i];
    let front = "  "@ + numbers::pad_right(numbers::decimal((i + 1) as nat), 3) + " "@ + (
    if deps.len() == 0 {
        "◯"@
    } else {
        "◉"@
    }) + " "@ + numbers::pad_right(order[i], width);
    let tail = " ← depends on: "@ + (if deps.len() == 0 {
        "─"@
    } else {
        text::join(deps, ", "@)
    });
    assert(line =~= front + tail + Seq::<char>::empty());
    lemma_found_between(front, tail, Seq::empty());
}

/// The sum of the results' times in the JUnit report is exact, and so is the
/// time of each test case.
pub proof fn lemma_junit_times(results: Seq<ResultModel>, i: int)
    requires
        0 <= i < results.len(),
        results.len() * total_ms(results) < 0x2_0000_0000_0000,
        results[i].duration_ms < 4_000_000_000_000_000,
    ensures
        exists|p: int| #[trigger]
            text::occurs_at(
                junit(results),
                "\" time=\""@ + numbers::fixed(total_ms(results), 3) + "\">\n"@,
                p,
            ),
        exists|p: int| #[trigger]
            text::occurs_at(
                test_case(results[i]),
                "    <testcase name=\""@ + xml_text(results[i].job_name) + "\" time=\""@
                    + numbers::fixed(results[i].duration_ms as nat, 3) + "\""@,
                p,
            ),
{
    lemma_durations_total(results);
    rounding::lemma_sum_is_exact(durations(results));
    rounding::lemma_seconds_are_exact(results[i].duration_ms);
    let front = "<?xml version=\"1.0\" encoding=\"UTF-8\"?>\n<testsuites>\n"@
        + "  <testsuite name=\"ci-pipeline\" tests=\""@ + numbers::decimal(results.len())
        + "\" failures=\""@ + numbers::decimal(count_status(results, JobStatus::Failed))
        + "\" errors=\"0\" skipped=\""@ + numbers::decimal(left_out(results));
    let t = numbers::fixed(total_ms(results), 3);
    lemma_three_behind(front, "\" time=\""@, t, "\">\n"@);
    let x = "\" time=\""@ + t + "\">\n"@;
    let p = front.len() as int;
    let s = front + "\" time=\""@ + t + "\">\n"@;
    lemma_occurs_still(s, test_cases(results), x, p);
    lemma_occurs_still(s + test_cases(results), "  </testsuite>\n</testsuites>\n"@, x, p);
    assert(rounding::sum_thousandths(durations(results)) == total_ms(results));
    assert(junit(results) == s + test_cases(results) + "  </testsuite>\n</testsuites>\n"@);
    assert(text::occurs_at(junit(results), x, p));
    let head = "    <testcase name=\""@ + xml_text(results[i].job_name) + "\" time=\""@
        + numbers::fixed(results[i].duration_ms as nat, 3) + "\""@;
    assert(test_case(results[i]) =~= Seq::<char>::empty() + head + case_end(results[i]));
    lemma_found_between(Seq::empty(), head, case_end(results[i]));
}

proof fn lemma_durations_total(results: Seq<ResultModel>)
    ensures
        rounding::whole_sum(durations(results)) == total_ms(results),
    decreases results.len(),
{
    reveal_with_fuel(Seq::fold_left, 2);
    if results.len() > 0 {
        lemma_durations_total(results.drop_last());
        assert(durations(results).drop_last() =~= durations(results.drop_last()));
    }
}

/// A remote cache that always had what was asked for has a hit rate of a
/// hundred percent, one that never had it or was never asked one of none.
pub proof fn lemma_hit_rates(n: u64, pushes: u64)
    requires
        0 < n < 0x20_0000_0000_0000,
    ensures
        hit_rate(RemoteCacheStats { hits: n, misses: 0, pushes }) == "100.0"@,
        hit_rate(RemoteCacheStats { hits: 0, misses: n, pushes }) == "0.0"@,
        hit_rate(RemoteCacheStats { hits: 0, misses: 0, pushes }) == "0.0"@,
{
    reveal_strlit("100.0");
    reveal_strlit("0.0");
    reveal_strlit(".");
    rounding::lemma_percent_tenths(n, n);
    assert(numbers::ten_pow(1) == 10) by {
        reveal_with_fuel(numbers::ten_pow, 2);
    }
    numbers::lemma_fixed(100, 0, 1);
    numbers::lemma_fixed(0, 0, 1);
    assert(numbers::zero_padded(0, 1) =~= seq!['0']) by {
        reveal_with_fuel(numbers::zero_padded, 2);
    }
    assert(numbers::decimal(100) =~= seq!['1', '0', '0']) by {
        reveal_with_fuel(numbers::decimal, 3);
    }
    assert(numbers::decimal(0) =~= seq!['0']);
    assert(numbers::fixed(1000, 1) =~= "100.0"@);
    assert(numbers::fixed(0, 1) =~= "0.0"@);
}

/// A job that took all the time has a share of a hundred percent.
pub proof fn lemma_slow_share(name: Seq<char>, ms: u64)
    requires
        0 < ms < 0x20_0000_0000_0000,
    ensures
        slow_share(SlowModel { job_name: name, duration_ms: ms, total_ms: ms }) == "100.0"@,
        slow_share(SlowModel { job_name: name, duration_ms: ms, total_ms: 0 }) == "0.0"@,
{
    lemma_hit_rates(ms, 0);
}

/// Different statuses have different symbols.
pub proof fn lemma_emoji_differ(a: JobStatus, b: JobStatus)
    requires
        emoji(a) == emoji(b),
    ensures
        a == b,
{
    reveal_strlit("⏳");
    reveal_strlit("🔵");
    reveal_strlit("✅");
    reveal_strlit("❌");
    reveal_strlit("⏭");
    reveal_strlit("🚫");
    assert("⏳"@[0] == '⏳' && "🔵"@[0] == '🔵' && "✅"@[0] == '✅');
    assert("❌"@[0] == '❌' && "⏭"@[0] == '⏭' && "🚫"@[0] == '🚫');
}

/// The cells of a row that fit their columns stand under each other: the number
/// at the left edge, and behind it the job, the status, the duration, the
/// retries and the message, each where its column begins.
pub proof fn lemma_table_columns(
    number: Seq<char>,
    job: Seq<char>,
    status: Seq<char>,
    duration: Seq<char>,
    retries: Seq<char>,
    message: Seq<char>,
)
    requires
        number.len() <= 4,
        job.len() <= 40,
        status.len() <= 12,
        duration.len() <= 12,
        retries.len() <= 8,
    ensures
        ({
            let row = table_row(number, job, status, duration, retries, message);
            &&& row.len() == 81 + message.len()
            &&& row.subrange(0, number.len() as int) == number
            &&& row.subrange(5, 5 + job.len() as int) == job
            &&& row.subrange(46, 46 + status.len() as int) == status
            &&& row.subrange(59, 59 + duration.len() as int) == duration
            &&& row.subrange(72, 72 + retries.len() as int) == retries
            &&& row.subrange(81, 81 + message.len() as int) == message
        }),
{
    reveal_strlit(" ");
    let row = table_row(number, job, status, duration, retries, message);
    let a = numbers::pad_right(number, 4);
    let b = numbers::pad_right(job, 40);
    let c = numbers::pad_right(status, 12);
    let d = numbers::pad_right(duration, 12);
    let e = numbers::pad_right(retries, 8);
    assert(a.len() == 4 && b.len() == 40 && c.len() == 12 && d.len() == 12 && e.len() == 8);
    let s1 = a + " "@;
    let s2 = s1 + b + " "@;
    let s3 = s2 + c + " "@;
    let s4 = s3 + d + " "@;
    let s5 = s4 + e + " "@;
    assert(row == s5 + message);
    assert(s1.len() == 5 && s2.len() == 46 && s3.len() == 59 && s4.len() == 72 && s5.len() == 81);
    assert(s1.subrange(0, number.len() as int) =~= number);
    assert(s2.subrange(5, 5 + job.len() as int) =~= job);
    assert(s3.subrange(46, 46 + status.len() as int) =~= status);
    assert(s4.subrange(59, 59 + duration.len() as int) =~= duration);
    assert(s5.subrange(72, 72 + retries.len() as int) =~= retries);
    assert(row.subrange(81, 81 + message.len() as int) =~= message);
    assert(row.subrange(0, number.len() as int) =~= s1.subrange(0, number.len() as int));
    assert(row.subrange(5, 5 + job.len() as int) =~= s2.subrange(5, 5 + job.len() as int));
    assert(row.subrange(46, 46 + status.len() as int) =~= s3.subrange(46, 46 + status.len() as int));
    assert(row.subrange(59, 59 + duration.len() as int) =~= s4.subrange(59, 59 + duration.len() as int));
    assert(row.subrange(72, 72 + retries.len() as int) =~= s5.subrange(72, 72 + retries.len() as int));
}

/// The line on progress begins with the bar and the percentage, tells how many
/// jobs are done, run and wait, and fills the width of the line.
pub proof fn lemma_progress_line(done: nat, running: nat, pending: nat, total: nat, elapsed: int)
    requires
        total > 0,
    ensures
        progress_text(done, running, pending, total, elapsed).len() >= 100,
        text::starts_with(
            progress_text(done, running, pending, total, elapsed),
            "\r["@ + progress_bar(done, total) + "] "@ + numbers::decimal((done * 100) / total) + "% | "@
                + numbers::decimal(done) + "/"@ + numbers::decimal(total) + " done | "@
                + numbers::decimal(running) + " running | "@ + numbers::decimal(pending)
                + " queued | "@,
        ),
{
    let front = "\r["@ + progress_bar(done, total) + "] "@ + numbers::decimal((done * 100) / total)
        + "% | "@ + numbers::decimal(done) + "/"@ + numbers::decimal(total) + " done | "@
        + numbers::decimal(running) + " running | "@ + numbers::decimal(pending) + " queued | "@;
    let line = front + numbers::signed_decimal(elapsed) + "s elapsed"@;
    numbers::lemma_padding(line, 100);
    let t = progress_text(done, running, pending, total, elapsed);
    assert(t == numbers::pad_right(line, 100));
    assert(t.take(front.len() as int) =~= line.take(front.len() as int)) by {
        assert(t.take(line.len() as int) == line);
        assert forall|k: int| 0 <= k < front.len() implies t[k] == line[k] by {
            assert(t.take(line.len() as int)[k] == t[k]);
        }
    }
    assert(line.take(front.len() as int) =~= front);
}

/// The HTML report tells how many jobs there were, how many succeeded, how many
/// failed and how many were skipped or cancelled.
pub proof fn lemma_html_totals(results: Seq<ResultModel>, generated_at: Seq<char>, good: nat, bad: nat, others: nat)
    requires
        good == results.filter(|r: ResultModel| r.status == JobStatus::Success).len(),
        bad == results.filter(|r: ResultModel| r.status == JobStatus::Failed).len(),
        others == results.filter(|r: ResultModel| r.status == JobStatus::Skipped).len()
            + results.filter(|r: ResultModel| r.status == JobStatus::Cancelled).len(),
    ensures
        text::starts_with(
            html_report(results, generated_at),
            REPORT_HEAD@ + generated_at + " &middot; Total runtime: "@ + duration_text(
                total_ms(results) as u64,
            ) + REPORT_TOTAL@ + numbers::decimal(results.len()) + REPORT_SUCCESS@ + numbers::decimal(
                good,
            ) + REPORT_FAILED@ + numbers::decimal(bad) + REPORT_SKIPPED@ + numbers::decimal(others),
        ),
{
    lemma_count_status(results, JobStatus::Success);
    lemma_count_status(results, JobStatus::Failed);
    lemma_count_status(results, JobStatus::Skipped);
    lemma_count_status(results, JobStatus::Cancelled);
    let front = REPORT_HEAD@ + generated_at + " &middot; Total runtime: "@ + duration_text(
        total_ms(results) as u64,
    ) + REPORT_TOTAL@ + numbers::decimal(results.len()) + REPORT_SUCCESS@ + numbers::decimal(good)
        + REPORT_FAILED@ + numbers::decimal(bad) + REPORT_SKIPPED@ + numbers::decimal(others);
    lemma_begins_still(front, REPORT_TABLE@, front);
    let s1 = front + REPORT_TABLE@;
    lemma_begins_still(s1, html_rows(results), front);
    let s2 = s1 + html_rows(results);
    lemma_begins_still(s2, REPORT_FOOTER@, front);
    let s3 = s2 + REPORT_FOOTER@;
    lemma_begins_still(s3, generated_at, front);
    let s4 = s3 + generated_at;
    lemma_begins_still(s4, REPORT_END@, front);
    assert(html_report(results, generated_at) == s4 + REPORT_END@);
}

proof fn lemma_begins_still(s: Seq<char>, t: Seq<char>, p: Seq<char>)
    requires
        text::starts_with(s, p) || s == p,
    ensures
        text::starts_with(s + t, p),
{
    assert(s.take(p.len() as int) =~= p);
    assert((s + t).take(p.len() as int) =~= s.take(p.len() as int));
}

/// The totals of the summary name the number of jobs and what became of them,
/// in this order: succeeded, failed, skipped, cancelled.
pub proof fn lemma_summary_totals(
    results: Seq<ResultModel>,
    slow: Seq<SlowModel>,
    stats: RemoteCacheStats,
    cache_enabled: bool,
    parts: PartsModel,
)
    requires
        shows_parts(results, slow, stats, parts),
    ensures
        summary(results, slow, stats, cache_enabled, parts)[7 + results.len() as int].text
            == "Total: "@ + numbers::decimal(results.len()) + " jobs, "@ + parts.success
            + " success, "@ + parts.failed + " failed, "@ + parts.skipped + " skipped, "@
            + parts.cancelled + " cancelled"@,
        color::shows(
            parts.success,
            "32"@,
            numbers::decimal(count_status(results, JobStatus::Success)),
        ),
        color::shows(parts.failed, "31"@, numbers::decimal(count_status(results, JobStatus::Failed))),
        color::shows(
            parts.skipped,
            "33"@,
            numbers::decimal(count_status(results, JobStatus::Skipped)),
        ),
        color::shows(
            parts.cancelled,
            "35"@,
            numbers::decimal(count_status(results, JobStatus::Cancelled)),
        ),
        forall|i: int|
            0 <= i < results.len() ==> (results[i].status == JobStatus::Success ==> color::shows(
                #[trigger] parts.statuses[i],
                "32"@,
                "success"@,
            )) && (results[i].status == JobStatus::Failed ==> color::shows(
                parts.statuses[i],
                "31"@,
                "failed"@,
            )),
{
}

/// A cell of the HTML report on retries is a dash where there were none.
pub proof fn lemma_cells(count: u32)
    ensures
        retry_cell(0) == "-"@,
        count > 0 ==> exists|p: int| #[trigger]
            text::occurs_at(retry_cell(count), numbers::decimal(count as nat), p),
        time_cell(None).len() == 0,
{
    if count > 0 {
        assert(retry_cell(count) == "<span class='retry'>🔄 "@ + numbers::decimal(count as nat)
            + "</span>"@);
        lemma_found_between(
            "<span class='retry'>🔄 "@,
            numbers::decimal(count as nat),
            "</span>"@,
        );
    }
}

/// Behind the totals the summary tells how the remote cache was used, if there
/// is one, and which jobs were slow, if any were.
pub proof fn lemma_summary_insights(
    results: Seq<ResultModel>,
    slow: Seq<SlowModel>,
    stats: RemoteCacheStats,
    parts: PartsModel,
    i: int,
)
    requires
        0 <= i < slow.len(),
    ensures
        ({
            let n = results.len() as int;
            let lines = summary(results, slow, stats, true, parts);
            let bare = summary(results, slow, stats, false, parts);
            &&& lines[12 + n].text == "  Hits:    "@ + parts.hits + "  |  Misses:  "@ + parts.misses
                + "  |  Pushes:  "@ + parts.pushes
            &&& lines[13 + n].text == "  Hit rate: "@ + hit_rate(stats) + "%"@
            &&& lines[18 + n + i].text == "   - "@ + parts.slow_names[i] + ": "@ + duration_text(
                slow[i].duration_ms,
            ) + " ("@ + slow_share(slow[i]) + "% of total)"@
            &&& bare[13 + n + i].text == lines[18 + n + i].text
        }),
{
}

/// A line is shown as it is, in bold or in bold yellow, as its style says.
pub proof fn lemma_lines_shown(shown: Seq<Seq<char>>, lines: Seq<LineModel>, i: int)
    requires
        shows_all(shown, lines),
        0 <= i < lines.len(),
    ensures
        shown.len() == lines.len(),
        lines[i].style == LineStyle::Plain ==> shown[i] == lines[i].text,
        lines[i].style == LineStyle::Bold ==> color::shows(shown[i], "1"@, lines[i].text),
        lines[i].style == LineStyle::BoldYellow ==> color::shows(shown[i], "1;33"@, lines[i].text),
{
    assert(shows_line(shown[i], lines[i]));
}

/// The colors and the symbols of statuses.
pub proof fn lemma_status_looks()
    ensures
        status_style(JobStatus::Success) == "32"@,
        status_style(JobStatus::Failed) == "31"@,
        status_style(JobStatus::Skipped) == "33"@,
        status_style(JobStatus::Running) == "36"@,
        status_style(JobStatus::Cancelled) == "35"@,
        status_style(JobStatus::Pending) == "2"@,
        emoji(JobStatus::Success) == "✅"@,
        emoji(JobStatus::Failed) == "❌"@,
        emoji(JobStatus::Skipped) == "⏭"@,
        emoji(JobStatus::Running) == "🔵"@,
        emoji(JobStatus::Cancelled) == "🚫"@,
        emoji(JobStatus::Pending) == "⏳"@,
{
}

/// From a second up to a minute a duration is shown in seconds, with the nearest
/// hundredth.
pub proof fn lemma_duration_in_seconds(ms: u64)
    requires
        1000 <= ms < 60_000,
    ensures
        exists|h: nat|
            10 * h <= ms + 5 && ms <= 10 * h + 5 && duration_text(ms) == #[trigger] numbers::fixed(h, 2)
                + "s"@,
{
    rounding::lemma_seconds_are_exact(ms);
    let h = rounding::seconds(ms, 100);
    assert(duration_text(ms) == numbers::fixed(h, 2) + "s"@);
}

proof fn lemma_encode_behind(s: Seq<char>, c: char)
    ensures
        encode_utf8(s.push(c)) == encode_utf8(s) + vstd::utf8::encode_scalar(c as u32),
    decreases s.len(),
{
    let t = s.push(c);
    let none = Seq::<char>::empty();
    if s.len() == 0 {
        assert(t.drop_first() =~= none);
        assert(encode_utf8(none) =~= Seq::<u8>::empty());
        assert(s =~= none);
        assert(encode_utf8(t) =~= encode_utf8(s) + vstd::utf8::encode_scalar(c as u32));
    } else {
        assert(t.drop_first() =~= s.drop_first().push(c));
        lemma_encode_behind(s.drop_first(), c);
        assert(encode_utf8(t) =~= encode_utf8(s) + vstd::utf8::encode_scalar(c as u32));
    }
}

/// The length of a name in bytes is that of its encoding.
pub proof fn lemma_byte_len(s: Seq<char>)
    ensures
        byte_len(s) == encode_utf8(s).len(),
    decreases s.len(),
{
    if s.len() > 0 {
        lemma_byte_len(s.drop_last());
        lemma_encode_behind(s.drop_last(), s.last());
        assert(s.drop_last().push(s.last()) =~= s);
        vstd::utf8::char_is_scalar(s.last());
    }
}

} // verus!
