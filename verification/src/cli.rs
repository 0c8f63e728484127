//! The command line: its arguments and what the commands print.
use vstd::prelude::*;

use crate::logging::OutputMode;
use crate::models::{JobResult, JobStatus, Pipeline, RemoteCacheConfig, ResultModel};
use crate::numbers;
use crate::numbers::{decimal_str, fixed_str, pad_left_str, pad_right_str, push_decimal, repeat_str};
use crate::paths;
use crate::paths::ci_path_str;
use crate::remote_cache::{CacheEntryInfo, GcResult, ServerStats};
use crate::reporting;
use crate::reporting::truncate;
use crate::rounding;
use crate::rounding::{half_even_of, round53_of};
use crate::scheduler::SchedulerConfig;
use crate::string_map::{StringMap, Table};
use crate::text;
use crate::text::{append_str, clone_opt, from_chars, split_str, str_eq, to_chars, trim_str};
use crate::validator::{LintWarning, ValidationError};

verus! {

// ---------------------------------------------------------------------------
// Arguments

/// The arguments of the program.
#[derive(Debug, Clone)]
pub struct Cli {
    pub command: Commands,
}

/// What the program is asked to do.
#[derive(Debug, Clone)]
pub enum Commands {
    Run(RunArgs),
    Validate(ValidateArgs),
    Graph(GraphArgs),
    Clean(CleanArgs),
    Cache(CacheArgs),
}

/// The arguments of the commands on the remote cache.
#[derive(Debug, Clone)]
pub struct CacheArgs {
    pub file: String,
    pub command: CacheCommands,
}

/// What is to be done with the remote cache.
#[derive(Debug, Clone)]
pub enum CacheCommands {
    List(CacheListArgs),
    Push(CachePushArgs),
    Pull(CachePullArgs),
    Gc,
    Stats,
}

/// Which namespace to list.
#[derive(Debug, Clone)]
pub struct CacheListArgs {
    pub namespace: Option<String>,
}

/// Which file to upload, and where to.
#[derive(Debug, Clone)]
pub struct CachePushArgs {
    pub path: String,
    pub key: String,
    pub namespace: Option<String>,
}

/// Which entry to download, and where to.
#[derive(Debug, Clone)]
pub struct CachePullArgs {
    pub key: String,
    pub output: String,
    pub namespace: Option<String>,
}

/// In which form a run tells of itself.
#[derive(Debug, Clone, Copy, PartialEq, Eq, Structural)]
pub enum OutputFormat {
    Terminal,
    Json,
    Junit,
    Html,
}

/// The output mode of a format.
pub open spec fn mode_of(f: OutputFormat) -> OutputMode {
    match f {
        OutputFormat::Terminal => OutputMode::Terminal,
        OutputFormat::Json => OutputMode::Json,
        OutputFormat::Junit => OutputMode::Junit,
        OutputFormat::Html => OutputMode::Html,
    }
}

impl From<OutputFormat> for OutputMode {
    fn from(f: OutputFormat) -> (r: OutputMode) {
        match f {
            OutputFormat::Terminal => OutputMode::Terminal,
            OutputFormat::Json => OutputMode::Json,
            OutputFormat::Junit => OutputMode::Junit,
            OutputFormat::Html => OutputMode::Html,
        }
    }
}

impl vstd::std_specs::convert::FromSpecImpl<OutputFormat> for OutputMode {
    open spec fn obeys_from_spec() -> bool {
        true
    }

    open spec fn from_spec(f: OutputFormat) -> OutputMode {
        mode_of(f)
    }
}

/// How a graph is drawn.
#[derive(Debug, Clone, Copy, PartialEq, Eq, Structural)]
pub enum GraphFormat {
    Dot,
    Ascii,
}

/// The arguments of a run.
#[derive(Debug, Clone)]
pub struct RunArgs {
    pub file: String,
    pub parallel: usize,
    pub output: OutputFormat,
    pub resume: bool,
    pub dry_run: bool,
    pub filter: Option<String>,
    pub working_dir: Option<String>,
    pub timeout: u64,
    pub retry: u32,
    pub changed_files: Option<String>,
}

/// What is to be validated, and how strictly.
#[derive(Debug, Clone)]
pub struct ValidateArgs {
    pub file: String,
    pub lint: bool,
    pub strict: bool,
}

/// Which graph to draw, and how.
#[derive(Debug, Clone)]
pub struct GraphArgs {
    pub file: String,
    pub format: GraphFormat,
}

/// What is to be cleaned.
#[derive(Debug, Clone)]
pub struct CleanArgs {
    pub all: bool,
}

// ---------------------------------------------------------------------------
// Runs

/// The text with a comma for each line break and each space.
pub open spec fn commas(s: Seq<char>) -> Seq<char> {
    Seq::new(
        s.len(),
        |i: int|
            if s[i] == '\n' || s[i] == ' ' {
                ','
            } else {
                s[i]
            },
    )
}

/// The parts without the blanks around them, and without the empty ones.
pub open spec fn nonempty_parts(parts: Seq<Seq<char>>) -> Seq<Seq<char>>
    decreases parts.len(),
{
    if parts.len() == 0 {
        Seq::empty()
    } else {
        let before = nonempty_parts(parts.drop_last());
        let last = text::trim(parts.last());
        if last.len() == 0 {
            before
        } else {
            before.push(last)
        }
    }
}

/// The names in a list with commas between them.
pub open spec fn listed(s: Seq<char>) -> Seq<Seq<char>> {
    nonempty_parts(text::split(s, ','))
}

/// The changed files: those that the argument lists, or those of the input if
/// the argument is `-`. In the input line breaks and spaces stand between names
/// too.
pub open spec fn changed_files(arg: Option<Seq<char>>, input: Seq<char>) -> Seq<Seq<char>> {
    match arg {
        Some(s) => if s == "-"@ {
            listed(commas(input))
        } else {
            listed(s)
        },
        None => Seq::empty(),
    }
}

fn listed_of(s: &str) -> (r: Vec<String>)
    ensures
        r.deep_view() == listed(s@),
{
    let parts = split_str(s, ',');
    let ghost all = parts.deep_view();
    let mut out: Vec<String> = Vec::new();
    let mut i: usize = 0;
    assert(all.take(0) =~= Seq::<Seq<char>>::empty());
    assert(out.deep_view() =~= Seq::<Seq<char>>::empty());
    while i < parts.len()
        invariant
            all == parts.deep_view(),
            i <= parts@.len(),
            out.deep_view() == nonempty_parts(all.take(i as int)),
        decreases parts@.len() - i,
    {
        let ghost before = out.deep_view();
        assert(all[i as int] == parts@[i as int]@);
        assert(all.take(i + 1).drop_last() =~= all.take(i as int));
        let part = trim_str(parts[i].as_str());
        if !part.as_str().is_empty() {
            out.push(part);
            assert(out.deep_view() =~= before.push(part@));
        }
        i = i + 1;
    }
    assert(all.take(all.len() as int) =~= all);
    out
}

fn commas_of(s: &str) -> (r: String)
    ensures
        r@ == commas(s@),
{
    let v = to_chars(s);
    let mut out: Vec<char> = Vec::new();
    let mut i: usize = 0;
    while i < v.len()
        invariant
            v@ == s@,
            i <= v@.len(),
            out@.len() == i,
            forall|k: int| 0 <= k < i ==> out@[k] == #[trigger] commas(s@)[k],
        decreases v@.len() - i,
    {
        let c: char = v[i];
        if c == '\n' || c == ' ' {
            out.push(',');
        } else {
            out.push(c);
        }
        i = i + 1;
    }
    assert(out@ =~= commas(s@));
    from_chars(out.as_slice())
}

/// Whether the changed files are to be read from the input.
pub fn reads_input(arg: &Option<String>) -> (r: bool)
    ensures
        r == (arg matches Some(s) && s@ == "-"@),
{
    match arg {
        Some(s) => str_eq(s.as_str(), "-"),
        None => false,
    }
}

/// The changed files that the argument lists, or the input if the argument is
/// `-`.
pub fn parse_changed_files(arg: &Option<String>, input: &str) -> (r: Vec<String>)
    ensures
        r.deep_view() == changed_files(arg.deep_view(), input@),
{
    match arg {
        Some(s) => {
            if str_eq(s.as_str(), "-") {
                listed_of(commas_of(input).as_str())
            } else {
                listed_of(s.as_str())
            }
        },
        None => {
            let out: Vec<String> = Vec::new();
            assert(out.deep_view() =~= Seq::<Seq<char>>::empty());
            out
        },
    }
}

impl RunArgs {
    /// The settings that the arguments ask for. `input` is what the changed
    /// files are read from if the argument is `-`.
    pub fn config(&self, current_dir: &str, input: &str) -> (r: SchedulerConfig)
        ensures
            r.file@ == self.file@,
            r.parallel == self.parallel,
            r.output_mode == mode_of(self.output),
            r.resume == self.resume,
            r.dry_run == self.dry_run,
            r.filter.deep_view() == self.filter.deep_view(),
            r.working_dir@ == (match self.working_dir {
                Some(d) => d@,
                None => current_dir@,
            }),
            r.cache_ttl_days == 7,
            r.default_timeout == self.timeout,
            r.default_retry == self.retry,
            r.changed_files.deep_view() == changed_files(self.changed_files.deep_view(), input@),
            !r.remote_cache.enabled,
            r.remote_cache.url is None,
            r.remote_cache.token is None,
            r.remote_cache.namespace is None,
    {
        let working_dir = match &self.working_dir {
            Some(d) => d.clone(),
            None => current_dir.to_owned(),
        };
        SchedulerConfig {
            file: self.file.clone(),
            parallel: self.parallel,
            output_mode: OutputMode::from(self.output),
            resume: self.resume,
            dry_run: self.dry_run,
            filter: clone_opt(&self.filter),
            working_dir,
            cache_ttl_days: 7,
            default_timeout: self.timeout,
            default_retry: self.retry,
            changed_files: parse_changed_files(&self.changed_files, input),
            remote_cache: RemoteCacheConfig::default(),
        }
    }
}

/// Whether a result has the given status.
pub open spec fn has_status(results: Seq<ResultModel>, status: JobStatus) -> bool {
    exists|i: int| 0 <= i < results.len() && (#[trigger] results[i]).status == status
}

/// With which code the program ends: 1 if a job failed, 130 if one was
/// cancelled and another has not come to an end, else 0.
pub open spec fn exit_status(results: Seq<ResultModel>) -> u8 {
    if has_status(results, JobStatus::Failed) {
        1
    } else if has_status(results, JobStatus::Cancelled) && (has_status(results, JobStatus::Pending)
        || has_status(results, JobStatus::Running)) {
        130
    } else {
        0
    }
}

/// With which code the program ends.
pub fn exit_code(results: &[JobResult]) -> (r: u8)
    ensures
        r == exit_status(results.deep_view()),
{
    let ghost all = results.deep_view();
    let mut failed = false;
    let mut cancelled = false;
    let mut open = false;
    let mut i: usize = 0;
    while i < results.len()
        invariant
            all == results.deep_view(),
            i <= results@.len(),
            failed == exists|k: int|
                0 <= k < i && (#[trigger] all[k]).status == JobStatus::Failed,
            cancelled == exists|k: int|
                0 <= k < i && (#[trigger] all[k]).status == JobStatus::Cancelled,
            open == exists|k: int|
                0 <= k < i && ((#[trigger] all[k]).status == JobStatus::Pending || all[k].status
                    == JobStatus::Running),
        decreases results@.len() - i,
    {
        assert(all[i as int] == results@[i as int].deep_view());
        match results[i].status {
            JobStatus::Failed => {
                failed = true;
            },
            JobStatus::Cancelled => {
                cancelled = true;
            },
            JobStatus::Pending => {
                open = true;
            },
            JobStatus::Running => {
                open = true;
            },
            _ => {},
        }
        i = i + 1;
    }
    if failed {
        1
    } else if cancelled && open {
        130
    } else {
        0
    }
}

/// The program ends with 0 if every job succeeded or was skipped.
pub proof fn lemma_all_well(results: Seq<ResultModel>)
    requires
        forall|i: int|
            0 <= i < results.len() ==> ((#[trigger] results[i]).status == JobStatus::Success
                || results[i].status == JobStatus::Skipped),
    ensures
        exit_status(results) == 0,
{
}

// ---------------------------------------------------------------------------
// Validation

/// What is printed of an error or a warning.
pub open spec fn numbered(number: nat, mark: Seq<char>, location: Seq<char>, message: Seq<char>) -> Seq<char> {
    "  "@ + numbers::decimal(number) + ". "@ + mark + "["@ + location + "] "@ + message
}

fn numbered_str(number: usize, mark: &str, location: &str, message: &str) -> (r: String)
    ensures
        r@ == numbered(number as nat, mark@, location@, message@),
{
    let mut s = "  ".to_owned();
    push_decimal(&mut s, number as u128);
    append_str(&mut s, ". ");
    append_str(&mut s, mark);
    append_str(&mut s, "[");
    append_str(&mut s, location);
    append_str(&mut s, "] ");
    append_str(&mut s, message);
    s
}

/// The lines on the errors of a pipeline: how many there are, then each.
pub open spec fn error_report(errors: Seq<ValidationError>) -> Seq<Seq<char>> {
    seq!["✗ Validation failed with "@ + numbers::decimal(errors.len()) + " error(s):"@]
        + Seq::new(
        errors.len(),
        |i: int| numbered((i + 1) as nat, ""@, errors[i].location@, errors[i].message@),
    )
}

/// The lines on the errors of a pipeline.
pub fn error_lines(errors: &Vec<ValidationError>) -> (r: Vec<String>)
    ensures
        r.deep_view() == error_report(errors@),
{
    let mut out: Vec<String> = Vec::new();
    let mut head = "✗ Validation failed with ".to_owned();
    push_decimal(&mut head, errors.len() as u128);
    append_str(&mut head, " error(s):");
    out.push(head);
    let n: usize = errors.len();
    let mut i: usize = 0;
    while i < n
        invariant
            n == errors@.len(),
            i <= n,
            out@.len() == i + 1,
            forall|k: int|
                0 <= k < i + 1 ==> (#[trigger] out@[k])@ == error_report(errors@)[k],
        decreases n - i,
    {
        let e = &errors[i];
        out.push(numbered_str(i + 1, "", e.location.as_str(), e.message.as_str()));
        i = i + 1;
    }
    assert(out.deep_view() =~= error_report(errors@));
    out
}

/// The lines on the size of a pipeline.
pub open spec fn overview(stages: nat, jobs: nat, expanded: nat, variables: nat) -> Seq<Seq<char>> {
    seq![
        "  - Stages: "@ + numbers::decimal(stages),
        "  - Jobs defined: "@ + numbers::decimal(jobs),
        "  - Jobs after matrix expansion: "@ + numbers::decimal(expanded),
        "  - Variables: "@ + numbers::decimal(variables),
    ]
}

fn counted(what: &str, n: u128) -> (r: String)
    ensures
        r@ == what@ + numbers::decimal(n as nat),
{
    let mut s = what.to_owned();
    push_decimal(&mut s, n);
    s
}

/// The lines on the size of a pipeline.
pub fn overview_lines(pipeline: &Pipeline, expanded: usize) -> (r: Vec<String>)
    ensures
        r.deep_view() == overview(
            pipeline.stages@.len(),
            pipeline.jobs@.len(),
            expanded as nat,
            pipeline.variables.deep_view().order.len(),
        ),
{
    let mut out: Vec<String> = Vec::new();
    out.push(counted("  - Stages: ", pipeline.stages.len() as u128));
    out.push(counted("  - Jobs defined: ", pipeline.jobs.len() as u128));
    out.push(counted("  - Jobs after matrix expansion: ", expanded as u128));
    out.push(counted("  - Variables: ", pipeline.variables.len() as u128));
    assert(out.deep_view() =~= overview(
        pipeline.stages@.len(),
        pipeline.jobs@.len(),
        expanded as nat,
        pipeline.variables.deep_view().order.len(),
    ));
    out
}

/// The lines on the warnings of a pipeline.
pub open spec fn lint_report(warnings: Seq<LintWarning>) -> Seq<Seq<char>> {
    if warnings.len() == 0 {
        seq!["✓ Lint passed (no warnings)"@]
    } else {
        seq!["⚠ Lint found "@ + numbers::decimal(warnings.len()) + " warning(s):"@] + Seq::new(
            warnings.len(),
            |i: int|
                numbered(
                    (i + 1) as nat,
                    "[warning] "@,
                    warnings[i].location@,
                    warnings[i].message@,
                ),
        )
    }
}

/// The lines on the warnings of a pipeline.
pub fn lint_lines(warnings: &Vec<LintWarning>) -> (r: Vec<String>)
    ensures
        r.deep_view() == lint_report(warnings@),
{
    let mut out: Vec<String> = Vec::new();
    if warnings.len() == 0 {
        out.push("✓ Lint passed (no warnings)".to_owned());
        assert(out.deep_view() =~= lint_report(warnings@));
        return out;
    }
    let mut head = "⚠ Lint found ".to_owned();
    push_decimal(&mut head, warnings.len() as u128);
    append_str(&mut head, " warning(s):");
    out.push(head);
    let n: usize = warnings.len();
    let mut i: usize = 0;
    while i < n
        invariant
            n == warnings@.len(),
            n > 0,
            i <= n,
            out@.len() == i + 1,
            forall|k: int| 0 <= k < i + 1 ==> (#[trigger] out@[k])@ == lint_report(warnings@)[k],
        decreases n - i,
    {
        let w = &warnings[i];
        out.push(numbered_str(i + 1, "[warning] ", w.location.as_str(), w.message.as_str()));
        i = i + 1;
    }
    assert(out.deep_view() =~= lint_report(warnings@));
    out
}

impl ValidateArgs {
    /// Whether a pipeline without errors, but with so many warnings, is
    /// accepted.
    pub open spec fn accepted(self, warnings: nat) -> bool {
        !(self.lint && warnings > 0 && self.strict)
    }

    /// Whether a pipeline without errors is accepted.
    pub fn accepts(&self, warnings: &Vec<LintWarning>) -> (r: bool)
        ensures
            r == self.accepted(warnings@.len()),
    {
        !(self.lint && warnings.len() > 0 && self.strict)
    }
}

/// The last line of a validation.
pub fn validation_summary(accepted: bool) -> (r: &'static str)
    ensures
        r@ == if accepted {
            "Summary: Pipeline definition is valid."@
        } else {
            "Summary: Pipeline definition has validation errors (strict mode)."@
        },
{
    if accepted {
        "Summary: Pipeline definition is valid."
    } else {
        "Summary: Pipeline definition has validation errors (strict mode)."
    }
}

// ---------------------------------------------------------------------------
// Cleaning

/// Something to be cleaned.
#[derive(Debug, Clone, Copy, PartialEq, Eq, Structural)]
pub enum CleanTarget {
    Logs,
    Artifacts,
    /// The whole cache.
    Cache,
    /// What has expired in the cache.
    ExpiredCache,
    State,
    Report,
    Junit,
}

/// The name of a target in the directory of a run.
pub open spec fn target_name(t: CleanTarget) -> Seq<char> {
    match t {
        CleanTarget::Logs => "logs"@,
        CleanTarget::Artifacts => "artifacts"@,
        CleanTarget::Cache => "cache"@,
        CleanTarget::ExpiredCache => "cache"@,
        CleanTarget::State => "state.json"@,
        CleanTarget::Report => "report.html"@,
        CleanTarget::Junit => "junit.xml"@,
    }
}

/// What came of cleaning something.
#[derive(Debug, Clone)]
pub enum CleanOutcome {
    /// So many things were removed.
    Removed(usize),
    Failed(String),
}

/// How many things a target counts for.
pub open spec fn clean_count(t: CleanTarget, outcome: CleanOutcome) -> nat {
    match outcome {
        CleanOutcome::Removed(n) => if t == CleanTarget::ExpiredCache {
            n as nat
        } else {
            1
        },
        CleanOutcome::Failed(_) => 0,
    }
}

/// The line on a target.
pub open spec fn clean_text(t: CleanTarget, path: Seq<char>, outcome: CleanOutcome) -> Seq<char> {
    match outcome {
        CleanOutcome::Removed(n) => match t {
            CleanTarget::Logs => "✓ Removed logs directory: "@ + path,
            CleanTarget::Artifacts => "✓ Removed artifacts directory: "@ + path,
            CleanTarget::Cache => "✓ Removed cache directory: "@ + path,
            CleanTarget::ExpiredCache => if n > 0 {
                "✓ Cleaned "@ + numbers::decimal(n as nat) + " expired cache entries"@
            } else {
                "ℹ No expired cache entries found"@
            },
            _ => "✓ Removed: "@ + path,
        },
        CleanOutcome::Failed(e) => match t {
            CleanTarget::Logs => "⚠ Failed to remove logs: "@ + e@,
            CleanTarget::Artifacts => "⚠ Failed to remove artifacts: "@ + e@,
            CleanTarget::Cache => "⚠ Failed to remove cache: "@ + e@,
            CleanTarget::ExpiredCache => "⚠ Failed to cleanup cache: "@ + e@,
            _ => "⚠ Failed to remove "@ + path + ": "@ + e@,
        },
    }
}

impl CleanArgs {
    /// What is to be cleaned, in this order.
    pub fn targets(&self) -> (r: Vec<CleanTarget>)
        ensures
            r@ == seq![
                CleanTarget::Logs,
                CleanTarget::Artifacts,
                if self.all {
                    CleanTarget::Cache
                } else {
                    CleanTarget::ExpiredCache
                },
                CleanTarget::State,
                CleanTarget::Report,
                CleanTarget::Junit,
            ],
    {
        let mut out: Vec<CleanTarget> = Vec::new();
        out.push(CleanTarget::Logs);
        out.push(CleanTarget::Artifacts);
        if self.all {
            out.push(CleanTarget::Cache);
        } else {
            out.push(CleanTarget::ExpiredCache);
        }
        out.push(CleanTarget::State);
        out.push(CleanTarget::Report);
        out.push(CleanTarget::Junit);
        out
    }
}

impl CleanTarget {
    /// Where the target is.
    pub fn path(&self, base: &str) -> (r: String)
        ensures
            r@ == paths::ci_path(base@, target_name(*self)),
    {
        match self {
            CleanTarget::Logs => ci_path_str(base, "logs"),
            CleanTarget::Artifacts => ci_path_str(base, "artifacts"),
            CleanTarget::Cache => ci_path_str(base, "cache"),
            CleanTarget::ExpiredCache => ci_path_str(base, "cache"),
            CleanTarget::State => ci_path_str(base, "state.json"),
            CleanTarget::Report => ci_path_str(base, "report.html"),
            CleanTarget::Junit => ci_path_str(base, "junit.xml"),
        }
    }
}

fn labelled(label: &str, value: &str) -> (r: String)
    ensures
        r@ == label@ + value@,
{
    let mut s = label.to_owned();
    append_str(&mut s, value);
    s
}

fn removed_line(t: CleanTarget, path: &str, n: usize) -> (r: String)
    ensures
        r@ == clean_text(t, path@, CleanOutcome::Removed(n)),
{
    match t {
        CleanTarget::Logs => labelled("✓ Removed logs directory: ", path),
        CleanTarget::Artifacts => labelled("✓ Removed artifacts directory: ", path),
        CleanTarget::Cache => labelled("✓ Removed cache directory: ", path),
        CleanTarget::ExpiredCache => {
            if n > 0 {
                let mut s = "✓ Cleaned ".to_owned();
                push_decimal(&mut s, n as u128);
                append_str(&mut s, " expired cache entries");
                s
            } else {
                "ℹ No expired cache entries found".to_owned()
            }
        },
        _ => labelled("✓ Removed: ", path),
    }
}

/// What has been cleaned so far.
#[derive(Debug, Clone)]
pub struct Cleaning {
    pub removed: usize,
}

impl Cleaning {
    /// Nothing has been cleaned.
    pub fn new() -> (r: Cleaning)
        ensures
            r.removed == 0,
    {
        Cleaning { removed: 0 }
    }

    /// Counts a target, and gives the line on it.
    pub fn note(&mut self, t: CleanTarget, path: &str, outcome: &CleanOutcome) -> (r: String)
        requires
            old(self).removed + clean_count(t, *outcome) <= usize::MAX,
        ensures
            final(self).removed == old(self).removed + clean_count(t, *outcome),
            r@ == clean_text(t, path@, *outcome),
    {
        match outcome {
            CleanOutcome::Removed(n) => {
                match t {
                    CleanTarget::ExpiredCache => {
                        self.removed = self.removed + *n;
                    },
                    _ => {
                        self.removed = self.removed + 1;
                    },
                }
                removed_line(t, path, *n)
            },
            CleanOutcome::Failed(e) => match t {
                CleanTarget::Logs => labelled("⚠ Failed to remove logs: ", e.as_str()),
                CleanTarget::Artifacts => labelled("⚠ Failed to remove artifacts: ", e.as_str()),
                CleanTarget::Cache => labelled("⚠ Failed to remove cache: ", e.as_str()),
                CleanTarget::ExpiredCache => labelled("⚠ Failed to cleanup cache: ", e.as_str()),
                _ => {
                    let mut s = labelled("⚠ Failed to remove ", path);
                    append_str(&mut s, ": ");
                    append_str(&mut s, e.as_str());
                    s
                },
            },
        }
    }

    /// The last lines.
    pub fn summary(&self) -> (r: String)
        ensures
            r@ == if self.removed == 0 {
                "Nothing to clean (run with --all to also remove cache)."@
            } else {
                "\nCleanup complete. Removed "@ + numbers::decimal(self.removed as nat)
                    + " item(s)."@
            },
    {
        if self.removed == 0 {
            "Nothing to clean (run with --all to also remove cache).".to_owned()
        } else {
            let mut s = "\nCleanup complete. Removed ".to_owned();
            push_decimal(&mut s, self.removed as u128);
            append_str(&mut s, " item(s).");
            s
        }
    }
}

// ---------------------------------------------------------------------------
// The remote cache

/// A number of bytes as it is shown.
pub open spec fn size_text(bytes: u64) -> Seq<char> {
    if bytes < 0x400 {
        numbers::decimal(bytes as nat) + " B"@
    } else if bytes < 0x10_0000 {
        numbers::fixed(rounding::half_even((bytes * 10) as nat, 0x400), 1) + " KB"@
    } else if bytes < 0x4000_0000 {
        numbers::fixed(rounding::half_even((bytes * 10) as nat, 0x10_0000), 1) + " MB"@
    } else {
        numbers::fixed(
            rounding::half_even(rounding::round53(bytes as nat) * 100, 0x4000_0000),
            2,
        ) + " GB"@
    }
}

/// A number of bytes as it is shown.
pub fn format_size(bytes: u64) -> (r: String)
    ensures
        r@ == size_text(bytes),
{
    if bytes < 0x400 {
        let mut s = decimal_str(bytes as u128);
        append_str(&mut s, " B");
        s
    } else if bytes < 0x10_0000 {
        let mut s = fixed_str(half_even_of(bytes as u128 * 10, 0x400), 1);
        append_str(&mut s, " KB");
        s
    } else if bytes < 0x4000_0000 {
        let mut s = fixed_str(half_even_of(bytes as u128 * 10, 0x10_0000), 1);
        append_str(&mut s, " MB");
        s
    } else {
        let mut s = fixed_str(half_even_of(round53_of(bytes as u128) * 100, 0x4000_0000), 2);
        append_str(&mut s, " GB");
        s
    }
}

/// The row of an entry: its key, its size and when it was last used.
pub open spec fn entry_row(e: CacheEntryInfo) -> Seq<char> {
    "  "@ + numbers::pad_right(reporting::shortened(e.key@, 48), 50) + " "@ + numbers::pad_left(
        size_text(e.size_bytes),
        10,
    ) + "  last accessed: "@ + e.last_accessed@
}

fn entry_row_str(e: &CacheEntryInfo) -> (r: String)
    ensures
        r@ == entry_row(*e),
{
    let mut s = "  ".to_owned();
    append_str(&mut s, pad_right_str(truncate(e.key.as_str(), 48).as_str(), 50).as_str());
    append_str(&mut s, " ");
    append_str(&mut s, pad_left_str(format_size(e.size_bytes).as_str(), 10).as_str());
    append_str(&mut s, "  last accessed: ");
    append_str(&mut s, e.last_accessed.as_str());
    s
}

/// The rows of the entries, or a line that says that there are none.
pub open spec fn entry_rows(entries: Seq<CacheEntryInfo>) -> Seq<Seq<char>> {
    if entries.len() == 0 {
        seq!["  (empty)"@]
    } else {
        Seq::new(entries.len(), |i: int| entry_row(entries[i]))
    }
}

/// The lines on the entries of a namespace.
pub open spec fn listing(namespace: Seq<char>, entries: Seq<CacheEntryInfo>) -> Seq<Seq<char>> {
    seq!["Remote Cache Entries (namespace: "@ + namespace + ")"@, numbers::repeat('─', 80)]
        + entry_rows(entries) + seq![
        ""@,
        "Total: "@ + numbers::decimal(entries.len()) + " entries"@,
    ]
}

fn entry_rows_of(entries: &Vec<CacheEntryInfo>) -> (r: Vec<String>)
    ensures
        r.deep_view() == entry_rows(entries@),
{
    let mut out: Vec<String> = Vec::new();
    if entries.len() == 0 {
        out.push("  (empty)".to_owned());
        assert(out.deep_view() =~= entry_rows(entries@));
        return out;
    }
    let n: usize = entries.len();
    let mut i: usize = 0;
    while i < n
        invariant
            n == entries@.len(),
            n > 0,
            i <= n,
            out@.len() == i,
            forall|k: int| 0 <= k < i ==> (#[trigger] out@[k])@ == entry_rows(entries@)[k],
        decreases n - i,
    {
        out.push(entry_row_str(&entries[i]));
        i = i + 1;
    }
    assert(out.deep_view() =~= entry_rows(entries@));
    out
}

/// The lines on the entries of a namespace.
pub fn list_lines(namespace: &str, entries: &Vec<CacheEntryInfo>) -> (r: Vec<String>)
    ensures
        r.deep_view() == listing(namespace@, entries@),
{
    let mut out: Vec<String> = Vec::new();
    let mut head = labelled("Remote Cache Entries (namespace: ", namespace);
    append_str(&mut head, ")");
    out.push(head);
    out.push(repeat_str('─', 80));
    let mut rows = entry_rows_of(entries);
    let ghost body = rows.deep_view();
    let ghost first = out.deep_view();
    out.append(&mut rows);
    assert(out.deep_view() =~= first + body);
    let mut total = counted("Total: ", entries.len() as u128);
    append_str(&mut total, " entries");
    out.push("".to_owned());
    out.push(total);
    assert(out.deep_view() =~= listing(namespace@, entries@));
    out
}

/// The lines on an upload or a download: what is done, then the key, the file
/// and the namespace if one was given.
pub open spec fn transfer(
    what: Seq<char>,
    key: Seq<char>,
    file_label: Seq<char>,
    file: Seq<char>,
    namespace: Option<Seq<char>>,
) -> Seq<Seq<char>> {
    let lines = seq![what, "  Key: "@ + key, file_label + file];
    match namespace {
        Some(ns) => lines.push("  Namespace: "@ + ns),
        None => lines,
    }
}

fn transfer_lines(
    what: &str,
    key: &str,
    file_label: &str,
    file: &str,
    namespace: &Option<String>,
) -> (r: Vec<String>)
    ensures
        r.deep_view() == transfer(what@, key@, file_label@, file@, namespace.deep_view()),
{
    let mut out: Vec<String> = Vec::new();
    out.push(what.to_owned());
    out.push(labelled("  Key: ", key));
    out.push(labelled(file_label, file));
    if let Some(ns) = namespace {
        out.push(labelled("  Namespace: ", ns.as_str()));
    }
    assert(out.deep_view() =~= transfer(
        what@,
        key@,
        file_label@,
        file@,
        namespace.deep_view(),
    ));
    out
}

impl CachePushArgs {
    /// The lines on the upload.
    pub fn lines(&self) -> (r: Vec<String>)
        ensures
            r.deep_view() == transfer(
                "Pushing to remote cache..."@,
                self.key@,
                "  File: "@,
                self.path@,
                self.namespace.deep_view(),
            ),
    {
        transfer_lines(
            "Pushing to remote cache...",
            self.key.as_str(),
            "  File: ",
            self.path.as_str(),
            &self.namespace,
        )
    }
}

impl CachePullArgs {
    /// The lines on the download.
    pub fn lines(&self) -> (r: Vec<String>)
        ensures
            r.deep_view() == transfer(
                "Pulling from remote cache..."@,
                self.key@,
                "  Output: "@,
                self.output@,
                self.namespace.deep_view(),
            ),
    {
        transfer_lines(
            "Pulling from remote cache...",
            self.key.as_str(),
            "  Output: ",
            self.output.as_str(),
            &self.namespace,
        )
    }
}

/// The lines on what the server has removed.
pub fn gc_lines(result: &GcResult) -> (r: Vec<String>)
    ensures
        r.deep_view() == seq![
            "✓ GC complete"@,
            "  Removed: "@ + numbers::decimal(result.removed as nat) + " entries"@,
            "  Freed: "@ + size_text(result.freed_bytes),
        ],
{
    let mut out: Vec<String> = Vec::new();
    let mut removed = counted("  Removed: ", result.removed as u128);
    append_str(&mut removed, " entries");
    out.push("✓ GC complete".to_owned());
    out.push(removed);
    out.push(labelled("  Freed: ", format_size(result.freed_bytes).as_str()));
    assert(out.deep_view() =~= seq![
        "✓ GC complete"@,
        "  Removed: "@ + numbers::decimal(result.removed as nat) + " entries"@,
        "  Freed: "@ + size_text(result.freed_bytes),
    ]);
    out
}

/// The rows of the namespaces, or a line that says that there are none.
pub open spec fn namespace_rows(counts: Table<usize>) -> Seq<Seq<char>> {
    if counts.order.len() == 0 {
        seq!["    (none)"@]
    } else {
        Seq::new(
            counts.order.len(),
            |i: int|
                "    "@ + counts.order[i] + ": "@ + numbers::decimal(
                    counts.map[counts.order[i]] as nat,
                ) + " entries"@,
        )
    }
}

fn namespace_rows_of(counts: &StringMap<usize>) -> (r: Vec<String>)
    ensures
        r.deep_view() == namespace_rows(counts.deep_view()),
{
    let ghost t = counts.deep_view();
    let mut out: Vec<String> = Vec::new();
    let n: usize = counts.len();
    if n == 0 {
        out.push("    (none)".to_owned());
        assert(out.deep_view() =~= namespace_rows(t));
        return out;
    }
    let mut i: usize = 0;
    while i < n
        invariant
            t == counts.deep_view(),
            n == t.order.len(),
            n > 0,
            i <= n,
            out@.len() == i,
            forall|k: int| 0 <= k < i ==> (#[trigger] out@[k])@ == namespace_rows(t)[k],
        decreases n - i,
    {
        let mut s = labelled("    ", counts.key_at(i).as_str());
        append_str(&mut s, ": ");
        let count: usize = *counts.value_at(i);
        push_decimal(&mut s, count as u128);
        append_str(&mut s, " entries");
        out.push(s);
        i = i + 1;
    }
    assert(out.deep_view() =~= namespace_rows(t));
    out
}

/// The lines on what the server holds.
pub open spec fn stats_report(stats: ServerStats) -> Seq<Seq<char>> {
    seq![
        "Remote Cache Statistics"@,
        numbers::repeat('─', 80),
        "  Total entries: "@ + numbers::decimal(stats.total_entries as nat),
        "  Total size: "@ + size_text(stats.total_size_bytes),
        "  Hits (24h): "@ + numbers::decimal(stats.hits_last_24h as nat),
        "  Misses (24h): "@ + numbers::decimal(stats.misses_last_24h as nat),
        ""@,
        "  Namespace distribution:"@,
    ] + namespace_rows(stats.namespace_counts.deep_view()) + seq![""@]
}

/// The lines on what the server holds.
pub fn stats_lines(stats: &ServerStats) -> (r: Vec<String>)
    ensures
        r.deep_view() == stats_report(*stats),
{
    let mut out: Vec<String> = Vec::new();
    out.push("Remote Cache Statistics".to_owned());
    out.push(repeat_str('─', 80));
    out.push(counted("  Total entries: ", stats.total_entries as u128));
    out.push(labelled("  Total size: ", format_size(stats.total_size_bytes).as_str()));
    out.push(counted("  Hits (24h): ", stats.hits_last_24h as u128));
    out.push(counted("  Misses (24h): ", stats.misses_last_24h as u128));
    out.push("".to_owned());
    out.push("  Namespace distribution:".to_owned());
    let mut rows = namespace_rows_of(&stats.namespace_counts);
    let ghost body = rows.deep_view();
    let ghost first = out.deep_view();
    out.append(&mut rows);
    assert(out.deep_view() =~= first + body);
    out.push("".to_owned());
    assert(out.deep_view() =~= stats_report(*stats));
    out
}

// ---------------------------------------------------------------------------
// Laws

proof fn lemma_split_joined(names: Seq<Seq<char>>, c: char)
    requires
        names.len() > 0,
        forall|i: int| 0 <= i < names.len() ==> !(#[trigger] names[i]).contains(c),
    ensures
        text::split(text::join(names, seq![c]), c) == names,
    decreases names.len(),
{
    if names.len() == 1 {
        assert(names =~= seq![names[0]]);
        text::lemma_join_one(names[0], seq![c]);
        text::lemma_split_one(names[0], c);
    } else {
        let front = names.drop_last();
        assert(names =~= front.push(names.last()));
        text::lemma_join_more(front, names.last(), seq![c]);
        assert forall|i: int| 0 <= i < front.len() implies !(#[trigger] front[i]).contains(c) by {
            assert(names[i] == front[i]);
        }
        lemma_split_joined(front, c);
        assert(!names[names.len() - 1].contains(c));
        lemma_split_behind(text::join(front, seq![c]), c, names.last());
        assert(front + seq![names.last()] =~= names);
    }
}

proof fn lemma_split_behind(a: Seq<char>, c: char, b: Seq<char>)
    requires
        !b.contains(c),
    ensures
        text::split(a + seq![c] + b, c) == text::split(a, c) + seq![b],
    decreases b.len(),
{
    let s = a + seq![c] + b;
    let x = text::split(a, c);
    text::lemma_split_nonempty(a, c);
    if b.len() == 0 {
        assert(s.drop_last() =~= a);
        assert(s.last() == c);
        assert(b =~= Seq::<char>::empty());
        assert(x.push(Seq::<char>::empty()) =~= x + seq![b]);
    } else {
        let d = b.drop_last();
        assert(!d.contains(c)) by {
            if d.contains(c) {
                assert(b[d.index_of(c)] == c);
            }
        }
        assert(b.contains(b[b.len() - 1]));
        lemma_split_behind(a, c, d);
        assert(s.drop_last() =~= a + seq![c] + d);
        assert(s.last() == b.last());
        assert((x + seq![d]).last() == d);
        assert(d.push(b.last()) =~= b);
        assert((x + seq![d]).update((x + seq![d]).len() - 1, b) =~= x + seq![b]);
    }
}

proof fn lemma_parts_stay(parts: Seq<Seq<char>>)
    requires
        forall|i: int|
            0 <= i < parts.len() ==> (#[trigger] parts[i]).len() > 0 && !text::is_space(parts[i][0])
                && !text::is_space(parts[i].last()),
    ensures
        nonempty_parts(parts) == parts,
    decreases parts.len(),
{
    if parts.len() > 0 {
        let d = parts.drop_last();
        let last = parts.last();
        assert(parts[parts.len() - 1] == last);
        assert forall|i: int| 0 <= i < d.len() implies (#[trigger] d[i]).len() > 0 && !text::is_space(
            d[i][0],
        ) && !text::is_space(d[i].last()) by {
            assert(parts[i] == d[i]);
        }
        lemma_parts_stay(d);
        text::lemma_trim_id(last);
        assert(d.push(last) =~= parts);
    } else {
        assert(parts =~= Seq::<Seq<char>>::empty());
    }
}

/// The files that are listed with commas between them are read back, each of
/// them, in their order.
pub proof fn lemma_listed_files_read_back(names: Seq<Seq<char>>, input: Seq<char>)
    requires
        names.len() > 0,
        forall|i: int|
            0 <= i < names.len() ==> {
                &&& (#[trigger] names[i]).len() > 0
                &&& !names[i].contains(',')
                &&& !text::is_space(names[i][0])
                &&& !text::is_space(names[i].last())
            },
        text::join(names, ","@) != "-"@,
    ensures
        changed_files(Some(text::join(names, ","@)), input) == names,
        changed_files(None, input) == Seq::<Seq<char>>::empty(),
{
    reveal_strlit(",");
    assert(","@ =~= seq![',']);
    lemma_split_joined(names, ',');
    lemma_parts_stay(names);
}

/// The files that are read from the input are taken apart at line ends, spaces
/// and commas; what is given with the dash is the input's.
pub proof fn lemma_input_files(input: Seq<char>, i: int)
    requires
        0 <= i < input.len(),
    ensures
        changed_files(Some("-"@), input) == listed(commas(input)),
        commas(input).len() == input.len(),
        commas(input)[i] == (if input[i] == '\n' || input[i] == ' ' {
            ','
        } else {
            input[i]
        }),
{
}

/// Every file that is listed has a name, without white space around it.
pub proof fn lemma_listed_are_names(s: Seq<char>, i: int)
    requires
        0 <= i < listed(s).len(),
    ensures
        listed(s)[i].len() > 0,
        !text::is_space(listed(s)[i][0]),
        !text::is_space(listed(s)[i].last()),
{
    lemma_parts_are_names(text::split(s, ','), i);
}

proof fn lemma_parts_are_names(parts: Seq<Seq<char>>, i: int)
    requires
        0 <= i < nonempty_parts(parts).len(),
    ensures
        nonempty_parts(parts)[i].len() > 0,
        !text::is_space(nonempty_parts(parts)[i][0]),
        !text::is_space(nonempty_parts(parts)[i].last()),
    decreases parts.len(),
{
    if parts.len() > 0 {
        let before = nonempty_parts(parts.drop_last());
        if i < before.len() {
            lemma_parts_are_names(parts.drop_last(), i);
        } else {
            text::lemma_trim_ends(parts.last());
        }
    }
}

/// A run in which a job failed exits with 1; one that was broken off, with jobs
/// left, with 130; any other with 0.
pub proof fn lemma_exit_status(results: Seq<ResultModel>)
    ensures
        (exists|i: int| 0 <= i < results.len() && (#[trigger] results[i]).status == JobStatus::Failed)
            <==> exit_status(results) == 1,
        exit_status(results) == 130 ==> exists|i: int, j: int|
            0 <= i < results.len() && 0 <= j < results.len() && (#[trigger] results[i]).status
                == JobStatus::Cancelled && ((#[trigger] results[j]).status == JobStatus::Pending
                || results[j].status == JobStatus::Running),
        exit_status(results) == 0 || exit_status(results) == 1 || exit_status(results) == 130,
{
    if exit_status(results) == 130 {
        let i = choose|i: int|
            0 <= i < results.len() && (#[trigger] results[i]).status == JobStatus::Cancelled;
        assert(results[i].status == JobStatus::Cancelled);
        if has_status(results, JobStatus::Pending) {
            let j = choose|j: int|
                0 <= j < results.len() && (#[trigger] results[j]).status == JobStatus::Pending;
            assert(results[j].status == JobStatus::Pending);
        } else {
            let j = choose|j: int|
                0 <= j < results.len() && (#[trigger] results[j]).status == JobStatus::Running;
            assert(results[j].status == JobStatus::Running);
        }
    }
}

/// A run that was broken off while jobs were left, in which none failed, exits
/// with 130.
pub proof fn lemma_broken_off(results: Seq<ResultModel>, i: int, j: int)
    requires
        0 <= i < results.len(),
        0 <= j < results.len(),
        results[i].status == JobStatus::Cancelled,
        results[j].status == JobStatus::Pending || results[j].status == JobStatus::Running,
        forall|k: int| 0 <= k < results.len() ==> (#[trigger] results[k]).status != JobStatus::Failed,
    ensures
        exit_status(results) == 130,
{
}

/// Each error is listed with its number, its place and what it says.
pub proof fn lemma_errors_listed(errors: Seq<ValidationError>, i: int)
    requires
        0 <= i < errors.len(),
    ensures
        error_report(errors).len() == errors.len() + 1,
        error_report(errors)[i + 1] == "  "@ + numbers::decimal((i + 1) as nat) + ". ["@
            + errors[i].location@ + "] "@ + errors[i].message@,
{
    reveal_strlit("");
    reveal_strlit(". ");
    reveal_strlit("[");
    reveal_strlit(". [");
    let n = numbers::decimal((i + 1) as nat);
    assert("  "@ + n + ". "@ + ""@ + "["@ =~= "  "@ + n + ". ["@);
}

/// Warnings refuse a pipeline only where they are asked for and taken strictly.
pub proof fn lemma_warnings_refuse(args: ValidateArgs, warnings: nat)
    ensures
        args.accepted(0),
        !args.lint ==> args.accepted(warnings),
        !args.strict ==> args.accepted(warnings),
        args.lint && args.strict && warnings > 0 ==> !args.accepted(warnings),
{
}

/// What is removed counts once, but expired entries each; what could not be
/// removed does not count.
pub proof fn lemma_clean_count(t: CleanTarget, n: usize, e: String)
    ensures
        clean_count(CleanTarget::ExpiredCache, CleanOutcome::Removed(n)) == n,
        t != CleanTarget::ExpiredCache ==> clean_count(t, CleanOutcome::Removed(n)) == 1,
        clean_count(t, CleanOutcome::Failed(e)) == 0,
{
}

/// A size is shown in the unit in which it is at least one and below a
/// thousand and twenty-four.
pub proof fn lemma_size_units(bytes: u64)
    ensures
        bytes < 1024 ==> size_text(bytes) == numbers::decimal(bytes as nat) + " B"@,
        1024 <= bytes < 1024 * 1024 ==> text::ends_with(size_text(bytes), " KB"@),
        1024 * 1024 <= bytes < 1024 * 1024 * 1024 ==> text::ends_with(size_text(bytes), " MB"@),
        bytes >= 1024 * 1024 * 1024 ==> text::ends_with(size_text(bytes), " GB"@),
{
    if 1024 <= bytes < 1024 * 1024 {
        let n = numbers::fixed(rounding::half_even((bytes * 10) as nat, 0x400), 1);
        text::lemma_before_end(n, " KB"@);
    } else if 1024 * 1024 <= bytes < 1024 * 1024 * 1024 {
        let n = numbers::fixed(rounding::half_even((bytes * 10) as nat, 0x10_0000), 1);
        text::lemma_before_end(n, " MB"@);
    } else if bytes >= 1024 * 1024 * 1024 {
        let n = numbers::fixed(
            rounding::half_even(rounding::round53(bytes as nat) * 100, 0x4000_0000),
            2,
        );
        text::lemma_before_end(n, " GB"@);
    }
}

/// A whole number of kilobytes, megabytes or gigabytes is shown as that number.
pub proof fn lemma_whole_sizes(n: u64)
    requires
        0 < n < 1024,
    ensures
        size_text((n * 1024) as u64) == numbers::decimal(n as nat) + ".0 KB"@,
        size_text((n * 1024 * 1024) as u64) == numbers::decimal(n as nat) + ".0 MB"@,
        size_text((n * 1024 * 1024 * 1024) as u64) == numbers::decimal(n as nat) + ".00 GB"@,
{
    reveal_strlit(".0 KB");
    reveal_strlit(".0 MB");
    reveal_strlit(".00 GB");
    reveal_strlit(" KB");
    reveal_strlit(" MB");
    reveal_strlit(" GB");
    reveal_strlit(".");
    let m = n as nat;
    let d = numbers::decimal(m);
    rounding::lemma_half_even_exact(m * 10, 0x400);
    rounding::lemma_half_even_exact(m * 10, 0x10_0000);
    rounding::lemma_half_even_exact(m * 100, 0x4000_0000);
    rounding::lemma_round53_exact((n * 1024 * 1024 * 1024) as nat);
    assert(numbers::ten_pow(0) == 1);
    assert(numbers::ten_pow(1) == 10);
    assert(numbers::ten_pow(2) == 100) by {
        reveal_with_fuel(numbers::ten_pow, 3);
    }
    numbers::lemma_fixed(m, 0, 1);
    numbers::lemma_fixed(m, 0, 2);
    assert(numbers::zero_padded(0, 1) =~= seq!['0']) by {
        reveal_with_fuel(numbers::zero_padded, 2);
    }
    assert(numbers::zero_padded(0, 2) =~= seq!['0', '0']) by {
        reveal_with_fuel(numbers::zero_padded, 3);
    }
    assert(n * 1024 * 10 == m * 10 * 0x400);
    assert(n * 1024 * 1024 * 10 == m * 10 * 0x10_0000);
    assert(n * 1024 * 1024 * 1024 * 100 == m * 100 * 0x4000_0000);
    assert(size_text((n * 1024) as u64) =~= d + ".0 KB"@);
    assert(size_text((n * 1024 * 1024) as u64) =~= d + ".0 MB"@);
    assert(size_text((n * 1024 * 1024 * 1024) as u64) =~= d + ".00 GB"@);
}

/// The listing of a remote cache has a row for each entry, in their order, with
/// its key, its size and when it was last used, and the number of entries at
/// its end.
pub proof fn lemma_listing_rows(namespace: Seq<char>, entries: Seq<CacheEntryInfo>, i: int)
    requires
        0 <= i < entries.len(),
    ensures
        ({
            let lines = listing(namespace, entries);
            &&& lines.len() == entries.len() + 4
            &&& lines[2 + i] == "  "@ + numbers::pad_right(
                reporting::shortened(entries[i].key@, 48),
                50,
            ) + " "@ + numbers::pad_left(size_text(entries[i].size_bytes), 10) + "  last accessed: "@
                + entries[i].last_accessed@
            &&& lines.last() == "Total: "@ + numbers::decimal(entries.len()) + " entries"@
        }),
        listing(namespace, Seq::empty()).len() == 5,
        listing(namespace, Seq::empty())[2] == "  (empty)"@,
{
}

/// Each format of output stands for the mode of its name.
pub proof fn lemma_modes(f: OutputFormat)
    ensures
        mode_of(f) == OutputMode::Terminal <==> f == OutputFormat::Terminal,
        mode_of(f) == OutputMode::Json <==> f == OutputFormat::Json,
        mode_of(f) == OutputMode::Junit <==> f == OutputFormat::Junit,
        mode_of(f) == OutputMode::Html <==> f == OutputFormat::Html,
{
}

/// The overview tells the numbers of stages, of jobs, of jobs after expansion
/// and of variables, in this order.
pub proof fn lemma_overview(stages: nat, jobs: nat, expanded: nat, variables: nat)
    ensures
        ({
            let lines = overview(stages, jobs, expanded, variables);
            &&& lines.len() == 4
            &&& text::ends_with(lines[0], "Stages: "@ + numbers::decimal(stages))
            &&& text::ends_with(lines[1], "Jobs defined: "@ + numbers::decimal(jobs))
            &&& text::ends_with(lines[2], "expansion: "@ + numbers::decimal(expanded))
            &&& text::ends_with(lines[3], "Variables: "@ + numbers::decimal(variables))
        }),
{
    reveal_strlit("  - Stages: ");
    reveal_strlit("Stages: ");
    reveal_strlit("  - Jobs defined: ");
    reveal_strlit("Jobs defined: ");
    reveal_strlit("  - Jobs after matrix expansion: ");
    reveal_strlit("expansion: ");
    reveal_strlit("  - Variables: ");
    reveal_strlit("Variables: ");
    let lines = overview(stages, jobs, expanded, variables);
    let a = "Stages: "@ + numbers::decimal(stages);
    let b = "Jobs defined: "@ + numbers::decimal(jobs);
    let c = "expansion: "@ + numbers::decimal(expanded);
    let d = "Variables: "@ + numbers::decimal(variables);
    assert(lines[0].skip(lines[0].len() - a.len()) =~= a);
    assert(lines[1].skip(lines[1].len() - b.len()) =~= b);
    assert(lines[2].skip(lines[2].len() - c.len()) =~= c);
    assert(lines[3].skip(lines[3].len() - d.len()) =~= d);
}

/// Without warnings the check passes; else each warning is listed with its
/// number, its place and what it says.
pub proof fn lemma_warnings_listed(warnings: Seq<LintWarning>, i: int)
    requires
        0 <= i < warnings.len(),
    ensures
        lint_report(Seq::empty()).len() == 1,
        lint_report(warnings).len() == warnings.len() + 1,
        lint_report(warnings)[i + 1] == "  "@ + numbers::decimal((i + 1) as nat) + ". "@ + "[warning] "@
            + "["@ + warnings[i].location@ + "] "@ + warnings[i].message@,
{
}

/// What is told of a removal ends with the path, of a failure with the error.
pub proof fn lemma_clean_text(t: CleanTarget, path: Seq<char>, n: usize, e: String)
    ensures
        t != CleanTarget::ExpiredCache ==> text::ends_with(
            clean_text(t, path, CleanOutcome::Removed(n)),
            path,
        ),
        text::ends_with(clean_text(t, path, CleanOutcome::Failed(e)), e@),
        n > 0 ==> clean_text(CleanTarget::ExpiredCache, path, CleanOutcome::Removed(n)) == "✓ Cleaned "@
            + numbers::decimal(n as nat) + " expired cache entries"@,
        clean_text(CleanTarget::ExpiredCache, path, CleanOutcome::Removed(0))
            == "ℹ No expired cache entries found"@,
{
    text::lemma_before_end("✓ Removed logs directory: "@, path);
    text::lemma_before_end("✓ Removed artifacts directory: "@, path);
    text::lemma_before_end("✓ Removed cache directory: "@, path);
    text::lemma_before_end("✓ Removed: "@, path);
    text::lemma_before_end("⚠ Failed to remove logs: "@, e@);
    text::lemma_before_end("⚠ Failed to remove artifacts: "@, e@);
    text::lemma_before_end("⚠ Failed to remove cache: "@, e@);
    text::lemma_before_end("⚠ Failed to cleanup cache: "@, e@);
    text::lemma_before_end("⚠ Failed to remove "@ + path + ": "@, e@);
}

/// What is cleaned lies under these names in the project's directory.
pub proof fn lemma_target_names()
    ensures
        target_name(CleanTarget::Logs) == "logs"@,
        target_name(CleanTarget::Artifacts) == "artifacts"@,
        target_name(CleanTarget::Cache) == "cache"@,
        target_name(CleanTarget::ExpiredCache) == target_name(CleanTarget::Cache),
        target_name(CleanTarget::State) == "state.json"@,
        target_name(CleanTarget::Report) == "report.html"@,
        target_name(CleanTarget::Junit) == "junit.xml"@,
{
}

/// What is told of a transfer names the key and the file, and the namespace if
/// one was given.
pub proof fn lemma_transfer(
    what: Seq<char>,
    key: Seq<char>,
    file_label: Seq<char>,
    file: Seq<char>,
    namespace: Seq<char>,
)
    ensures
        transfer(what, key, file_label, file, None).len() == 3,
        transfer(what, key, file_label, file, Some(namespace)).len() == 4,
        transfer(what, key, file_label, file, Some(namespace))[3] == "  Namespace: "@ + namespace,
        transfer(what, key, file_label, file, None)[0] == what,
        transfer(what, key, file_label, file, None)[1] == "  Key: "@ + key,
        transfer(what, key, file_label, file, None)[2] == file_label + file,
        transfer(what, key, file_label, file, Some(namespace)).take(3) == transfer(
            what,
            key,
            file_label,
            file,
            None,
        ),
{
    assert(transfer(what, key, file_label, file, Some(namespace)).take(3) =~= transfer(
        what,
        key,
        file_label,
        file,
        None,
    ));
}

/// The statistics tell the entries, their size, the hits and the misses, and
/// the entries of each namespace in their order.
pub proof fn lemma_stats_report(stats: ServerStats, i: int)
    requires
        0 <= i < stats.namespace_counts.deep_view().order.len(),
    ensures
        ({
            let counts = stats.namespace_counts.deep_view();
            let lines = stats_report(stats);
            &&& lines.len() == 9 + counts.order.len()
            &&& lines[2] == "  Total entries: "@ + numbers::decimal(stats.total_entries as nat)
            &&& lines[3] == "  Total size: "@ + size_text(stats.total_size_bytes)
            &&& lines[4] == "  Hits (24h): "@ + numbers::decimal(stats.hits_last_24h as nat)
            &&& lines[5] == "  Misses (24h): "@ + numbers::decimal(stats.misses_last_24h as nat)
            &&& lines[8 + i] == "    "@ + counts.order[i] + ": "@ + numbers::decimal(
                counts.map[counts.order[i]] as nat,
            ) + " entries"@
        }),
{
}

/// Of what stands between commas, everything but white space is listed.
pub proof fn lemma_nothing_is_left_out(parts: Seq<Seq<char>>, x: Seq<char>)
    ensures
        nonempty_parts(parts).contains(x) <==> x.len() > 0 && exists|i: int|
            0 <= i < parts.len() && text::trim(#[trigger] parts[i]) == x,
    decreases parts.len(),
{
    if parts.len() > 0 {
        let d = parts.drop_last();
        let before = nonempty_parts(d);
        let all = nonempty_parts(parts);
        lemma_nothing_is_left_out(d, x);
        assert(parts[parts.len() - 1] == parts.last());
        if before.contains(x) {
            let k = before.index_of(x);
            assert(all[k] == x);
            let i = choose|i: int| 0 <= i < d.len() && text::trim(#[trigger] d[i]) == x;
            assert(text::trim(parts[i]) == x);
        }
        if text::trim(parts.last()).len() > 0 {
            assert(all[all.len() - 1] == text::trim(parts.last()));
        }
        if all.contains(x) && !before.contains(x) {
            let k = all.index_of(x);
            if k < before.len() {
                assert(before[k] == x);
            }
            assert(text::trim(parts[parts.len() - 1]) == x);
        }
        if x.len() > 0 && exists|i: int| 0 <= i < parts.len() && text::trim(#[trigger] parts[i]) == x {
            let i = choose|i: int| 0 <= i < parts.len() && text::trim(#[trigger] parts[i]) == x;
            if i < d.len() {
                assert(text::trim(d[i]) == x);
            }
        }
    }
}

} // verus!
