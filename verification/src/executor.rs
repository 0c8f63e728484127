//! How a job runs: its steps, its attempts, what becomes of it.
use vstd::prelude::*;

use crate::clock;
use crate::clock::elapsed_ms_of;
use crate::color;
use crate::color::{paint, Ink};
use crate::logging::OutputMode;
use crate::models::{Job, JobResult, JobStatus, ResultModel, Step, Timestamp};
use crate::numbers;
use crate::numbers::{push_decimal, signed_decimal_str};
use crate::rounding;
use crate::string_map::{StringMap, Table};
use crate::text;
use crate::text::{append_str, behind_str, find_chars, from_chars, to_chars};
use crate::variables::{Scope, VariableResolver};

verus! {

/// The settings of an executor.
#[derive(Debug, Clone)]
pub struct ExecutorConfig {
    pub working_dir: String,
    pub default_timeout: u64,
    pub default_retry: u32,
    pub output_mode: OutputMode,
}

impl ExecutorConfig {
    /// The default settings for the given directory.
    pub fn in_dir(working_dir: &str) -> (r: ExecutorConfig)
        ensures
            r.working_dir@ == working_dir@,
            r.default_timeout == 3600,
            r.default_retry == 0,
            r.output_mode == OutputMode::Terminal,
    {
        ExecutorConfig {
            working_dir: working_dir.to_owned(),
            default_timeout: 3600,
            default_retry: 0,
            output_mode: OutputMode::Terminal,
        }
    }
}

/// Runs jobs.
#[derive(Debug, Clone)]
pub struct Executor {
    pub config: ExecutorConfig,
}

// ---------------------------------------------------------------------------
// Environments

/// The values of the first `n` variables, with their references resolved.
pub open spec fn resolved(scope: Scope, env: Table<Seq<char>>, n: int) -> Table<Seq<char>>
    decreases n,
{
    if n <= 0 {
        Table::empty()
    } else {
        resolved(scope, env, n - 1).insert(
            env.order[n - 1],
            scope.value_or_self(env.map[env.order[n - 1]]),
        )
    }
}

/// The environment of a command: all variables with their references resolved,
/// overridden by the outputs of earlier steps.
pub open spec fn command_env(scope: Scope, outputs: Table<Seq<char>>) -> Table<Seq<char>> {
    resolved(scope, scope.merged(), scope.merged().order.len() as int).insert_all(outputs)
}

/// The environment of a command in a step of a job.
pub fn command_env_of(
    resolver: &VariableResolver,
    job_env: &StringMap<String>,
    step_env: &StringMap<String>,
    outputs: &StringMap<String>,
) -> (r: StringMap<String>)
    ensures
        r.deep_view() == command_env(
            resolver.scope(job_env.deep_view(), step_env.deep_view()),
            outputs.deep_view(),
        ),
{
    let ghost scope = resolver.scope(job_env.deep_view(), step_env.deep_view());
    let merged = resolver.merged_env(job_env, step_env);
    let ghost table = merged.deep_view();
    let n: usize = merged.len();
    let mut env: StringMap<String> = StringMap::new();
    let mut i: usize = 0;
    while i < n
        invariant
            scope == resolver.scope(job_env.deep_view(), step_env.deep_view()),
            table == merged.deep_view(),
            n == table.order.len(),
            i <= n,
            env.deep_view() == resolved(scope, table, i as int),
        decreases n - i,
    {
        let value = resolver.try_resolve_value(merged.value_at(i).as_str(), job_env, step_env);
        env.insert(merged.key_at(i).clone(), value);
        i = i + 1;
    }
    env.insert_all(outputs);
    env
}

/// The command of a step with its references resolved.
pub fn command_of(resolver: &VariableResolver, job: &Job, step: &Step) -> (r: String)
    ensures
        r@ == resolver.scope(job.env.deep_view(), step.env.deep_view()).value_or_self(step.run@),
{
    resolver.try_resolve_value(step.run.as_str(), &job.env, &step.env)
}

/// The image of the container of an isolated job.
pub fn image_or_default(image: &Option<String>) -> (r: String)
    ensures
        r@ == (match *image {
            Some(i) => i@,
            None => "alpine:latest"@,
        }),
{
    match image {
        Some(i) => i.clone(),
        None => "alpine:latest".to_owned(),
    }
}

/// The shell that runs commands, and the argument before the command.
pub fn shell(is_windows: bool) -> (r: (&'static str, &'static str))
    ensures
        r.0@ == (if is_windows {
            "cmd"@
        } else {
            "bash"@
        }),
        r.1@ == (if is_windows {
            "/C"@
        } else {
            "-c"@
        }),
{
    if is_windows {
        ("cmd", "/C")
    } else {
        ("bash", "-c")
    }
}

// ---------------------------------------------------------------------------
// Outputs

/// The output that a line sets: its name and its value.
pub open spec fn set_output(line: Seq<char>) -> Option<(Seq<char>, Seq<char>)> {
    match text::behind(line, "::set-output name="@) {
        Some(rest) => match text::find_from(rest, "::"@, 0) {
            Some(i) => Some((rest.take(i), rest.skip(i + 2))),
            None => None,
        },
        None => None,
    }
}

/// The output that a line sets: its name and its value.
pub fn parse_set_output(line: &str) -> (r: Option<(String, String)>)
    ensures
        r.deep_view() == set_output(line@),
{
    match behind_str(line, "::set-output name=") {
        Some(rest) => {
            let v = to_chars(rest.as_str());
            let n: usize = v.len();
            let sep = to_chars("::");
            proof {
                reveal_strlit("::");
            }
            match find_chars(v.as_slice(), sep.as_slice()) {
                Some(i) => {
                    let name = vstd::slice::slice_subrange(v.as_slice(), 0, i);
                    let value = vstd::slice::slice_subrange(v.as_slice(), i + 2, n);
                    assert(name@ =~= rest@.take(i as int));
                    assert(value@ =~= rest@.skip(i + 2));
                    Some((from_chars(name), from_chars(value)))
                },
                None => None,
            }
        },
        None => None,
    }
}

/// The outputs after the lines of a step.
pub open spec fn outputs_after(outputs: Table<Seq<char>>, lines: Seq<Seq<char>>) -> Table<Seq<char>>
    decreases lines.len(),
{
    if lines.len() == 0 {
        outputs
    } else {
        let before = outputs_after(outputs, lines.drop_last());
        match set_output(lines.last()) {
            Some(o) => before.insert(o.0, o.1),
            None => before,
        }
    }
}

/// Takes note of the output that a line of a step sets, if it sets one.
pub fn note_line(outputs: &mut StringMap<String>, line: &str)
    ensures
        final(outputs).deep_view() == outputs_after(old(outputs).deep_view(), seq![line@]),
{
    let ghost before = outputs.deep_view();
    assert(seq![line@].drop_last() =~= Seq::<Seq<char>>::empty());
    assert(outputs_after(before, Seq::empty()) == before);
    assert(seq![line@].last() == line@);
    if let Some((name, value)) = parse_set_output(line) {
        outputs.insert(name, value);
    }
}

// ---------------------------------------------------------------------------
// Steps

/// The name of the step with index `i`.
pub open spec fn step_name(name: Option<Seq<char>>, i: nat) -> Seq<char> {
    match name {
        Some(n) => n,
        None => "step-"@ + numbers::decimal(i + 1),
    }
}

/// The name of the step with index `i`.
pub fn step_name_of(step: &Step, i: usize) -> (r: String)
    ensures
        r@ == step_name(step.name.deep_view(), i as nat),
{
    match &step.name {
        Some(n) => n.clone(),
        None => {
            let mut s = "step-".to_owned();
            push_decimal(&mut s, i as u128 + 1);
            s
        },
    }
}

/// The line that announces the step with index `i`.
pub fn step_header(step: &Step, i: usize) -> (r: String)
    ensures
        r@ == "--- Step "@ + numbers::decimal(i as nat + 1) + ": "@ + step_name(
            step.name.deep_view(),
            i as nat,
        ) + " ---"@,
{
    let mut s = "--- Step ".to_owned();
    push_decimal(&mut s, i as u128 + 1);
    append_str(&mut s, ": ");
    append_str(&mut s, step_name_of(step, i).as_str());
    append_str(&mut s, " ---");
    s
}

/// What is said if the command of a step could not be started.
pub fn spawn_error(step: &Step) -> (r: String)
    ensures
        r@ == "Failed to spawn shell command for step: "@ + (match step.name {
            Some(n) => n@,
            None => "unnamed"@,
        }),
{
    let mut s = "Failed to spawn shell command for step: ".to_owned();
    match &step.name {
        Some(n) => append_str(&mut s, n.as_str()),
        None => append_str(&mut s, "unnamed"),
    }
    s
}

/// What became of a command: nothing if it succeeded, else what is said of it.
pub fn exit_error(success: bool, code: Option<i32>) -> (r: Option<String>)
    ensures
        r.deep_view() == (if success {
            None
        } else {
            Some(
                "Process exited with non-zero status code: "@ + numbers::signed_decimal(
                    match code {
                        Some(c) => c as int,
                        None => -1,
                    },
                ),
            )
        }),
{
    if success {
        return None;
    }
    let code: i64 = match code {
        Some(c) => c as i64,
        None => -1,
    };
    let mut s = "Process exited with non-zero status code: ".to_owned();
    append_str(&mut s, signed_decimal_str(code).as_str());
    Some(s)
}

/// What happens behind a step.
#[derive(Debug, Clone)]
pub enum AfterStep {
    /// The next step runs; a line goes to the log if the step failed and may.
    Continue(Option<String>),
    /// The attempt fails with this error.
    Fail(String),
}

/// What happens behind the step with index `i`, which failed with the given
/// error or succeeded.
pub fn after_step(step: &Step, i: usize, error: &Option<String>) -> (r: AfterStep)
    ensures
        ({
            let name = step_name(step.name.deep_view(), i as nat);
            match (r, *error) {
                (AfterStep::Continue(None), None) => true,
                (AfterStep::Continue(Some(line)), Some(e)) => step.allow_failure && line@
                    == "Step '"@ + name + "' failed but allow_failure=true: "@ + e@,
                (AfterStep::Fail(m), Some(e)) => !step.allow_failure && m@ == "Step '"@ + name
                    + "' failed: "@ + e@,
                _ => false,
            }
        }),
{
    match error {
        None => AfterStep::Continue(None),
        Some(e) => {
            let mut s = "Step '".to_owned();
            append_str(&mut s, step_name_of(step, i).as_str());
            if step.allow_failure {
                append_str(&mut s, "' failed but allow_failure=true: ");
                append_str(&mut s, e.as_str());
                AfterStep::Continue(Some(s))
            } else {
                append_str(&mut s, "' failed: ");
                append_str(&mut s, e.as_str());
                AfterStep::Fail(s)
            }
        },
    }
}

/// An attempt at a job while its steps run: the index of the step to come, and
/// the outputs so far.
#[derive(Debug)]
pub struct Attempt {
    pub index: usize,
    pub outputs: StringMap<String>,
}

/// What a step needs to run: the line that announces it, its command and its
/// environment.
#[derive(Debug)]
pub struct StepPlan {
    pub header: String,
    pub command: String,
    pub env: StringMap<String>,
}

impl Attempt {
    /// An attempt of which no step has run.
    pub fn new() -> (r: Attempt)
        ensures
            r.index == 0,
            r.outputs.deep_view() == Table::<Seq<char>>::empty(),
    {
        Attempt { index: 0, outputs: StringMap::new() }
    }

    /// What the next step needs to run, or `None` if all steps have run.
    pub fn next_step(&self, job: &Job, resolver: &VariableResolver) -> (r: Option<StepPlan>)
        ensures
            match r {
                Some(plan) => {
                    let step = job.steps@[self.index as int];
                    let scope = resolver.scope(job.env.deep_view(), step.env.deep_view());
                    &&& self.index < job.steps@.len()
                    &&& plan.header@ == "--- Step "@ + numbers::decimal(self.index as nat + 1)
                        + ": "@ + step_name(step.name.deep_view(), self.index as nat) + " ---"@
                    &&& plan.command@ == scope.value_or_self(step.run@)
                    &&& plan.env.deep_view() == command_env(scope, self.outputs.deep_view())
                },
                None => self.index >= job.steps@.len(),
            },
    {
        if self.index >= job.steps.len() {
            return None;
        }
        let step = &job.steps[self.index];
        Some(
            StepPlan {
                header: step_header(step, self.index),
                command: command_of(resolver, job, step),
                env: command_env_of(resolver, &job.env, &step.env, &self.outputs),
            },
        )
    }

    /// Goes on behind a step that set the given outputs and failed with the
    /// given error or succeeded.
    pub fn step_ended(&mut self, job: &Job, outputs: &StringMap<String>, error: &Option<String>) -> (r: AfterStep)
        requires
            old(self).index < job.steps@.len(),
        ensures
            final(self).outputs.deep_view() == old(self).outputs.deep_view().insert_all(
                outputs.deep_view(),
            ),
            ({
                let step = job.steps@[old(self).index as int];
                let name = step_name(step.name.deep_view(), old(self).index as nat);
                match (r, *error) {
                    (AfterStep::Continue(None), None) => final(self).index == old(self).index + 1,
                    (AfterStep::Continue(Some(line)), Some(e)) => {
                        &&& step.allow_failure
                        &&& line@ == "Step '"@ + name + "' failed but allow_failure=true: "@ + e@
                        &&& final(self).index == old(self).index + 1
                    },
                    (AfterStep::Fail(m), Some(e)) => {
                        &&& !step.allow_failure
                        &&& m@ == "Step '"@ + name + "' failed: "@ + e@
                        &&& final(self).index == old(self).index
                    },
                    _ => false,
                }
            }),
    {
        let n: usize = job.steps.len();
        self.outputs.insert_all(outputs);
        let after = after_step(&job.steps[self.index], self.index, error);
        match &after {
            AfterStep::Continue(_) => {
                self.index = self.index + 1;
            },
            AfterStep::Fail(_) => {},
        }
        after
    }
}

/// What is said of an attempt that took too long.
pub fn timeout_error(timeout_secs: u64) -> (r: String)
    ensures
        r@ == "Job exceeded timeout of "@ + numbers::decimal(timeout_secs as nat) + " seconds"@,
{
    let mut s = "Job exceeded timeout of ".to_owned();
    push_decimal(&mut s, timeout_secs as u128);
    append_str(&mut s, " seconds");
    s
}

// ---------------------------------------------------------------------------
// Attempts

/// After how many milliseconds a job is slow: three times its average.
pub fn slow_threshold(average: Option<u64>) -> (r: Option<u64>)
    requires
        average matches Some(a) ==> a * 3 <= u64::MAX,
    ensures
        match (r, average) {
            (Some(t), Some(a)) => t == a * 3,
            (None, None) => true,
            _ => false,
        },
{
    match average {
        Some(a) => Some(a * 3),
        None => None,
    }
}

/// What is said of a job that is slow.
pub fn slow_warning(job_name: &str, threshold: u64) -> (r: String)
    ensures
        r@ == "!!! WARNING: Job '"@ + job_name@
            + "' is running slower than 3x historical average ("@ + numbers::decimal(
            threshold as nat,
        ) + "ms) !!!"@,
{
    let mut s = "!!! WARNING: Job '".to_owned();
    append_str(&mut s, job_name);
    append_str(&mut s, "' is running slower than 3x historical average (");
    push_decimal(&mut s, threshold as u128);
    append_str(&mut s, "ms) !!!");
    s
}

/// A job while it runs.
#[derive(Debug, Clone)]
pub struct JobRun {
    pub job_name: String,
    pub started_at: Timestamp,
    pub timeout_secs: u64,
    pub max_retries: u32,
    pub retry_count: u32,
}

/// What happens behind an attempt that failed.
#[derive(Debug, Clone)]
pub enum AfterFailure {
    /// Another attempt follows after so many seconds; a line goes to the log.
    Retry { backoff_secs: u64, line: String },
    /// The job has failed.
    GiveUp,
}

/// Two to the power of an exponent below 64.
pub fn power_of_two(e: u32) -> (r: u64)
    requires
        e < 64,
    ensures
        r == rounding::two(e as nat),
{
    let mut p: u64 = 1;
    let mut i: u32 = 0;
    while i < e
        invariant
            i <= e < 64,
            p == rounding::two(i as nat),
        decreases e - i,
    {
        proof {
            rounding::lemma_two_below(i as nat);
        }
        p = 2 * p;
        i = i + 1;
    }
    p
}

/// The first line of a job's log.
pub fn started_line(job_name: &str, when: &str) -> (r: String)
    ensures
        r@ == "=== Job '"@ + job_name@ + "' started at "@ + when@ + " ==="@,
{
    let mut s = "=== Job '".to_owned();
    append_str(&mut s, job_name);
    append_str(&mut s, "' started at ");
    append_str(&mut s, when);
    append_str(&mut s, " ===");
    s
}

/// A warning as a terminal shows it, in yellow.
pub fn shown_warning(warning: &str) -> (r: String)
    ensures
        color::shows(r@, color::ink_code(Ink::Yellow), warning@),
{
    paint(warning, Ink::Yellow)
}

/// The line on the container in which a job will run.
pub fn container_line(image: &str) -> (r: String)
    ensures
        r@ == "=== Starting container with image '"@ + image@ + "' ==="@,
{
    let mut s = "=== Starting container with image '".to_owned();
    append_str(&mut s, image);
    append_str(&mut s, "' ===");
    s
}

/// The line on a container that did not start.
pub fn container_failed_line(error: &str) -> (r: String)
    ensures
        r@ == "=== Failed to start container: "@ + error@ + " ==="@,
{
    let mut s = "=== Failed to start container: ".to_owned();
    append_str(&mut s, error);
    append_str(&mut s, " ===");
    s
}

impl Executor {
    /// An executor with the given settings.
    pub fn new(config: ExecutorConfig) -> (r: Executor)
        ensures
            r.config == config,
    {
        Executor { config }
    }

    /// A job that starts now.
    pub fn begin(&self, job: &Job, started_at: Timestamp) -> (r: JobRun)
        ensures
            r.job_name@ == job.name@,
            r.started_at == started_at,
            r.timeout_secs == (match job.timeout {
                Some(t) => t,
                None => self.config.default_timeout,
            }),
            r.max_retries == (match job.retry {
                Some(n) => n,
                None => self.config.default_retry,
            }),
            r.retry_count == 0,
    {
        let timeout_secs: u64 = match job.timeout {
            Some(t) => t,
            None => self.config.default_timeout,
        };
        let max_retries: u32 = match job.retry {
            Some(n) => n,
            None => self.config.default_retry,
        };
        JobRun {
            job_name: job.name.clone(),
            started_at,
            timeout_secs,
            max_retries,
            retry_count: 0,
        }
    }
}

impl JobRun {
    /// What becomes of a job that could not be set up: it fails, with what was
    /// attempted and the error as its message.
    pub fn setup_failed(&self, what: &str, error: &str, finished_at: Timestamp) -> (r: JobResult)
        ensures
            r.deep_view() == (ResultModel {
                job_name: self.job_name@,
                status: JobStatus::Failed,
                duration_ms: 0,
                retry_count: 0,
                message: Some(what@ + ": "@ + error@),
                outputs: Table::empty(),
                started_at: Some(self.started_at),
                finished_at: Some(finished_at),
            }),
    {
        let mut message = what.to_owned();
        append_str(&mut message, ": ");
        append_str(&mut message, error);
        JobResult {
            job_name: self.job_name.clone(),
            status: JobStatus::Failed,
            duration_ms: 0,
            retry_count: 0,
            message: Some(message),
            outputs: StringMap::new(),
            started_at: Some(self.started_at),
            finished_at: Some(finished_at),
        }
    }

    /// Decides what happens behind an attempt that failed: another one, after
    /// a pause that doubles each time, until there were as many as allowed.
    pub fn attempt_failed(&mut self, error: &str) -> (r: AfterFailure)
        requires
            old(self).retry_count < old(self).max_retries ==> old(self).retry_count < 63,
        ensures
            match r {
                AfterFailure::Retry { backoff_secs, line } => {
                    &&& old(self).retry_count < old(self).max_retries
                    &&& *final(self) == (JobRun {
                        retry_count: (old(self).retry_count + 1) as u32,
                        ..*old(self)
                    })
                    &&& backoff_secs == rounding::two(final(self).retry_count as nat)
                    &&& line@ == "!!! Job '"@ + old(self).job_name@ + "' attempt "@
                        + numbers::decimal(final(self).retry_count as nat) + " failed: "@ + error@
                        + ". Retrying in "@ + numbers::decimal(backoff_secs as nat) + "s..."@
                },
                AfterFailure::GiveUp => old(self).retry_count >= old(self).max_retries
                    && *final(self) == *old(self),
            },
    {
        if self.retry_count >= self.max_retries {
            return AfterFailure::GiveUp;
        }
        self.retry_count = self.retry_count + 1;
        let backoff_secs: u64 = power_of_two(self.retry_count);
        let mut line = "!!! Job '".to_owned();
        append_str(&mut line, self.job_name.as_str());
        append_str(&mut line, "' attempt ");
        push_decimal(&mut line, self.retry_count as u128);
        append_str(&mut line, " failed: ");
        append_str(&mut line, error);
        append_str(&mut line, ". Retrying in ");
        push_decimal(&mut line, backoff_secs as u128);
        append_str(&mut line, "s...");
        AfterFailure::Retry { backoff_secs, line }
    }

    /// What becomes of a job that succeeded, with its outputs.
    pub fn succeeded(&self, outputs: StringMap<String>, finished_at: Timestamp) -> (r: JobResult)
        requires
            self.started_at.in_range(),
            finished_at.in_range(),
        ensures
            r.deep_view() == (ResultModel {
                job_name: self.job_name@,
                status: JobStatus::Success,
                duration_ms: clock::elapsed_ms(self.started_at, finished_at) as u64,
                retry_count: self.retry_count,
                message: None,
                outputs: outputs.deep_view(),
                started_at: Some(self.started_at),
                finished_at: Some(finished_at),
            }),
    {
        JobResult {
            job_name: self.job_name.clone(),
            status: JobStatus::Success,
            duration_ms: elapsed_ms_of(self.started_at, finished_at),
            retry_count: self.retry_count,
            message: None,
            outputs,
            started_at: Some(self.started_at),
            finished_at: Some(finished_at),
        }
    }

    /// What becomes of a job whose last attempt failed with the given error.
    pub fn failed(&self, error: &str, finished_at: Timestamp) -> (r: JobResult)
        requires
            self.started_at.in_range(),
            finished_at.in_range(),
        ensures
            r.deep_view() == (ResultModel {
                job_name: self.job_name@,
                status: JobStatus::Failed,
                duration_ms: clock::elapsed_ms(self.started_at, finished_at) as u64,
                retry_count: self.retry_count,
                message: Some(error@),
                outputs: Table::empty(),
                started_at: Some(self.started_at),
                finished_at: Some(finished_at),
            }),
    {
        JobResult {
            job_name: self.job_name.clone(),
            status: JobStatus::Failed,
            duration_ms: elapsed_ms_of(self.started_at, finished_at),
            retry_count: self.retry_count,
            message: Some(error.to_owned()),
            outputs: StringMap::new(),
            started_at: Some(self.started_at),
            finished_at: Some(finished_at),
        }
    }
}

/// The last line of the log of a job that succeeded or failed.
pub open spec fn finished_text(r: ResultModel) -> Seq<char> {
    if r.status == JobStatus::Success {
        "=== Job '"@ + r.job_name + "' succeeded in "@ + numbers::decimal(r.duration_ms as nat)
            + "ms (retries: "@ + numbers::decimal(r.retry_count as nat) + ") ==="@
    } else {
        "=== Job '"@ + r.job_name + "' FAILED in "@ + numbers::decimal(r.duration_ms as nat)
            + "ms (retries: "@ + numbers::decimal(r.retry_count as nat) + ") - reason: "@ + (
        match r.message {
            Some(m) => m,
            None => Seq::empty(),
        }) + " ==="@
    }
}

/// The last line of the log of a job that succeeded or failed.
pub fn finished_line(result: &JobResult) -> (r: String)
    ensures
        r@ == finished_text(result.deep_view()),
{
    let mut s = "=== Job '".to_owned();
    append_str(&mut s, result.job_name.as_str());
    if result.status == JobStatus::Success {
        append_str(&mut s, "' succeeded in ");
    } else {
        append_str(&mut s, "' FAILED in ");
    }
    push_decimal(&mut s, result.duration_ms as u128);
    append_str(&mut s, "ms (retries: ");
    push_decimal(&mut s, result.retry_count as u128);
    if result.status == JobStatus::Success {
        append_str(&mut s, ") ===");
    } else {
        append_str(&mut s, ") - reason: ");
        match &result.message {
            Some(m) => append_str(&mut s, m.as_str()),
            None => {
                assert(s@ =~= s@ + Seq::<char>::empty());
            },
        }
        append_str(&mut s, " ===");
    }
    s
}

// ---------------------------------------------------------------------------
// Laws

/// Whether the first `::` behind a name is the one that follows it: the name
/// holds none and does not end in a colon.
pub open spec fn ends_at_colons(name: Seq<char>) -> bool {
    forall|i: int|
        0 <= i < name.len() && #[trigger] name[i] == ':' ==> i + 1 < name.len() && name[i + 1] != ':'
}

/// The output that a line sets is read back from the line, unless its name
/// holds `::` or ends in a colon.
pub proof fn lemma_set_output_reads_back(name: Seq<char>, value: Seq<char>)
    requires
        ends_at_colons(name),
    ensures
        set_output("::set-output name="@ + name + "::"@ + value) == Some((name, value)),
{
    reveal_strlit("::");
    let p = "::set-output name="@;
    let rest = name + "::"@ + value;
    let line = p + name + "::"@ + value;
    assert(line =~= p + rest);
    assert(line.take(p.len() as int) =~= p);
    assert(line.skip(p.len() as int) =~= rest);
    lemma_find_pair(name, value, 0);
    assert(rest.take(name.len() as int) =~= name);
    assert(rest.skip(name.len() as int + 2) =~= value);
}

proof fn lemma_find_pair(name: Seq<char>, value: Seq<char>, i: int)
    requires
        ends_at_colons(name),
        0 <= i <= name.len(),
    ensures
        text::find_from(name + "::"@ + value, "::"@, i) == Some(name.len() as int),
    decreases name.len() - i,
{
    reveal_strlit("::");
    let s = name + "::"@ + value;
    if i < name.len() {
        assert(s[i] == name[i]);
        assert(i + 1 < name.len() ==> s[i + 1] == name[i + 1]);
        assert(s.subrange(i, i + 2)[0] == s[i]);
        assert(s.subrange(i, i + 2)[1] == s[i + 1]);
        assert("::"@[0] == ':' && "::"@[1] == ':');
        lemma_find_pair(name, value, i + 1);
    } else {
        assert(s.subrange(i, i + 2) =~= "::"@);
    }
}

/// The pause before a retry is twice as long as the one before.
pub proof fn lemma_pauses_double(retry: nat)
    ensures
        rounding::two(retry + 1) == 2 * rounding::two(retry),
{
}

/// Outputs that steps set override the variables of the same name.
pub proof fn lemma_outputs_override(scope: Scope, outputs: Table<Seq<char>>, key: Seq<char>)
    requires
        outputs.wf(),
        outputs.map.contains_key(key),
    ensures
        command_env(scope, outputs).get(key) == Some(outputs.map[key]),
{
    resolved(scope, scope.merged(), scope.merged().order.len() as int).lemma_insert_all_get(
        outputs,
        key,
    );
}

proof fn lemma_resolved(scope: Scope, env: Table<Seq<char>>, n: int, k: Seq<char>)
    requires
        0 <= n <= env.order.len(),
    ensures
        resolved(scope, env, n).get(k) == (if exists|i: int|
            0 <= i < n && #[trigger] env.order[i] == k {
            Some(scope.value_or_self(env.map[k]))
        } else {
            None
        }),
    decreases n,
{
    if n > 0 {
        lemma_resolved(scope, env, n - 1, k);
        if env.order[n - 1] != k {
            assert((exists|i: int| 0 <= i < n && #[trigger] env.order[i] == k) == (exists|i: int|
                0 <= i < n - 1 && #[trigger] env.order[i] == k));
        }
    }
}

/// A command sees every variable that no step has set as an output: of the
/// step, else of the job, else of the pipeline, else of the system, with the
/// references in its value resolved; and no other.
pub proof fn lemma_env_reaches_command(scope: Scope, outputs: Table<Seq<char>>, k: Seq<char>)
    requires
        scope.system.wf(),
        scope.globals.wf(),
        scope.job.wf(),
        scope.step.wf(),
        outputs.wf(),
        !outputs.map.contains_key(k),
    ensures
        command_env(scope, outputs).get(k) == (if scope.step.map.contains_key(k) {
            Some(scope.value_or_self(scope.step.map[k]))
        } else if scope.job.map.contains_key(k) {
            Some(scope.value_or_self(scope.job.map[k]))
        } else if scope.globals.map.contains_key(k) {
            Some(scope.value_or_self(scope.globals.map[k]))
        } else if scope.system.map.contains_key(k) {
            Some(scope.value_or_self(scope.system.map[k]))
        } else {
            None
        }),
{
    let a = scope.system.insert_all(scope.globals);
    let b = a.insert_all(scope.job);
    let merged = scope.merged();
    scope.system.lemma_insert_all_wf(scope.globals);
    a.lemma_insert_all_wf(scope.job);
    b.lemma_insert_all_wf(scope.step);
    scope.system.lemma_insert_all_get(scope.globals, k);
    a.lemma_insert_all_get(scope.job, k);
    b.lemma_insert_all_get(scope.step, k);
    let n = merged.order.len() as int;
    lemma_resolved(scope, merged, n, k);
    resolved(scope, merged, n).lemma_insert_all_get(outputs, k);
    if merged.map.contains_key(k) {
        let i = merged.order.index_of(k);
        assert(merged.order[i] == k);
    } else {
        assert forall|i: int| 0 <= i < n implies #[trigger] merged.order[i] != k by {
            assert(merged.order.contains(merged.order[i]));
        }
    }
}

/// Every name that the merged environment holds and that no step has set as an
/// output is there for the command, with its value there resolved.
pub proof fn lemma_merged_env_is_resolved(scope: Scope, outputs: Table<Seq<char>>, k: Seq<char>)
    requires
        scope.system.wf(),
        scope.globals.wf(),
        scope.job.wf(),
        scope.step.wf(),
        outputs.wf(),
        !outputs.map.contains_key(k),
        scope.merged().map.contains_key(k),
    ensures
        command_env(scope, outputs).get(k) == Some(scope.value_or_self(scope.merged().map[k])),
{
    lemma_env_reaches_command(scope, outputs, k);
    let a = scope.system.insert_all(scope.globals);
    let b = a.insert_all(scope.job);
    scope.system.lemma_insert_all_get(scope.globals, k);
    a.lemma_insert_all_get(scope.job, k);
    b.lemma_insert_all_get(scope.step, k);
}

/// A variable of the step whose value holds no dollar sign reaches the command
/// as it is written, unless an earlier step has set an output of that name.
pub proof fn lemma_plain_step_variable(scope: Scope, outputs: Table<Seq<char>>, k: Seq<char>)
    requires
        scope.system.wf(),
        scope.globals.wf(),
        scope.job.wf(),
        scope.step.wf(),
        outputs.wf(),
        !outputs.map.contains_key(k),
        scope.step.map.contains_key(k),
        !scope.step.map[k].contains('$'),
    ensures
        command_env(scope, outputs).get(k) == Some(scope.step.map[k]),
{
    lemma_env_reaches_command(scope, outputs, k);
    crate::variables::lemma_no_dollar(scope.step.map[k]);
    crate::variables::lemma_plain_text(scope, scope.step.map[k]);
}

/// A line sets an output only if it begins with the marker and holds `::`
/// behind it; the name and the value are then what stands around the first.
pub proof fn lemma_set_output_needs_marker(line: Seq<char>)
    ensures
        set_output(line) matches Some(o) ==> line == "::set-output name="@ + o.0 + "::"@ + o.1,
        !text::starts_with(line, "::set-output name="@) ==> set_output(line) is None,
{
    reveal_strlit("::");
    let p = "::set-output name="@;
    if let Some(rest) = text::behind(line, p) {
        text::lemma_find_from(rest, "::"@, 0);
        if let Some(i) = text::find_from(rest, "::"@, 0) {
            assert(rest =~= rest.take(i) + "::"@ + rest.skip(i + 2)) by {
                assert(rest.subrange(i, i + 2) =~= "::"@);
                assert forall|k: int| 0 <= k < rest.len() implies rest[k] == (rest.take(i) + "::"@
                    + rest.skip(i + 2))[k] by {
                    if i <= k < i + 2 {
                        assert(rest.subrange(i, i + 2)[k - i] == rest[k]);
                    }
                }
            }
            assert(line =~= p + rest);
            assert(line =~= p + rest.take(i) + "::"@ + rest.skip(i + 2));
        }
    }
}

/// Reading lines one behind the other is reading them together.
pub proof fn lemma_outputs_in_turn(outputs: Table<Seq<char>>, a: Seq<Seq<char>>, b: Seq<Seq<char>>)
    ensures
        outputs_after(outputs, a + b) == outputs_after(outputs_after(outputs, a), b),
    decreases b.len(),
{
    if b.len() == 0 {
        assert(a + b =~= a);
    } else {
        lemma_outputs_in_turn(outputs, a, b.drop_last());
        assert((a + b).drop_last() =~= a + b.drop_last());
        assert((a + b).last() == b.last());
    }
}

/// A line that sets an output gives that output its value and leaves the
/// others; any other line changes nothing.
pub proof fn lemma_line_sets_output(
    outputs: Table<Seq<char>>,
    name: Seq<char>,
    value: Seq<char>,
    line: Seq<char>,
    key: Seq<char>,
)
    requires
        ends_at_colons(name),
        !text::starts_with(line, "::set-output name="@),
    ensures
        outputs_after(outputs, seq!["::set-output name="@ + name + "::"@ + value]).get(key) == (
        if key == name {
            Some(value)
        } else {
            outputs.get(key)
        }),
        outputs_after(outputs, seq![line]) == outputs,
{
    let s = "::set-output name="@ + name + "::"@ + value;
    lemma_set_output_reads_back(name, value);
    assert(seq![s].drop_last() =~= Seq::<Seq<char>>::empty());
    assert(seq![s].last() == s);
    assert(seq![line].drop_last() =~= Seq::<Seq<char>>::empty());
    assert(seq![line].last() == line);
    assert(outputs_after(outputs, Seq::empty()) == outputs);
}

/// A step with a name goes by it; steps without one have names that differ.
pub proof fn lemma_step_names(name: Seq<char>, i: nat, j: nat)
    ensures
        step_name(Some(name), i) == name,
        step_name(None, i) == step_name(None, j) ==> i == j,
{
    if step_name(None, i) == step_name(None, j) {
        reveal_strlit("step-");
        let a = step_name(None, i);
        let b = step_name(None, j);
        assert(a.skip(5) =~= numbers::decimal(i + 1));
        assert(b.skip(5) =~= numbers::decimal(j + 1));
        numbers::lemma_decimal_injective(i + 1, j + 1);
    }
}

/// The last line of a log tells whether the job succeeded, and of a job that
/// failed what was said of it.
pub proof fn lemma_finished_text(r: ResultModel, said: Seq<char>)
    requires
        r.message == Some(said) || (r.message is None && said == Seq::<char>::empty()),
    ensures
        text::starts_with(finished_text(r), "=== Job '"@ + r.job_name),
        r.status == JobStatus::Success ==> text::ends_with(
            finished_text(r),
            "ms (retries: "@ + numbers::decimal(r.retry_count as nat) + ") ==="@,
        ) && text::starts_with(
            finished_text(r),
            "=== Job '"@ + r.job_name + "' succeeded in "@ + numbers::decimal(r.duration_ms as nat),
        ),
        r.status != JobStatus::Success ==> text::ends_with(
            finished_text(r),
            ") - reason: "@ + said + " ==="@,
        ) && text::starts_with(
            finished_text(r),
            "=== Job '"@ + r.job_name + "' FAILED in "@ + numbers::decimal(r.duration_ms as nat),
        ),
{
    let t = finished_text(r);
    let start = "=== Job '"@ + r.job_name;
    let ms = numbers::decimal(r.duration_ms as nat);
    let n = numbers::decimal(r.retry_count as nat);
    if r.status == JobStatus::Success {
        let front = start + "' succeeded in "@ + ms;
        let end = "ms (retries: "@ + n + ") ==="@;
        assert(t =~= front + end);
        lemma_both_ends(front, end);
        assert(t.take(start.len() as int) =~= start);
    } else {
        let front = start + "' FAILED in "@ + ms;
        let mid = "ms (retries: "@ + n;
        let end = ") - reason: "@ + said + " ==="@;
        assert(t =~= front + mid + end);
        lemma_both_ends(front + mid, end);
        assert(t =~= front + (mid + end));
        lemma_both_ends(front, mid + end);
        assert(t.take(start.len() as int) =~= start);
    }
}

proof fn lemma_both_ends(a: Seq<char>, b: Seq<char>)
    ensures
        text::starts_with(a + b, a),
        text::ends_with(a + b, b),
{
    assert((a + b).take(a.len() as int) =~= a);
    assert((a + b).skip((a + b).len() - b.len()) =~= b);
}

/// A step without a name is numbered, from one.
pub proof fn lemma_unnamed_step(i: nat)
    ensures
        step_name(None, i) == "step-"@ + numbers::decimal(i + 1),
        step_name(None, 0) == "step-1"@,
{
    reveal_strlit("step-");
    reveal_strlit("step-1");
    assert(numbers::decimal(1) =~= seq!['1']);
    assert(step_name(None, 0) =~= "step-1"@);
}

} // verus!
