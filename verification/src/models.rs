//! Pipelines, jobs and their results.
use vstd::prelude::*;

use crate::string_map::{DeepClone, StringMap, Table};

verus! {

/// A pipeline definition.
#[derive(Debug, Clone)]
pub struct Pipeline {
    pub variables: StringMap<String>,
    pub stages: Vec<String>,
    pub jobs: Vec<Job>,
}

/// A job of a pipeline.
#[derive(Debug, Clone)]
pub struct Job {
    pub name: String,
    pub stage: Option<String>,
    pub depends_on: Vec<String>,
    pub steps: Vec<Step>,
    pub condition: Option<String>,
    pub timeout: Option<u64>,
    pub retry: Option<u32>,
    pub artifacts: Vec<ArtifactConfig>,
    pub cache: Vec<String>,
    pub services: Vec<ServiceConfig>,
    pub matrix: Option<StringMap<Vec<String>>>,
    pub needs_artifacts: Vec<String>,
    pub env: StringMap<String>,
    /// Where its steps run.
    pub isolation: IsolationMode,
    /// The image of the container in which they run, if they do.
    pub image: Option<String>,
}

/// The files that a job leaves for others.
#[derive(Debug, Clone)]
pub struct ArtifactConfig {
    pub paths: Vec<String>,
}

/// A service that runs beside a job.
#[derive(Debug, Clone)]
pub struct ServiceConfig {
    pub image: String,
    pub env: StringMap<String>,
}

/// One command of a job.
#[derive(Debug, Clone)]
pub struct Step {
    pub name: Option<String>,
    pub run: String,
    pub env: StringMap<String>,
    pub allow_failure: bool,
}

/// How far a job has come.
#[derive(Debug, Clone, Copy, PartialEq, Eq, Structural)]
pub enum JobStatus {
    Pending,
    Running,
    Success,
    Failed,
    Skipped,
    Cancelled,
}

/// An instant, with the offset of the local time zone from UTC.
#[derive(Debug, Clone, Copy, PartialEq, Eq, Structural)]
pub struct Timestamp {
    /// Whole seconds since 1970-01-01T00:00:00Z.
    pub secs: i64,
    /// Nanoseconds into that second.
    pub nanos: u32,
    /// Seconds by which local time is ahead of UTC.
    pub offset: i32,
}

/// What became of a job.
#[derive(Debug, Clone)]
pub struct JobResult {
    pub job_name: String,
    pub status: JobStatus,
    pub duration_ms: u64,
    pub retry_count: u32,
    pub message: Option<String>,
    pub outputs: StringMap<String>,
    pub started_at: Option<Timestamp>,
    pub finished_at: Option<Timestamp>,
}

/// A job while a pipeline runs.
#[derive(Debug, Clone)]
pub struct RuntimeJob {
    pub job: Job,
    pub status: JobStatus,
    pub result: Option<JobResult>,
    pub outputs: StringMap<String>,
    pub matrix_params: Option<StringMap<String>>,
}

/// What is kept of a run, to resume it later.
#[derive(Debug, Clone)]
pub struct StateFile {
    pub pipeline_hash: String,
    pub job_results: StringMap<JobResult>,
    pub timestamp: Timestamp,
}

/// Which changed files make a pipeline run.
#[derive(Debug, Clone)]
pub struct TriggerConfig {
    pub paths_include: Vec<String>,
    pub paths_exclude: Vec<String>,
}

/// How to reach the remote cache.
#[derive(Debug, Clone)]
pub struct RemoteCacheConfig {
    pub enabled: bool,
    pub url: Option<String>,
    pub token: Option<String>,
    pub namespace: Option<String>,
}

impl Default for RemoteCacheConfig {
    /// The remote cache is switched off.
    fn default() -> (r: RemoteCacheConfig)
        ensures
            !r.enabled,
            r.url is None,
            r.token is None,
            r.namespace is None,
    {
        RemoteCacheConfig { enabled: false, url: None, token: None, namespace: None }
    }
}

/// What the remote cache was used for during a run.
#[derive(Debug, Clone, Copy, PartialEq, Eq, Structural)]
pub struct RemoteCacheStats {
    pub hits: u64,
    pub misses: u64,
    pub pushes: u64,
}

/// How long the jobs of one run took.
#[derive(Debug, Clone)]
pub struct HistoryEntry {
    pub timestamp: Timestamp,
    pub job_durations: StringMap<u64>,
}

/// A job that took more than twice the average time.
#[derive(Debug, Clone)]
pub struct SlowJobInfo {
    pub job_name: String,
    pub duration_ms: u64,
    /// How long all jobs took together.
    pub total_ms: u64,
}

/// What is known of a slow job.
#[verifier::ext_equal]
pub struct SlowModel {
    pub job_name: Seq<char>,
    pub duration_ms: u64,
    pub total_ms: u64,
}

impl DeepView for SlowJobInfo {
    type V = SlowModel;

    open spec fn deep_view(&self) -> SlowModel {
        SlowModel {
            job_name: self.job_name@,
            duration_ms: self.duration_ms,
            total_ms: self.total_ms,
        }
    }
}

/// Where the steps of a job run.
#[derive(Debug, Clone, Copy, PartialEq, Eq, Structural)]
pub enum IsolationMode {
    Host,
    Container,
}

// ---------------------------------------------------------------------------
// What the types hold

/// What a step holds.
#[verifier::ext_equal]
pub struct StepModel {
    pub name: Option<Seq<char>>,
    pub run: Seq<char>,
    pub env: Table<Seq<char>>,
    pub allow_failure: bool,
}

/// What a service definition holds.
#[verifier::ext_equal]
pub struct ServiceModel {
    pub image: Seq<char>,
    pub env: Table<Seq<char>>,
}

/// What a job holds.
#[verifier::ext_equal]
pub struct JobModel {
    pub name: Seq<char>,
    pub stage: Option<Seq<char>>,
    pub depends_on: Seq<Seq<char>>,
    pub steps: Seq<StepModel>,
    pub condition: Option<Seq<char>>,
    pub timeout: Option<u64>,
    pub retry: Option<u32>,
    pub artifacts: Seq<Seq<Seq<char>>>,
    pub cache: Seq<Seq<char>>,
    pub services: Seq<ServiceModel>,
    pub matrix: Option<Table<Seq<Seq<char>>>>,
    pub needs_artifacts: Seq<Seq<char>>,
    pub env: Table<Seq<char>>,
    pub isolation: IsolationMode,
    pub image: Option<Seq<char>>,
}

/// What a pipeline holds.
#[verifier::ext_equal]
pub struct PipelineModel {
    pub variables: Table<Seq<char>>,
    pub stages: Seq<Seq<char>>,
    pub jobs: Seq<JobModel>,
}

/// What a job result holds.
#[verifier::ext_equal]
pub struct ResultModel {
    pub job_name: Seq<char>,
    pub status: JobStatus,
    pub duration_ms: u64,
    pub retry_count: u32,
    pub message: Option<Seq<char>>,
    pub outputs: Table<Seq<char>>,
    pub started_at: Option<Timestamp>,
    pub finished_at: Option<Timestamp>,
}

impl DeepView for JobStatus {
    type V = JobStatus;

    open spec fn deep_view(&self) -> JobStatus {
        *self
    }
}

impl DeepView for Timestamp {
    type V = Timestamp;

    open spec fn deep_view(&self) -> Timestamp {
        *self
    }
}

impl DeepView for Step {
    type V = StepModel;

    open spec fn deep_view(&self) -> StepModel {
        StepModel {
            name: self.name.deep_view(),
            run: self.run@,
            env: self.env.deep_view(),
            allow_failure: self.allow_failure,
        }
    }
}

impl DeepView for ArtifactConfig {
    type V = Seq<Seq<char>>;

    open spec fn deep_view(&self) -> Seq<Seq<char>> {
        self.paths.deep_view()
    }
}

impl DeepView for ServiceConfig {
    type V = ServiceModel;

    open spec fn deep_view(&self) -> ServiceModel {
        ServiceModel { image: self.image@, env: self.env.deep_view() }
    }
}

impl DeepView for Job {
    type V = JobModel;

    open spec fn deep_view(&self) -> JobModel {
        JobModel {
            name: self.name@,
            stage: self.stage.deep_view(),
            depends_on: self.depends_on.deep_view(),
            steps: self.steps.deep_view(),
            condition: self.condition.deep_view(),
            timeout: self.timeout,
            retry: self.retry,
            artifacts: self.artifacts.deep_view(),
            cache: self.cache.deep_view(),
            services: self.services.deep_view(),
            matrix: self.matrix.deep_view(),
            needs_artifacts: self.needs_artifacts.deep_view(),
            env: self.env.deep_view(),
            isolation: self.isolation,
            image: self.image.deep_view(),
        }
    }
}

impl DeepView for Pipeline {
    type V = PipelineModel;

    open spec fn deep_view(&self) -> PipelineModel {
        PipelineModel {
            variables: self.variables.deep_view(),
            stages: self.stages.deep_view(),
            jobs: self.jobs.deep_view(),
        }
    }
}

impl DeepView for JobResult {
    type V = ResultModel;

    open spec fn deep_view(&self) -> ResultModel {
        ResultModel {
            job_name: self.job_name@,
            status: self.status,
            duration_ms: self.duration_ms,
            retry_count: self.retry_count,
            message: self.message.deep_view(),
            outputs: self.outputs.deep_view(),
            started_at: self.started_at,
            finished_at: self.finished_at,
        }
    }
}

// ---------------------------------------------------------------------------
// Copies

impl DeepClone for JobStatus {
    fn deep_clone(&self) -> (r: Self) {
        *self
    }
}

impl DeepClone for Step {
    fn deep_clone(&self) -> (r: Self) {
        Step {
            name: self.name.deep_clone(),
            run: self.run.clone(),
            env: self.env.deep_clone(),
            allow_failure: self.allow_failure,
        }
    }
}

impl DeepClone for ArtifactConfig {
    fn deep_clone(&self) -> (r: Self) {
        ArtifactConfig { paths: self.paths.deep_clone() }
    }
}

impl DeepClone for ServiceConfig {
    fn deep_clone(&self) -> (r: Self) {
        ServiceConfig { image: self.image.clone(), env: self.env.deep_clone() }
    }
}

impl DeepClone for Job {
    fn deep_clone(&self) -> (r: Self) {
        Job {
            name: self.name.clone(),
            stage: self.stage.deep_clone(),
            depends_on: self.depends_on.deep_clone(),
            steps: self.steps.deep_clone(),
            condition: self.condition.deep_clone(),
            timeout: self.timeout,
            retry: self.retry,
            artifacts: self.artifacts.deep_clone(),
            cache: self.cache.deep_clone(),
            services: self.services.deep_clone(),
            matrix: self.matrix.deep_clone(),
            needs_artifacts: self.needs_artifacts.deep_clone(),
            env: self.env.deep_clone(),
            isolation: self.isolation,
            image: self.image.deep_clone(),
        }
    }
}

impl DeepClone for JobResult {
    fn deep_clone(&self) -> (r: Self) {
        JobResult {
            job_name: self.job_name.clone(),
            status: self.status,
            duration_ms: self.duration_ms,
            retry_count: self.retry_count,
            message: self.message.deep_clone(),
            outputs: self.outputs.deep_clone(),
            started_at: self.started_at,
            finished_at: self.finished_at,
        }
    }
}

// ---------------------------------------------------------------------------
// Statuses

/// The name of a status.
pub open spec fn status_name(s: JobStatus) -> Seq<char> {
    match s {
        JobStatus::Pending => "pending"@,
        JobStatus::Running => "running"@,
        JobStatus::Success => "success"@,
        JobStatus::Failed => "failed"@,
        JobStatus::Skipped => "skipped"@,
        JobStatus::Cancelled => "cancelled"@,
    }
}

impl JobStatus {
    /// The name of the status.
    pub fn name(&self) -> (r: &'static str)
        ensures
            r@ == status_name(*self),
    {
        match self {
            JobStatus::Pending => "pending",
            JobStatus::Running => "running",
            JobStatus::Success => "success",
            JobStatus::Failed => "failed",
            JobStatus::Skipped => "skipped",
            JobStatus::Cancelled => "cancelled",
        }
    }
}

impl RuntimeJob {
    /// A job that has not started.
    pub fn new(job: Job) -> (r: Self)
        ensures
            r.job == job,
            r.status == JobStatus::Pending,
            r.result is None,
            r.outputs.deep_view() == Table::<Seq<char>>::empty(),
            r.matrix_params is None,
    {
        RuntimeJob {
            job,
            status: JobStatus::Pending,
            result: None,
            outputs: StringMap::new(),
            matrix_params: None,
        }
    }
}

/// Different statuses have different names.
pub proof fn lemma_status_names_differ(a: JobStatus, b: JobStatus)
    requires
        status_name(a) == status_name(b),
    ensures
        a == b,
{
    reveal_strlit("pending");
    reveal_strlit("running");
    reveal_strlit("success");
    reveal_strlit("failed");
    reveal_strlit("skipped");
    reveal_strlit("cancelled");
    assert("pending"@[0] == 'p' && "running"@[0] == 'r' && "success"@[0] == 's');
    assert("failed"@[0] == 'f' && "skipped"@[0] == 's' && "cancelled"@[0] == 'c');
    assert("success"@[1] == 'u' && "skipped"@[1] == 'k');
}

/// The names of the statuses.
pub proof fn lemma_status_names()
    ensures
        status_name(JobStatus::Pending) == "pending"@,
        status_name(JobStatus::Running) == "running"@,
        status_name(JobStatus::Success) == "success"@,
        status_name(JobStatus::Failed) == "failed"@,
        status_name(JobStatus::Skipped) == "skipped"@,
        status_name(JobStatus::Cancelled) == "cancelled"@,
{
}

} // verus!
