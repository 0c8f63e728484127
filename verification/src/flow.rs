//! What is done before and after a job runs.
use vstd::prelude::*;

use crate::models::{Job, JobModel, JobResult, JobStatus, ResultModel, Timestamp};
use crate::scheduler;
use crate::scheduler::unrun_result;
use crate::string_map::Table;
use crate::text::append_str;
use crate::variables;
use crate::variables::VariableResolver;

verus! {

/// What is done next for a job that has started.
#[derive(Debug, Clone, Copy, PartialEq, Eq, Structural)]
pub enum JobStage {
    /// Fetch the artifacts of the job's `index`-th supplier.
    FetchArtifacts { index: usize },
    /// Restore the cache from this machine.
    RestoreCache,
    /// Download the cache, and restore it.
    DownloadCache,
    /// Start the services.
    StartServices { restored: bool },
    /// Run the steps, unless the run is cancelled or the cache was restored.
    Run { restored: bool },
    /// Package the artifacts.
    Package { restored: bool },
    /// Upload the packaged artifacts.
    UploadArtifacts { restored: bool },
    /// Save the cache on this machine.
    SaveCache,
    /// Upload the cache.
    UploadCache,
    /// Stop the services.
    StopServices,
    /// Nothing is left to be done.
    Over,
}

/// What follows when all artifacts are there.
pub open spec fn cache_stage(job: JobModel) -> JobStage {
    if job.cache.len() > 0 {
        JobStage::RestoreCache
    } else {
        JobStage::StartServices { restored: false }
    }
}

/// What follows when the artifacts are packaged: a cache that was not restored
/// is saved.
pub open spec fn save_stage(job: JobModel, restored: bool) -> JobStage {
    if job.cache.len() > 0 && !restored {
        JobStage::SaveCache
    } else {
        JobStage::StopServices
    }
}

/// What is done first.
pub open spec fn first_stage(job: JobModel) -> JobStage {
    if job.needs_artifacts.len() > 0 {
        JobStage::FetchArtifacts { index: 0 }
    } else {
        cache_stage(job)
    }
}

/// What follows a stage. It went well if there was a cache to restore or to
/// download, if the job succeeded, if there were artifacts to package, if the
/// cache was saved.
pub open spec fn next_stage(job: JobModel, remote: bool, stage: JobStage, went_well: bool) -> JobStage {
    match stage {
        JobStage::FetchArtifacts { index } => if index + 1 < job.needs_artifacts.len() {
            JobStage::FetchArtifacts { index: (index + 1) as usize }
        } else {
            cache_stage(job)
        },
        JobStage::RestoreCache => if !went_well && remote {
            JobStage::DownloadCache
        } else {
            JobStage::StartServices { restored: went_well }
        },
        JobStage::DownloadCache => JobStage::StartServices { restored: went_well },
        JobStage::StartServices { restored } => JobStage::Run { restored },
        JobStage::Run { restored } => if !went_well {
            JobStage::StopServices
        } else if job.artifacts.len() > 0 {
            JobStage::Package { restored }
        } else {
            save_stage(job, restored)
        },
        JobStage::Package { restored } => if went_well && remote {
            JobStage::UploadArtifacts { restored }
        } else {
            save_stage(job, restored)
        },
        JobStage::UploadArtifacts { restored } => save_stage(job, restored),
        JobStage::SaveCache => if went_well && remote {
            JobStage::UploadCache
        } else {
            JobStage::StopServices
        },
        JobStage::UploadCache => JobStage::StopServices,
        JobStage::StopServices => JobStage::Over,
        JobStage::Over => JobStage::Over,
    }
}

impl JobStage {
    /// What is done first for a job.
    pub fn first(job: &Job) -> (r: JobStage)
        ensures
            r == first_stage(job.deep_view()),
    {
        if job.needs_artifacts.len() > 0 {
            JobStage::FetchArtifacts { index: 0 }
        } else {
            JobStage::after_artifacts(job)
        }
    }

    fn after_artifacts(job: &Job) -> (r: JobStage)
        ensures
            r == cache_stage(job.deep_view()),
    {
        if job.cache.len() > 0 {
            JobStage::RestoreCache
        } else {
            JobStage::StartServices { restored: false }
        }
    }

    fn after_packaging(job: &Job, restored: bool) -> (r: JobStage)
        ensures
            r == save_stage(job.deep_view(), restored),
    {
        if job.cache.len() > 0 && !restored {
            JobStage::SaveCache
        } else {
            JobStage::StopServices
        }
    }

    /// What follows this stage of a job; `remote` if there is a remote cache.
    pub fn next(self, job: &Job, remote: bool, went_well: bool) -> (r: JobStage)
        ensures
            r == next_stage(job.deep_view(), remote, self, went_well),
    {
        match self {
            JobStage::FetchArtifacts { index } => {
                let n: usize = job.needs_artifacts.len();
                if index < n && index + 1 < n {
                    JobStage::FetchArtifacts { index: index + 1 }
                } else {
                    JobStage::after_artifacts(job)
                }
            },
            JobStage::RestoreCache => {
                if !went_well && remote {
                    JobStage::DownloadCache
                } else {
                    JobStage::StartServices { restored: went_well }
                }
            },
            JobStage::DownloadCache => JobStage::StartServices { restored: went_well },
            JobStage::StartServices { restored } => JobStage::Run { restored },
            JobStage::Run { restored } => {
                if !went_well {
                    JobStage::StopServices
                } else if job.artifacts.len() > 0 {
                    JobStage::Package { restored }
                } else {
                    JobStage::after_packaging(job, restored)
                }
            },
            JobStage::Package { restored } => {
                if went_well && remote {
                    JobStage::UploadArtifacts { restored }
                } else {
                    JobStage::after_packaging(job, restored)
                }
            },
            JobStage::UploadArtifacts { restored } => JobStage::after_packaging(job, restored),
            JobStage::SaveCache => {
                if went_well && remote {
                    JobStage::UploadCache
                } else {
                    JobStage::StopServices
                }
            },
            JobStage::UploadCache => JobStage::StopServices,
            JobStage::StopServices => JobStage::Over,
            JobStage::Over => JobStage::Over,
        }
    }
}

/// What becomes of a job whose steps need not run, because the run is
/// cancelled or its cache was restored.
pub open spec fn settled(
    name: Seq<char>,
    cancelled: bool,
    restored: bool,
    now: Timestamp,
) -> Option<ResultModel> {
    if cancelled {
        Some(scheduler::unrun(name, JobStatus::Cancelled, "Cancelled before start"@, now))
    } else if restored {
        Some(scheduler::unrun(name, JobStatus::Success, "Skipped (cache hit)"@, now))
    } else {
        None
    }
}

/// What becomes of a job whose steps need not run; `None` if they have to.
pub fn settle(name: &str, cancelled: bool, restored: bool, now: Timestamp) -> (r: Option<JobResult>)
    ensures
        r.deep_view() == settled(name@, cancelled, restored, now),
{
    if cancelled {
        Some(unrun_result(name, JobStatus::Cancelled, "Cancelled before start", now))
    } else if restored {
        Some(unrun_result(name, JobStatus::Success, "Skipped (cache hit)", now))
    } else {
        None
    }
}

/// The key under which packaged artifacts are uploaded.
pub open spec fn artifact_key(job: Seq<char>, hash: Seq<char>) -> Seq<char> {
    "artifact-"@ + job + "-"@ + hash
}

/// The key under which packaged artifacts are uploaded.
pub fn artifact_key_str(job: &str, hash: &str) -> (r: String)
    ensures
        r@ == artifact_key(job@, hash@),
{
    let mut s = "artifact-".to_owned();
    append_str(&mut s, job);
    append_str(&mut s, "-");
    append_str(&mut s, hash);
    s
}

/// The outputs of jobs with the first `n` of a result.
pub open spec fn with_outputs(
    outputs: Table<Table<Seq<char>>>,
    job: Seq<char>,
    new: Table<Seq<char>>,
    n: int,
) -> Table<Table<Seq<char>>>
    decreases n,
{
    if n <= 0 {
        outputs
    } else {
        variables::with_output(
            with_outputs(outputs, job, new, n - 1),
            job,
            new.order[n - 1],
            new.map[new.order[n - 1]],
        )
    }
}

/// The outputs of jobs when one has ended: those of a job that succeeded are
/// added.
pub open spec fn recorded(outputs: Table<Table<Seq<char>>>, result: ResultModel) -> Table<Table<Seq<char>>> {
    if result.status == JobStatus::Success {
        with_outputs(outputs, result.job_name, result.outputs, result.outputs.order.len() as int)
    } else {
        outputs
    }
}

/// Keeps the outputs of a job that succeeded, so that others can refer to them.
pub fn record_outputs(resolver: &mut VariableResolver, result: &JobResult)
    ensures
        final(resolver).outputs() == recorded(old(resolver).outputs(), result.deep_view()),
        final(resolver).globals() == old(resolver).globals(),
        final(resolver).system() == old(resolver).system(),
{
    match result.status {
        JobStatus::Success => {},
        _ => {
            return;
        },
    }
    let ghost new = result.outputs.deep_view();
    let ghost first = resolver.outputs();
    let ghost globals = resolver.globals();
    let ghost system = resolver.system();
    let n: usize = result.outputs.len();
    let mut i: usize = 0;
    while i < n
        invariant
            new == result.outputs.deep_view(),
            new.wf(),
            n == new.order.len(),
            i <= n,
            resolver.outputs() == with_outputs(first, result.job_name@, new, i as int),
            resolver.globals() == globals,
            resolver.system() == system,
        decreases n - i,
    {
        let key = result.outputs.key_at(i).as_str();
        let value = result.outputs.value_at(i).as_str();
        resolver.set_job_output(result.job_name.as_str(), key, value);
        i = i + 1;
    }
}

// ---------------------------------------------------------------------------
// Laws

/// How many stages may still follow.
pub open spec fn stages_left(job: JobModel, stage: JobStage) -> int {
    match stage {
        JobStage::FetchArtifacts { index } => if index < job.needs_artifacts.len() {
            10 + job.needs_artifacts.len() - index
        } else {
            10
        },
        JobStage::RestoreCache => 9,
        JobStage::DownloadCache => 8,
        JobStage::StartServices { .. } => 7,
        JobStage::Run { .. } => 6,
        JobStage::Package { .. } => 5,
        JobStage::UploadArtifacts { .. } => 4,
        JobStage::SaveCache => 3,
        JobStage::UploadCache => 2,
        JobStage::StopServices => 1,
        JobStage::Over => 0,
    }
}

/// Whatever happens, a job that has started is over after finitely many stages.
pub proof fn lemma_flow_ends(job: JobModel, remote: bool, stage: JobStage, went_well: bool)
    requires
        job.needs_artifacts.len() <= usize::MAX,
    ensures
        stage != JobStage::Over ==> 0 <= stages_left(
            job,
            next_stage(job, remote, stage, went_well),
        ) < stages_left(job, stage),
        stages_left(job, stage) == 0 ==> stage == JobStage::Over,
{
}

/// The services are stopped last: nothing else leads to the end.
pub proof fn lemma_services_stopped(job: JobModel, remote: bool, stage: JobStage, went_well: bool)
    requires
        stage != JobStage::Over,
        next_stage(job, remote, stage, went_well) == JobStage::Over,
    ensures
        stage == JobStage::StopServices,
{
}

/// Without a remote cache nothing is uploaded or downloaded.
pub proof fn lemma_remote_unused(job: JobModel, stage: JobStage, went_well: bool)
    ensures
        !(next_stage(job, false, stage, went_well) is DownloadCache),
        !(next_stage(job, false, stage, went_well) is UploadArtifacts),
        !(next_stage(job, false, stage, went_well) is UploadCache),
{
}

/// A cache is saved only after the job succeeded, and never one that was just
/// restored.
pub proof fn lemma_saved_when_new(job: JobModel, remote: bool, stage: JobStage, went_well: bool)
    requires
        next_stage(job, remote, stage, went_well) == JobStage::SaveCache,
    ensures
        job.cache.len() > 0,
        stage == (JobStage::Run { restored: false }) && went_well || stage == (JobStage::Package {
            restored: false,
        }) || stage == (JobStage::UploadArtifacts { restored: false }),
{
}

/// After a failure nothing is packaged, saved or uploaded.
pub proof fn lemma_failure_keeps_nothing(job: JobModel, remote: bool, restored: bool)
    ensures
        next_stage(job, remote, JobStage::Run { restored }, false) == JobStage::StopServices,
{
}

/// A cache that was not restored is saved once the job has succeeded, before
/// the services stop: whether or not there are artifacts, whether or not there
/// was anything to package, and with a remote cache or without.
pub proof fn lemma_new_cache_is_saved(job: JobModel, remote: bool, packaged: bool, uploaded: bool)
    requires
        job.cache.len() > 0,
    ensures
        ({
            let a = next_stage(job, remote, JobStage::Run { restored: false }, true);
            let b = next_stage(job, remote, a, packaged);
            let c = next_stage(job, remote, b, uploaded);
            ||| a == JobStage::SaveCache
            ||| a is Package && b == JobStage::SaveCache
            ||| a is Package && b is UploadArtifacts && c == JobStage::SaveCache
        }),
{
}

/// A job that has succeeded and has nothing to save, because it has no cache
/// or its cache was restored, stops its services behind its artifacts.
pub proof fn lemma_nothing_to_save(
    job: JobModel,
    remote: bool,
    restored: bool,
    packaged: bool,
    uploaded: bool,
)
    requires
        job.cache.len() == 0 || restored,
    ensures
        ({
            let a = next_stage(job, remote, JobStage::Run { restored }, true);
            let b = next_stage(job, remote, a, packaged);
            let c = next_stage(job, remote, b, uploaded);
            ||| a == JobStage::StopServices
            ||| a is Package && b == JobStage::StopServices
            ||| a is Package && b is UploadArtifacts && c == JobStage::StopServices
        }),
{
}

/// The artifacts of a job are packaged exactly if it has some and has
/// succeeded.
pub proof fn lemma_artifacts_are_packaged(job: JobModel, remote: bool, restored: bool, went_well: bool)
    ensures
        next_stage(job, remote, JobStage::Run { restored }, went_well) is Package <==> went_well
            && job.artifacts.len() > 0,
{
}

/// What was packaged is uploaded, and what was saved is uploaded, exactly if
/// there is a remote cache.
pub proof fn lemma_kept_things_are_uploaded(job: JobModel, remote: bool, restored: bool, went_well: bool)
    ensures
        next_stage(job, remote, JobStage::Package { restored }, went_well) is UploadArtifacts <==> remote
            && went_well,
        next_stage(job, remote, JobStage::SaveCache, went_well) is UploadCache <==> remote && went_well,
{
}

/// The artifacts of every supplier are fetched, one after the other, before
/// anything else is done.
pub proof fn lemma_all_artifacts_are_fetched(job: JobModel, remote: bool, i: int, went_well: bool)
    requires
        job.needs_artifacts.len() <= usize::MAX,
        0 <= i < job.needs_artifacts.len(),
    ensures
        first_stage(job) == (JobStage::FetchArtifacts { index: 0 }),
        ({
            let next = next_stage(
                job,
                remote,
                JobStage::FetchArtifacts { index: i as usize },
                went_well,
            );
            if i + 1 < job.needs_artifacts.len() {
                next matches JobStage::FetchArtifacts { index } && index == i + 1
            } else {
                !(next is FetchArtifacts)
            }
        }),
{
}

/// Only the suppliers' artifacts come before the cache and the services: a job
/// without suppliers begins with its cache if it has one, else with its
/// services, and a job with suppliers goes on in the same way behind the last.
pub proof fn lemma_cache_comes_next(job: JobModel, remote: bool, went_well: bool)
    requires
        job.needs_artifacts.len() <= usize::MAX,
    ensures
        ({
            let n = job.needs_artifacts.len();
            let s = if n == 0 {
                first_stage(job)
            } else {
                next_stage(
                    job,
                    remote,
                    JobStage::FetchArtifacts { index: (n - 1) as usize },
                    went_well,
                )
            };
            if job.cache.len() > 0 {
                s == JobStage::RestoreCache
            } else {
                s == (JobStage::StartServices { restored: false })
            }
        }),
{
}

/// The steps run with the cache restored exactly if it was found on this
/// machine, or failing that in the remote cache.
pub proof fn lemma_restored_if_found(job: JobModel, remote: bool, here: bool, there: bool)
    ensures
        ({
            let a = next_stage(job, remote, JobStage::RestoreCache, here);
            let b = next_stage(job, remote, a, there);
            let started = JobStage::StartServices { restored: here || (remote && there) };
            &&& a == JobStage::DownloadCache <==> remote && !here
            &&& if a == JobStage::DownloadCache {
                b == started
            } else {
                a == started
            }
        }),
{
}

/// The services start right before the steps run, and what is known of the
/// cache is kept.
pub proof fn lemma_services_start_before_steps(job: JobModel, remote: bool, restored: bool, went_well: bool)
    ensures
        next_stage(job, remote, JobStage::StartServices { restored }, went_well) == (JobStage::Run {
            restored,
        }),
        forall|stage: JobStage|
            (#[trigger] next_stage(job, remote, stage, went_well)) is Run ==> stage is StartServices,
{
}

/// Behind the services nothing is left.
pub proof fn lemma_over_behind_services(job: JobModel, remote: bool, went_well: bool)
    ensures
        next_stage(job, remote, JobStage::UploadCache, went_well) == JobStage::StopServices,
        next_stage(job, remote, JobStage::StopServices, went_well) == JobStage::Over,
        next_stage(job, remote, JobStage::Over, went_well) == JobStage::Over,
        next_stage(job, false, JobStage::SaveCache, went_well) == JobStage::StopServices,
        next_stage(job, remote, JobStage::SaveCache, false) == JobStage::StopServices,
{
}

/// The steps of a job run exactly if the run is not cancelled and the cache was
/// not restored. A cancelled job counts as cancelled though its cache was
/// restored; a job with a restored cache counts as successful.
pub proof fn lemma_settled_without_steps(name: Seq<char>, cancelled: bool, restored: bool, now: Timestamp)
    ensures
        settled(name, cancelled, restored, now) is None <==> !cancelled && !restored,
        settled(name, cancelled, restored, now) matches Some(r) ==> {
            &&& r.job_name == name
            &&& r.status == JobStatus::Cancelled <==> cancelled
            &&& r.status == JobStatus::Success <==> !cancelled
            &&& r.message == Some(
                if cancelled {
                    "Cancelled before start"@
                } else {
                    "Skipped (cache hit)"@
                },
            )
            &&& r.duration_ms == 0
            &&& r.retry_count == 0
            &&& r.outputs.map == Map::<Seq<char>, Seq<char>>::empty()
            &&& r.started_at == Some(now)
            &&& r.finished_at == Some(now)
        },
{
}

proof fn lemma_with_outputs(
    outputs: Table<Table<Seq<char>>>,
    job: Seq<char>,
    new: Table<Seq<char>>,
    n: int,
    x: Seq<char>,
    key: Seq<char>,
)
    requires
        0 <= n <= new.order.len(),
    ensures
        output_of(with_outputs(outputs, job, new, n), x, key) == (if x == job && exists|i: int|
            0 <= i < n && #[trigger] new.order[i] == key {
            Some(new.map[key])
        } else {
            output_of(outputs, x, key)
        }),
    decreases n,
{
    if n > 0 {
        lemma_with_outputs(outputs, job, new, n - 1, x, key);
        assert(new.order[n - 1] == new.order[n - 1]);
        if new.order[n - 1] != key {
            assert((exists|i: int| 0 <= i < n && #[trigger] new.order[i] == key) == (exists|i: int|
                0 <= i < n - 1 && #[trigger] new.order[i] == key));
        }
    }
}

/// An output of a job, as far as it is there.
pub open spec fn output_of(outputs: Table<Table<Seq<char>>>, job: Seq<char>, key: Seq<char>) -> Option<
    Seq<char>,
> {
    if outputs.map.contains_key(job) && outputs.map[job].map.contains_key(key) {
        Some(outputs.map[job].map[key])
    } else {
        None
    }
}

/// When a job has succeeded, each of its outputs can be read, and every other
/// output of any job is as it was.
pub proof fn lemma_outputs_are_recorded(
    outputs: Table<Table<Seq<char>>>,
    result: ResultModel,
    job: Seq<char>,
    key: Seq<char>,
)
    requires
        result.status == JobStatus::Success,
        result.outputs.wf(),
    ensures
        output_of(recorded(outputs, result), job, key) == (if job == result.job_name
            && result.outputs.map.contains_key(key) {
            Some(result.outputs.map[key])
        } else {
            output_of(outputs, job, key)
        }),
{
    let new = result.outputs;
    lemma_with_outputs(outputs, result.job_name, new, new.order.len() as int, job, key);
    if new.order.contains(key) {
        let i = new.order.index_of(key);
        assert(new.order[i] == key);
    }
}

/// The outputs of a job that has not succeeded are dropped.
pub proof fn lemma_failed_outputs_are_dropped(outputs: Table<Table<Seq<char>>>, result: ResultModel)
    requires
        result.status != JobStatus::Success,
    ensures
        recorded(outputs, result) == outputs,
{
}

/// Different jobs without a dash in their names never share the key under which
/// artifacts are uploaded, and neither do different contents of one job.
pub proof fn lemma_artifact_keys_differ(
    job: Seq<char>,
    hash: Seq<char>,
    other_job: Seq<char>,
    other_hash: Seq<char>,
)
    requires
        !job.contains('-'),
        !other_job.contains('-'),
        artifact_key(job, hash) == artifact_key(other_job, other_hash),
    ensures
        job == other_job,
        hash == other_hash,
{
    reveal_strlit("artifact-");
    reveal_strlit("-");
    let a = artifact_key(job, hash);
    let b = artifact_key(other_job, other_hash);
    let n = job.len();
    let m = other_job.len();
    assert(a[9 + n as int] == '-');
    assert(b[9 + m as int] == '-');
    if n < m {
        assert(b[9 + n as int] == other_job[n as int]);
        assert(other_job.contains(other_job[n as int]));
    }
    if m < n {
        assert(a[9 + m as int] == job[m as int]);
        assert(job.contains(job[m as int]));
    }
    assert(a.subrange(9, 9 + n as int) =~= job);
    assert(b.subrange(9, 9 + n as int) =~= other_job);
    assert(a.skip(10 + n as int) =~= hash);
    assert(b.skip(10 + n as int) =~= other_hash);
}

} // verus!
