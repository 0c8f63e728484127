//! Checks of a pipeline definition before it runs.
use vstd::prelude::*;

use crate::dag;
use crate::dag::{Dag, DagError, DagModel};
use crate::models::{Job, JobModel, Pipeline, PipelineModel};
use crate::syntax;
use crate::syntax::{check_condition_syntax, ConditionFault};
use crate::text::{append_str, contains_str, str_eq};

verus! {

/// What is wrong with a pipeline, and where.
#[derive(Debug, Clone)]
pub struct ValidationError {
    pub location: String,
    pub message: String,
}

/// What is wrong with a pipeline, and where.
#[verifier::ext_equal]
pub struct ErrorModel {
    pub location: Seq<char>,
    pub message: Seq<char>,
}

impl DeepView for ValidationError {
    type V = ErrorModel;

    open spec fn deep_view(&self) -> ErrorModel {
        ErrorModel { location: self.location@, message: self.message@ }
    }
}

impl ValidationError {
    /// The error as one line of text.
    pub fn text(&self) -> (r: String)
        ensures
            r@ == "["@ + self.location@ + "] "@ + self.message@,
    {
        let mut s = "[".to_owned();
        append_str(&mut s, self.location.as_str());
        append_str(&mut s, "] ");
        append_str(&mut s, self.message.as_str());
        s
    }
}

/// What is questionable in a pipeline, and where.
#[derive(Debug, Clone)]
pub struct LintWarning {
    pub location: String,
    pub message: String,
}

// ---------------------------------------------------------------------------
// What the checks find

/// The place of a part of a job.
pub open spec fn place(job: Seq<char>, part: Seq<char>) -> Seq<char> {
    "jobs."@ + job + part
}

/// One error for each job whose name an earlier job has.
pub open spec fn duplicate_names(jobs: Seq<JobModel>) -> Seq<ErrorModel>
    decreases jobs.len(),
{
    if jobs.len() == 0 {
        Seq::empty()
    } else {
        let before = duplicate_names(jobs.drop_last());
        let name = jobs.last().name;
        if dag::job_names(jobs.drop_last()).contains(name) {
            before.push(
                ErrorModel {
                    location: place(name, ""@),
                    message: "Duplicate job name: '"@ + name + "'"@,
                },
            )
        } else {
            before
        }
    }
}

/// One error for each of the dependencies that no job has as its name.
pub open spec fn missing_of(names: Seq<Seq<char>>, job: Seq<char>, deps: Seq<Seq<char>>) -> Seq<ErrorModel>
    decreases deps.len(),
{
    if deps.len() == 0 {
        Seq::empty()
    } else {
        let before = missing_of(names, job, deps.drop_last());
        if names.contains(deps.last()) {
            before
        } else {
            before.push(
                ErrorModel {
                    location: place(job, ".depends_on"@),
                    message: "Job '"@ + job + "' depends on non-existent job '"@ + deps.last() + "'"@,
                },
            )
        }
    }
}

/// One error for each dependency of the first `n` jobs that no job has as its
/// name.
pub open spec fn missing_dependencies(jobs: Seq<JobModel>, n: int) -> Seq<ErrorModel>
    decreases n,
{
    if n <= 0 {
        Seq::empty()
    } else {
        missing_dependencies(jobs, n - 1) + missing_of(
            dag::job_names(jobs),
            jobs[n - 1].name,
            jobs[n - 1].depends_on,
        )
    }
}

/// An error if some jobs depend on each other in a circle.
pub open spec fn cycles(jobs: Seq<JobModel>) -> Seq<ErrorModel> {
    if DagModel::of(jobs).cyclic() {
        seq![
            ErrorModel {
                location: "pipeline"@,
                message: "Pipeline contains cyclic dependencies"@,
            },
        ]
    } else {
        Seq::empty()
    }
}

/// One error for each job in a stage that is not among the stages, where there
/// are any.
pub open spec fn missing_stages(stages: Seq<Seq<char>>, jobs: Seq<JobModel>) -> Seq<ErrorModel>
    decreases jobs.len(),
{
    if jobs.len() == 0 {
        Seq::empty()
    } else {
        let before = missing_stages(stages, jobs.drop_last());
        let job = jobs.last();
        match job.stage {
            Some(stage) => if stages.len() > 0 && !stages.contains(stage) {
                before.push(
                    ErrorModel {
                        location: place(job.name, ".stage"@),
                        message: "Job '"@ + job.name + "' references non-existent stage '"@ + stage
                            + "'"@,
                    },
                )
            } else {
                before
            },
            None => before,
        }
    }
}

/// The errors of one job's settings: no steps, no time, no attempts.
pub open spec fn bad_settings_of(job: JobModel) -> Seq<ErrorModel> {
    let steps = if job.steps.len() == 0 {
        seq![
            ErrorModel {
                location: place(job.name, ".steps"@),
                message: "Job '"@ + job.name + "' must define at least one step"@,
            },
        ]
    } else {
        Seq::empty()
    };
    let timeout = if job.timeout == Some(0u64) {
        seq![
            ErrorModel {
                location: place(job.name, ".timeout"@),
                message: "Job '"@ + job.name + "' timeout must be a positive integer"@,
            },
        ]
    } else {
        Seq::empty()
    };
    let retry = if job.retry == Some(0u32) {
        seq![
            ErrorModel {
                location: place(job.name, ".retry"@),
                message: "Job '"@ + job.name + "' retry must be a positive integer"@,
            },
        ]
    } else {
        Seq::empty()
    };
    steps + timeout + retry
}

/// The errors of the jobs' settings.
pub open spec fn bad_settings(jobs: Seq<JobModel>) -> Seq<ErrorModel>
    decreases jobs.len(),
{
    if jobs.len() == 0 {
        Seq::empty()
    } else {
        bad_settings(jobs.drop_last()) + bad_settings_of(jobs.last())
    }
}

/// One error for each job with a faulty condition.
pub open spec fn bad_conditions(jobs: Seq<JobModel>) -> Seq<ErrorModel>
    decreases jobs.len(),
{
    if jobs.len() == 0 {
        Seq::empty()
    } else {
        let before = bad_conditions(jobs.drop_last());
        let job = jobs.last();
        match job.condition {
            Some(c) => match syntax::check_condition(c) {
                Some(Some(fault)) => before.push(
                    ErrorModel {
                        location: place(job.name, ".condition"@),
                        message: "Invalid condition for job '"@ + job.name + "': "@
                            + syntax::fault_text(fault),
                    },
                ),
                _ => before,
            },
            None => before,
        }
    }
}

/// Everything that is wrong with a pipeline.
pub open spec fn all_errors(p: PipelineModel) -> Seq<ErrorModel> {
    duplicate_names(p.jobs) + missing_dependencies(p.jobs, p.jobs.len() as int) + cycles(p.jobs)
        + missing_stages(p.stages, p.jobs) + bad_settings(p.jobs) + bad_conditions(p.jobs)
}

/// Whether all conditions can be checked.
pub open spec fn checkable(jobs: Seq<JobModel>) -> bool {
    forall|i: int|
        0 <= i < jobs.len() ==> ((#[trigger] jobs[i]).condition matches Some(c)
            ==> syntax::check_condition(c) is Some)
}

/// Whether the jobs and their dependencies fit in a graph.
pub open spec fn fits(jobs: Seq<JobModel>) -> bool {
    jobs.len() <= u32::MAX && dag::dep_edges(jobs, jobs.len() as int).len() <= u32::MAX
}

fn has_job(jobs: &[Job], name: &str) -> (r: bool)
    ensures
        r == (dag::node_of(dag::job_names(jobs.deep_view()), name@) is Some),
{
    let ghost names = dag::job_names(jobs.deep_view());
    proof {
        dag::lemma_node_of(names, name@);
    }
    let mut i: usize = 0;
    while i < jobs.len()
        invariant
            names == dag::job_names(jobs.deep_view()),
            dag::node_of(names, name@) is None ==> !names.contains(name@),
            i <= jobs@.len(),
            forall|k: int| 0 <= k < i ==> #[trigger] names[k] != name@,
        decreases jobs@.len() - i,
    {
        assert(names[i as int] == jobs@[i as int].name@);
        if str_eq(jobs[i].name.as_str(), name) {
            assert(names.contains(name@)) by {
                assert(names[i as int] == name@);
            }
            return true;
        }
        i = i + 1;
    }
    false
}

proof fn lemma_edges_grow(jobs: Seq<JobModel>, m: int, n: int)
    requires
        m <= n,
    ensures
        dag::dep_edges(jobs, m).len() <= dag::dep_edges(jobs, n).len(),
    decreases n - m,
{
    if m < n && n > 0 {
        lemma_edges_grow(jobs, m, n - 1);
    }
}

proof fn lemma_into_grow(names: Seq<Seq<char>>, deps: Seq<Seq<char>>, d: int, to: int)
    requires
        0 <= d <= deps.len(),
    ensures
        dag::edges_into(names, deps.take(d), to).len() <= dag::edges_into(names, deps, to).len(),
    decreases deps.len() - d,
{
    if d < deps.len() {
        assert(deps.take(d + 1).drop_last() =~= deps.take(d));
        lemma_into_grow(names, deps, d + 1, to);
    } else {
        assert(deps.take(d) =~= deps);
    }
}

/// Whether the jobs and their dependencies fit in a graph.
pub fn fits_of(jobs: &[Job]) -> (r: bool)
    ensures
        r == fits(jobs.deep_view()),
{
    let ghost all = jobs.deep_view();
    let ghost names = dag::job_names(all);
    if jobs.len() > u32::MAX as usize {
        return false;
    }
    let mut edges: u64 = 0;
    let mut i: usize = 0;
    while i < jobs.len()
        invariant
            all == jobs.deep_view(),
            names == dag::job_names(all),
            jobs@.len() <= u32::MAX,
            i <= jobs@.len(),
            edges == dag::dep_edges(all, i as int).len(),
            edges <= u32::MAX,
        decreases jobs@.len() - i,
    {
        let ghost before = edges;
        let ghost deps = all[i as int].depends_on;
        let ghost to = dag::node_of(names, all[i as int].name)->0;
        assert(all[i as int] == jobs@[i as int].deep_view());
        let mut d: usize = 0;
        assert(deps.take(0) =~= Seq::<Seq<char>>::empty());
        while d < jobs[i].depends_on.len()
            invariant
                all == jobs.deep_view(),
                names == dag::job_names(all),
                i < jobs@.len(),
                all[i as int] == jobs@[i as int].deep_view(),
                deps == all[i as int].depends_on,
                to == dag::node_of(names, all[i as int].name)->0,
                d <= deps.len(),
                before == dag::dep_edges(all, i as int).len(),
                edges == before + dag::edges_into(names, deps.take(d as int), to).len(),
                edges <= u32::MAX,
            decreases deps.len() - d,
        {
            assert(deps[d as int] == jobs@[i as int].depends_on@[d as int]@);
            assert(deps.take(d + 1).drop_last() =~= deps.take(d as int));
            if has_job(jobs, jobs[i].depends_on[d].as_str()) {
                edges = edges + 1;
            }
            d = d + 1;
            if edges > u32::MAX as u64 {
                proof {
                    lemma_into_grow(names, deps, d as int, to);
                    assert(dag::dep_edges(all, i + 1).len() == before + dag::edges_into(
                        names,
                        deps,
                        to,
                    ).len());
                    lemma_edges_grow(all, i + 1, all.len() as int);
                }
                return false;
            }
        }
        assert(deps.take(deps.len() as int) =~= deps);
        i = i + 1;
    }
    true
}

// ---------------------------------------------------------------------------
// The checks

fn place_str(job: &str, part: &str) -> (r: String)
    ensures
        r@ == place(job@, part@),
{
    let mut s = "jobs.".to_owned();
    append_str(&mut s, job);
    append_str(&mut s, part);
    s
}

fn about_job(job: &str, what: &str) -> (r: String)
    ensures
        r@ == "Job '"@ + job@ + what@,
{
    let mut s = "Job '".to_owned();
    append_str(&mut s, job);
    append_str(&mut s, what);
    s
}

fn push_error(errors: &mut Vec<ValidationError>, location: String, message: String)
    ensures
        final(errors).deep_view() == old(errors).deep_view().push(
            ErrorModel { location: location@, message: message@ },
        ),
{
    let ghost before = errors.deep_view();
    errors.push(ValidationError { location, message });
    assert(errors.deep_view() =~= before.push(ErrorModel { location: location@, message: message@ }));
}

fn validate_unique_job_names(pipeline: &Pipeline, errors: &mut Vec<ValidationError>)
    ensures
        final(errors).deep_view() == old(errors).deep_view() + duplicate_names(
            pipeline.deep_view().jobs,
        ),
{
    let ghost start = errors.deep_view();
    let ghost jobs = pipeline.jobs.deep_view();
    let mut i: usize = 0;
    assert(jobs.take(0) =~= Seq::<JobModel>::empty());
    assert(start + duplicate_names(jobs.take(0)) =~= start);
    while i < pipeline.jobs.len()
        invariant
            jobs == pipeline.jobs.deep_view(),
            i <= pipeline.jobs@.len(),
            errors.deep_view() == start + duplicate_names(jobs.take(i as int)),
        decreases pipeline.jobs@.len() - i,
    {
        let job = &pipeline.jobs[i];
        let ghost names = dag::job_names(jobs.take(i as int));
        assert(jobs[i as int] == job.deep_view());
        assert(jobs.take(i + 1).drop_last() =~= jobs.take(i as int));
        let mut seen = false;
        let mut k: usize = 0;
        while k < i
            invariant
                jobs == pipeline.jobs.deep_view(),
                i < pipeline.jobs@.len(),
                k <= i,
                names == dag::job_names(jobs.take(i as int)),
                seen == exists|m: int| 0 <= m < k && #[trigger] names[m] == job.name@,
            decreases i - k,
        {
            assert(names[k as int] == pipeline.jobs@[k as int].name@);
            if str_eq(pipeline.jobs[k].name.as_str(), job.name.as_str()) {
                seen = true;
            }
            k = k + 1;
        }
        if seen {
            let mut message = "Duplicate job name: '".to_owned();
            append_str(&mut message, job.name.as_str());
            append_str(&mut message, "'");
            push_error(errors, place_str(job.name.as_str(), ""), message);
        }
        assert(seen == names.contains(job.name@));
        assert(errors.deep_view() =~= start + duplicate_names(jobs.take(i + 1)));
        i = i + 1;
    }
    assert(jobs.take(jobs.len() as int) =~= jobs);
}

fn validate_depends_on_exists(pipeline: &Pipeline, errors: &mut Vec<ValidationError>)
    ensures
        final(errors).deep_view() == old(errors).deep_view() + missing_dependencies(
            pipeline.deep_view().jobs,
            pipeline.jobs@.len() as int,
        ),
{
    let ghost start = errors.deep_view();
    let ghost jobs = pipeline.jobs.deep_view();
    let ghost all = dag::job_names(jobs);
    let mut names: Vec<String> = Vec::new();
    let mut n: usize = 0;
    while n < pipeline.jobs.len()
        invariant
            jobs == pipeline.jobs.deep_view(),
            n <= pipeline.jobs@.len(),
            names@.len() == n,
            forall|k: int| 0 <= k < n ==> (#[trigger] names@[k])@ == jobs[k].name,
        decreases pipeline.jobs@.len() - n,
    {
        names.push(pipeline.jobs[n].name.clone());
        n = n + 1;
    }
    assert(names.deep_view() =~= all);
    let mut i: usize = 0;
    assert(start + missing_dependencies(jobs, 0) =~= start);
    while i < pipeline.jobs.len()
        invariant
            jobs == pipeline.jobs.deep_view(),
            all == dag::job_names(jobs),
            names.deep_view() == all,
            i <= pipeline.jobs@.len(),
            errors.deep_view() == start + missing_dependencies(jobs, i as int),
        decreases pipeline.jobs@.len() - i,
    {
        let job = &pipeline.jobs[i];
        assert(jobs[i as int] == job.deep_view());
        let ghost before = errors.deep_view();
        let ghost deps = job.depends_on.deep_view();
        let mut k: usize = 0;
        assert(deps.take(0) =~= Seq::<Seq<char>>::empty());
        assert(before + missing_of(all, job.name@, deps.take(0)) =~= before);
        while k < job.depends_on.len()
            invariant
                all == names.deep_view(),
                deps == job.depends_on.deep_view(),
                k <= deps.len(),
                errors.deep_view() == before + missing_of(all, job.name@, deps.take(k as int)),
            decreases deps.len() - k,
        {
            let dep = &job.depends_on[k];
            assert(deps.take(k + 1).drop_last() =~= deps.take(k as int));
            assert(deps.take(k + 1).last() == dep@);
            if !contains_str(&names, dep.as_str()) {
                let mut message = about_job(job.name.as_str(), "' depends on non-existent job '");
                append_str(&mut message, dep.as_str());
                append_str(&mut message, "'");
                push_error(errors, place_str(job.name.as_str(), ".depends_on"), message);
            }
            assert(errors.deep_view() =~= before + missing_of(all, job.name@, deps.take(k + 1)));
            k = k + 1;
        }
        assert(deps.take(deps.len() as int) =~= deps);
        assert(errors.deep_view() =~= start + missing_dependencies(jobs, i + 1));
        i = i + 1;
    }
}

fn validate_cyclic_dependencies(pipeline: &Pipeline, errors: &mut Vec<ValidationError>)
    requires
        fits(pipeline.deep_view().jobs),
    ensures
        final(errors).deep_view() == old(errors).deep_view() + cycles(pipeline.deep_view().jobs),
{
    let ghost start = errors.deep_view();
    let jobs = pipeline.jobs.as_slice();
    assert(jobs.deep_view() =~= pipeline.deep_view().jobs);
    let cyclic = match Dag::build(jobs) {
        Ok(graph) => graph.topological_order().is_err(),
        Err(_) => false,
    };
    if cyclic {
        push_error(
            errors,
            "pipeline".to_owned(),
            "Pipeline contains cyclic dependencies".to_owned(),
        );
    }
    assert(errors.deep_view() =~= start + cycles(pipeline.deep_view().jobs));
}

fn validate_stage_references(pipeline: &Pipeline, errors: &mut Vec<ValidationError>)
    ensures
        final(errors).deep_view() == old(errors).deep_view() + missing_stages(
            pipeline.deep_view().stages,
            pipeline.deep_view().jobs,
        ),
{
    let ghost start = errors.deep_view();
    let ghost jobs = pipeline.jobs.deep_view();
    let ghost stages = pipeline.stages.deep_view();
    let mut i: usize = 0;
    assert(jobs.take(0) =~= Seq::<JobModel>::empty());
    assert(start + missing_stages(stages, jobs.take(0)) =~= start);
    while i < pipeline.jobs.len()
        invariant
            jobs == pipeline.jobs.deep_view(),
            stages == pipeline.stages.deep_view(),
            i <= pipeline.jobs@.len(),
            errors.deep_view() == start + missing_stages(stages, jobs.take(i as int)),
        decreases pipeline.jobs@.len() - i,
    {
        let job = &pipeline.jobs[i];
        assert(jobs[i as int] == job.deep_view());
        assert(jobs.take(i + 1).drop_last() =~= jobs.take(i as int));
        if let Some(stage) = &job.stage {
            if pipeline.stages.len() > 0 && !contains_str(&pipeline.stages, stage.as_str()) {
                let mut message = about_job(job.name.as_str(), "' references non-existent stage '");
                append_str(&mut message, stage.as_str());
                append_str(&mut message, "'");
                push_error(errors, place_str(job.name.as_str(), ".stage"), message);
            }
        }
        assert(errors.deep_view() =~= start + missing_stages(stages, jobs.take(i + 1)));
        i = i + 1;
    }
    assert(jobs.take(jobs.len() as int) =~= jobs);
}

fn validate_job_configs(pipeline: &Pipeline, errors: &mut Vec<ValidationError>)
    ensures
        final(errors).deep_view() == old(errors).deep_view() + bad_settings(
            pipeline.deep_view().jobs,
        ),
{
    let ghost start = errors.deep_view();
    let ghost jobs = pipeline.jobs.deep_view();
    let mut i: usize = 0;
    assert(jobs.take(0) =~= Seq::<JobModel>::empty());
    assert(start + bad_settings(jobs.take(0)) =~= start);
    while i < pipeline.jobs.len()
        invariant
            jobs == pipeline.jobs.deep_view(),
            i <= pipeline.jobs@.len(),
            errors.deep_view() == start + bad_settings(jobs.take(i as int)),
        decreases pipeline.jobs@.len() - i,
    {
        let job = &pipeline.jobs[i];
        let ghost before = errors.deep_view();
        assert(jobs[i as int] == job.deep_view());
        assert(jobs.take(i + 1).drop_last() =~= jobs.take(i as int));
        if job.steps.len() == 0 {
            push_error(
                errors,
                place_str(job.name.as_str(), ".steps"),
                about_job(job.name.as_str(), "' must define at least one step"),
            );
        }
        if let Some(timeout) = job.timeout {
            if timeout == 0 {
                push_error(
                    errors,
                    place_str(job.name.as_str(), ".timeout"),
                    about_job(job.name.as_str(), "' timeout must be a positive integer"),
                );
            }
        }
        if let Some(retry) = job.retry {
            if retry == 0 {
                push_error(
                    errors,
                    place_str(job.name.as_str(), ".retry"),
                    about_job(job.name.as_str(), "' retry must be a positive integer"),
                );
            }
        }
        assert(errors.deep_view() =~= before + bad_settings_of(job.deep_view()));
        assert(errors.deep_view() =~= start + bad_settings(jobs.take(i + 1)));
        i = i + 1;
    }
    assert(jobs.take(jobs.len() as int) =~= jobs);
}

fn validate_condition_expressions(pipeline: &Pipeline, errors: &mut Vec<ValidationError>)
    requires
        checkable(pipeline.deep_view().jobs),
    ensures
        final(errors).deep_view() == old(errors).deep_view() + bad_conditions(
            pipeline.deep_view().jobs,
        ),
{
    let ghost start = errors.deep_view();
    let ghost jobs = pipeline.jobs.deep_view();
    let mut i: usize = 0;
    assert(jobs.take(0) =~= Seq::<JobModel>::empty());
    assert(start + bad_conditions(jobs.take(0)) =~= start);
    while i < pipeline.jobs.len()
        invariant
            jobs == pipeline.jobs.deep_view(),
            checkable(jobs),
            i <= pipeline.jobs@.len(),
            errors.deep_view() == start + bad_conditions(jobs.take(i as int)),
        decreases pipeline.jobs@.len() - i,
    {
        let job = &pipeline.jobs[i];
        assert(jobs[i as int] == job.deep_view());
        assert(jobs.take(i + 1).drop_last() =~= jobs.take(i as int));
        if let Some(condition) = &job.condition {
            if let Err(fault) = validate_condition_syntax(condition.as_str()) {
                let mut message = "Invalid condition for job '".to_owned();
                append_str(&mut message, job.name.as_str());
                append_str(&mut message, "': ");
                append_str(&mut message, fault.message().as_str());
                push_error(errors, place_str(job.name.as_str(), ".condition"), message);
            }
        }
        assert(errors.deep_view() =~= start + bad_conditions(jobs.take(i + 1)));
        i = i + 1;
    }
    assert(jobs.take(jobs.len() as int) =~= jobs);
}

/// Whether a condition is well formed. References and words in it lie between
/// characters at the byte positions given by the numbers of their characters.
pub fn validate_condition_syntax(expr: &str) -> (r: Result<(), ConditionFault>)
    requires
        syntax::check_condition(expr@) is Some,
    ensures
        match r {
            Ok(_) => syntax::check_condition(expr@) == Some(None::<syntax::FaultModel>),
            Err(f) => syntax::check_condition(expr@) == Some(Some(f.deep_view())),
        },
{
    match check_condition_syntax(expr) {
        Some(Some(f)) => Err(f),
        _ => Ok(()),
    }
}

/// Everything that is wrong with a pipeline whose conditions can be checked.
pub fn validate_pipeline(pipeline: &Pipeline) -> (r: Result<Vec<ValidationError>, DagError>)
    requires
        fits(pipeline.deep_view().jobs),
        checkable(pipeline.deep_view().jobs),
    ensures
        r matches Ok(errors) && errors.deep_view() == all_errors(pipeline.deep_view()),
{
    let mut errors: Vec<ValidationError> = Vec::new();
    assert(errors.deep_view() =~= Seq::<ErrorModel>::empty());
    validate_unique_job_names(pipeline, &mut errors);
    validate_depends_on_exists(pipeline, &mut errors);
    validate_cyclic_dependencies(pipeline, &mut errors);
    validate_stage_references(pipeline, &mut errors);
    validate_job_configs(pipeline, &mut errors);
    validate_condition_expressions(pipeline, &mut errors);
    assert(errors.deep_view() =~= all_errors(pipeline.deep_view()));
    Ok(errors)
}

/// Everything that is wrong with a pipeline; `None` if some condition cannot
/// be checked.
pub fn validate_pipeline_checked(pipeline: &Pipeline) -> (r: Option<Vec<ValidationError>>)
    requires
        fits(pipeline.deep_view().jobs),
    ensures
        match r {
            Some(errors) => checkable(pipeline.deep_view().jobs) && errors.deep_view() == all_errors(
                pipeline.deep_view(),
            ),
            None => !checkable(pipeline.deep_view().jobs),
        },
{
    let ghost jobs = pipeline.deep_view().jobs;
    let mut i: usize = 0;
    while i < pipeline.jobs.len()
        invariant
            jobs == pipeline.jobs.deep_view(),
            i <= pipeline.jobs@.len(),
            forall|k: int|
                0 <= k < i ==> ((#[trigger] jobs[k]).condition matches Some(c)
                    ==> syntax::check_condition(c) is Some),
        decreases pipeline.jobs@.len() - i,
    {
        assert(jobs[i as int] == pipeline.jobs@[i as int].deep_view());
        if let Some(condition) = &pipeline.jobs[i].condition {
            if check_condition_syntax(condition.as_str()).is_none() {
                return None;
            }
        }
        i = i + 1;
    }
    match validate_pipeline(pipeline) {
        Ok(errors) => Some(errors),
        Err(_) => None,
    }
}

// ---------------------------------------------------------------------------
// Laws

/// Whether each of the jobs names only dependencies that exist.
pub open spec fn dependencies_exist(jobs: Seq<JobModel>) -> bool {
    forall|i: int, k: int|
        0 <= i < jobs.len() && 0 <= k < jobs[i].depends_on.len() ==> dag::job_names(jobs).contains(
            #[trigger] jobs[i].depends_on[k],
        )
}

/// Whether each of the jobs has steps, and time and attempts if it says how
/// many.
pub open spec fn settings_fine(jobs: Seq<JobModel>) -> bool {
    forall|i: int|
        0 <= i < jobs.len() ==> (#[trigger] jobs[i]).steps.len() > 0 && jobs[i].timeout != Some(0u64)
            && jobs[i].retry != Some(0u32)
}

/// Whether the stage of each of the jobs is among the stages, where there are
/// any.
pub open spec fn stages_exist(stages: Seq<Seq<char>>, jobs: Seq<JobModel>) -> bool {
    forall|i: int|
        0 <= i < jobs.len() ==> ((#[trigger] jobs[i]).stage matches Some(s) ==> stages.len() == 0
            || stages.contains(s))
}

/// Whether the condition of each of the jobs is well formed.
pub open spec fn conditions_fine(jobs: Seq<JobModel>) -> bool {
    forall|i: int|
        0 <= i < jobs.len() ==> ((#[trigger] jobs[i]).condition matches Some(c)
            ==> syntax::check_condition(c) == Some(None::<syntax::FaultModel>))
}

proof fn lemma_no_duplicates(jobs: Seq<JobModel>)
    ensures
        duplicate_names(jobs).len() == 0 <==> dag::job_names(jobs).no_duplicates(),
    decreases jobs.len(),
{
    if jobs.len() > 0 {
        let d = jobs.drop_last();
        let names = dag::job_names(jobs);
        let before = dag::job_names(d);
        lemma_no_duplicates(d);
        assert(names =~= before.push(jobs.last().name));
        if before.contains(jobs.last().name) {
            let i = before.index_of(jobs.last().name);
            assert(names[i] == names[jobs.len() - 1]);
        }
        if names.no_duplicates() {
            assert forall|i: int, j: int| 0 <= i < j < before.len() implies before[i] != before[j] by {
                assert(names[i] != names[j]);
            }
        }
        if before.no_duplicates() && !before.contains(jobs.last().name) {
            assert forall|i: int, j: int| 0 <= i < j < names.len() implies names[i] != names[j] by {
                if j == before.len() {
                    assert(before.contains(before[i]));
                }
            }
        }
    }
}

proof fn lemma_none_missing_of(names: Seq<Seq<char>>, job: Seq<char>, deps: Seq<Seq<char>>)
    ensures
        missing_of(names, job, deps).len() == 0 <==> forall|k: int|
            0 <= k < deps.len() ==> names.contains(#[trigger] deps[k]),
    decreases deps.len(),
{
    if deps.len() > 0 {
        let d = deps.drop_last();
        lemma_none_missing_of(names, job, d);
        if forall|k: int| 0 <= k < deps.len() ==> names.contains(#[trigger] deps[k]) {
            assert forall|k: int| 0 <= k < d.len() implies names.contains(#[trigger] d[k]) by {
                assert(names.contains(deps[k]));
            }
            assert(names.contains(deps[deps.len() - 1]));
        }
        if missing_of(names, job, deps).len() == 0 {
            assert forall|k: int| 0 <= k < deps.len() implies names.contains(#[trigger] deps[k]) by {
                if k < d.len() {
                    assert(names.contains(d[k]));
                }
            }
        }
    }
}

proof fn lemma_none_missing(jobs: Seq<JobModel>, n: int)
    requires
        0 <= n <= jobs.len(),
    ensures
        missing_dependencies(jobs, n).len() == 0 <==> forall|i: int, k: int|
            0 <= i < n && 0 <= k < jobs[i].depends_on.len() ==> dag::job_names(jobs).contains(
                #[trigger] jobs[i].depends_on[k],
            ),
    decreases n,
{
    if n > 0 {
        let names = dag::job_names(jobs);
        lemma_none_missing(jobs, n - 1);
        lemma_none_missing_of(names, jobs[n - 1].name, jobs[n - 1].depends_on);
        if missing_dependencies(jobs, n).len() == 0 {
            assert forall|i: int, k: int| 0 <= i < n && 0 <= k < jobs[i].depends_on.len() implies names.contains(
                #[trigger] jobs[i].depends_on[k],
            ) by {}
        }
    }
}

proof fn lemma_none_missing_stages(stages: Seq<Seq<char>>, jobs: Seq<JobModel>)
    ensures
        missing_stages(stages, jobs).len() == 0 <==> stages_exist(stages, jobs),
    decreases jobs.len(),
{
    if jobs.len() > 0 {
        let d = jobs.drop_last();
        lemma_none_missing_stages(stages, d);
        assert(jobs[jobs.len() - 1] == jobs.last());
        if stages_exist(stages, jobs) {
            assert forall|i: int| 0 <= i < d.len() implies ((#[trigger] d[i]).stage matches Some(s)
                ==> stages.len() == 0 || stages.contains(s)) by {
                assert(jobs[i] == d[i]);
            }
        }
        if missing_stages(stages, jobs).len() == 0 {
            assert forall|i: int| 0 <= i < jobs.len() implies ((#[trigger] jobs[i]).stage matches Some(
                s,
            ) ==> stages.len() == 0 || stages.contains(s)) by {
                if i < d.len() {
                    assert(jobs[i] == d[i]);
                }
            }
        }
    }
}

proof fn lemma_no_bad_settings(jobs: Seq<JobModel>)
    ensures
        bad_settings(jobs).len() == 0 <==> settings_fine(jobs),
    decreases jobs.len(),
{
    if jobs.len() > 0 {
        let d = jobs.drop_last();
        lemma_no_bad_settings(d);
        assert(jobs[jobs.len() - 1] == jobs.last());
        if settings_fine(jobs) {
            assert forall|i: int| 0 <= i < d.len() implies (#[trigger] d[i]).steps.len() > 0 && d[i].timeout
                != Some(0u64) && d[i].retry != Some(0u32) by {
                assert(jobs[i] == d[i]);
            }
        }
        if bad_settings(jobs).len() == 0 {
            assert forall|i: int| 0 <= i < jobs.len() implies (#[trigger] jobs[i]).steps.len() > 0
                && jobs[i].timeout != Some(0u64) && jobs[i].retry != Some(0u32) by {
                if i < d.len() {
                    assert(jobs[i] == d[i]);
                }
            }
        }
    }
}

proof fn lemma_no_bad_conditions(jobs: Seq<JobModel>)
    requires
        checkable(jobs),
    ensures
        bad_conditions(jobs).len() == 0 <==> conditions_fine(jobs),
    decreases jobs.len(),
{
    if jobs.len() > 0 {
        let d = jobs.drop_last();
        assert forall|i: int| 0 <= i < d.len() implies ((#[trigger] d[i]).condition matches Some(c)
            ==> syntax::check_condition(c) is Some) by {
            assert(jobs[i] == d[i]);
        }
        lemma_no_bad_conditions(d);
        assert(jobs[jobs.len() - 1] == jobs.last());
        if conditions_fine(jobs) {
            assert forall|i: int| 0 <= i < d.len() implies ((#[trigger] d[i]).condition matches Some(c)
                ==> syntax::check_condition(c) == Some(None::<syntax::FaultModel>)) by {
                assert(jobs[i] == d[i]);
            }
        }
        if bad_conditions(jobs).len() == 0 {
            assert forall|i: int| 0 <= i < jobs.len() implies ((#[trigger] jobs[i]).condition matches Some(
                c,
            ) ==> syntax::check_condition(c) == Some(None::<syntax::FaultModel>)) by {
                if i < d.len() {
                    assert(jobs[i] == d[i]);
                }
            }
        }
    }
}

/// A pipeline has no errors exactly if its jobs have different names, depend
/// on jobs that exist and not in a circle, belong to stages that exist, have
/// steps, time and attempts, and carry conditions that are well formed.
pub proof fn lemma_no_errors(p: PipelineModel)
    requires
        checkable(p.jobs),
    ensures
        all_errors(p).len() == 0 <==> {
            &&& dag::job_names(p.jobs).no_duplicates()
            &&& dependencies_exist(p.jobs)
            &&& !DagModel::of(p.jobs).cyclic()
            &&& stages_exist(p.stages, p.jobs)
            &&& settings_fine(p.jobs)
            &&& conditions_fine(p.jobs)
        },
{
    lemma_no_duplicates(p.jobs);
    lemma_none_missing(p.jobs, p.jobs.len() as int);
    lemma_none_missing_stages(p.stages, p.jobs);
    lemma_no_bad_settings(p.jobs);
    lemma_no_bad_conditions(p.jobs);
}

proof fn lemma_added_contains<A>(a: Seq<A>, b: Seq<A>, x: A)
    ensures
        (a + b).contains(x) <==> a.contains(x) || b.contains(x),
{
    if a.contains(x) {
        let i = a.index_of(x);
        assert((a + b)[i] == x);
    }
    if b.contains(x) {
        let i = b.index_of(x);
        assert((a + b)[a.len() + i] == x);
    }
    if (a + b).contains(x) {
        let i = (a + b).index_of(x);
        if i < a.len() {
            assert(a[i] == x);
        } else {
            assert(b[i - a.len()] == x);
        }
    }
}

proof fn lemma_pushed_contains<A>(a: Seq<A>, y: A, x: A)
    ensures
        a.push(y).contains(x) <==> a.contains(x) || x == y,
{
    assert(a.push(y) =~= a + seq![y]);
    lemma_added_contains(a, seq![y], x);
    if seq![y].contains(x) {
        assert(seq![y][0] == x);
    }
    assert(seq![y][0] == y);
}

proof fn lemma_all_errors_contains(p: PipelineModel, e: ErrorModel)
    ensures
        all_errors(p).contains(e) <==> duplicate_names(p.jobs).contains(e) || missing_dependencies(
            p.jobs,
            p.jobs.len() as int,
        ).contains(e) || cycles(p.jobs).contains(e) || missing_stages(p.stages, p.jobs).contains(e)
            || bad_settings(p.jobs).contains(e) || bad_conditions(p.jobs).contains(e),
{
    let a = duplicate_names(p.jobs);
    let b = missing_dependencies(p.jobs, p.jobs.len() as int);
    let c = cycles(p.jobs);
    let d = missing_stages(p.stages, p.jobs);
    let f = bad_settings(p.jobs);
    let g = bad_conditions(p.jobs);
    lemma_added_contains(a, b, e);
    lemma_added_contains(a + b, c, e);
    lemma_added_contains(a + b + c, d, e);
    lemma_added_contains(a + b + c + d, f, e);
    lemma_added_contains(a + b + c + d + f, g, e);
}

proof fn lemma_missing_of_contains(names: Seq<Seq<char>>, job: Seq<char>, deps: Seq<Seq<char>>, k: int)
    requires
        0 <= k < deps.len(),
        !names.contains(deps[k]),
    ensures
        missing_of(names, job, deps).contains(
            ErrorModel {
                location: "jobs."@ + job + ".depends_on"@,
                message: "Job '"@ + job + "' depends on non-existent job '"@ + deps[k] + "'"@,
            },
        ),
    decreases deps.len(),
{
    let e = ErrorModel {
        location: "jobs."@ + job + ".depends_on"@,
        message: "Job '"@ + job + "' depends on non-existent job '"@ + deps[k] + "'"@,
    };
    let before = missing_of(names, job, deps.drop_last());
    if k < deps.len() - 1 {
        lemma_missing_of_contains(names, job, deps.drop_last(), k);
    }
    if !names.contains(deps.last()) {
        let last = ErrorModel {
            location: place(job, ".depends_on"@),
            message: "Job '"@ + job + "' depends on non-existent job '"@ + deps.last() + "'"@,
        };
        lemma_pushed_contains(before, last, e);
    }
}

proof fn lemma_missing_dependencies_contains(jobs: Seq<JobModel>, n: int, i: int, e: ErrorModel)
    requires
        0 <= i < n <= jobs.len(),
        missing_of(dag::job_names(jobs), jobs[i].name, jobs[i].depends_on).contains(e),
    ensures
        missing_dependencies(jobs, n).contains(e),
    decreases n,
{
    let before = missing_dependencies(jobs, n - 1);
    let more = missing_of(dag::job_names(jobs), jobs[n - 1].name, jobs[n - 1].depends_on);
    if i < n - 1 {
        lemma_missing_dependencies_contains(jobs, n - 1, i, e);
    }
    lemma_added_contains(before, more, e);
}

/// Every dependency on a job that does not exist is reported, with the job and
/// the name that it gives.
pub proof fn lemma_missing_dependency_reported(p: PipelineModel, i: int, k: int)
    requires
        0 <= i < p.jobs.len(),
        0 <= k < p.jobs[i].depends_on.len(),
        forall|j: int| 0 <= j < p.jobs.len() ==> (#[trigger] p.jobs[j]).name != p.jobs[i].depends_on[k],
    ensures
        all_errors(p).contains(
            ErrorModel {
                location: "jobs."@ + p.jobs[i].name + ".depends_on"@,
                message: "Job '"@ + p.jobs[i].name + "' depends on non-existent job '"@
                    + p.jobs[i].depends_on[k] + "'"@,
            },
        ),
{
    let e = ErrorModel {
        location: "jobs."@ + p.jobs[i].name + ".depends_on"@,
        message: "Job '"@ + p.jobs[i].name + "' depends on non-existent job '"@
            + p.jobs[i].depends_on[k] + "'"@,
    };
    let names = dag::job_names(p.jobs);
    assert(!names.contains(p.jobs[i].depends_on[k])) by {
        if names.contains(p.jobs[i].depends_on[k]) {
            let j = names.index_of(p.jobs[i].depends_on[k]);
            assert(p.jobs[j].name == p.jobs[i].depends_on[k]);
        }
    }
    lemma_missing_of_contains(names, p.jobs[i].name, p.jobs[i].depends_on, k);
    lemma_missing_dependencies_contains(p.jobs, p.jobs.len() as int, i, e);
    lemma_all_errors_contains(p, e);
}

/// There is one error for each dependency that does not exist.
pub proof fn lemma_missing_counted(names: Seq<Seq<char>>, job: Seq<char>, deps: Seq<Seq<char>>)
    ensures
        missing_of(names, job, deps).len() == deps.filter(|d: Seq<char>| !names.contains(d)).len(),
    decreases deps.len(),
{
    reveal(Seq::filter);
    if deps.len() > 0 {
        lemma_missing_counted(names, job, deps.drop_last());
    }
}

proof fn lemma_duplicate_contains(jobs: Seq<JobModel>, i: int, j: int)
    requires
        0 <= i < j < jobs.len(),
        jobs[i].name == jobs[j].name,
    ensures
        duplicate_names(jobs).contains(
            ErrorModel {
                location: place(jobs[j].name, ""@),
                message: "Duplicate job name: '"@ + jobs[j].name + "'"@,
            },
        ),
    decreases jobs.len(),
{
    let e = ErrorModel {
        location: place(jobs[j].name, ""@),
        message: "Duplicate job name: '"@ + jobs[j].name + "'"@,
    };
    let d = jobs.drop_last();
    let before = duplicate_names(d);
    if j < jobs.len() - 1 {
        lemma_duplicate_contains(d, i, j);
    } else {
        assert(dag::job_names(d)[i] == jobs.last().name);
    }
    if dag::job_names(d).contains(jobs.last().name) {
        lemma_pushed_contains(
            before,
            ErrorModel {
                location: place(jobs.last().name, ""@),
                message: "Duplicate job name: '"@ + jobs.last().name + "'"@,
            },
            e,
        );
    }
}

/// A name that two jobs have is reported.
pub proof fn lemma_duplicate_reported(p: PipelineModel, i: int, j: int)
    requires
        0 <= i < j < p.jobs.len(),
        p.jobs[i].name == p.jobs[j].name,
    ensures
        all_errors(p).contains(
            ErrorModel {
                location: "jobs."@ + p.jobs[j].name,
                message: "Duplicate job name: '"@ + p.jobs[j].name + "'"@,
            },
        ),
{
    reveal_strlit("");
    lemma_duplicate_contains(p.jobs, i, j);
    assert("jobs."@ + p.jobs[j].name + ""@ =~= "jobs."@ + p.jobs[j].name);
    lemma_all_errors_contains(
        p,
        ErrorModel {
            location: "jobs."@ + p.jobs[j].name,
            message: "Duplicate job name: '"@ + p.jobs[j].name + "'"@,
        },
    );
}

proof fn lemma_bad_settings_contains(jobs: Seq<JobModel>, i: int, e: ErrorModel)
    requires
        0 <= i < jobs.len(),
        bad_settings_of(jobs[i]).contains(e),
    ensures
        bad_settings(jobs).contains(e),
    decreases jobs.len(),
{
    if i < jobs.len() - 1 {
        lemma_bad_settings_contains(jobs.drop_last(), i, e);
    }
    lemma_added_contains(bad_settings(jobs.drop_last()), bad_settings_of(jobs.last()), e);
}

/// A job without steps, one with no time and one with no attempts are each
/// reported.
pub proof fn lemma_bad_settings_reported(p: PipelineModel, i: int)
    requires
        0 <= i < p.jobs.len(),
    ensures
        p.jobs[i].steps.len() == 0 ==> all_errors(p).contains(
            ErrorModel {
                location: "jobs."@ + p.jobs[i].name + ".steps"@,
                message: "Job '"@ + p.jobs[i].name + "' must define at least one step"@,
            },
        ),
        p.jobs[i].timeout == Some(0u64) ==> all_errors(p).contains(
            ErrorModel {
                location: "jobs."@ + p.jobs[i].name + ".timeout"@,
                message: "Job '"@ + p.jobs[i].name + "' timeout must be a positive integer"@,
            },
        ),
        p.jobs[i].retry == Some(0u32) ==> all_errors(p).contains(
            ErrorModel {
                location: "jobs."@ + p.jobs[i].name + ".retry"@,
                message: "Job '"@ + p.jobs[i].name + "' retry must be a positive integer"@,
            },
        ),
{
    let job = p.jobs[i];
    let a = ErrorModel {
        location: "jobs."@ + job.name + ".steps"@,
        message: "Job '"@ + job.name + "' must define at least one step"@,
    };
    let b = ErrorModel {
        location: "jobs."@ + job.name + ".timeout"@,
        message: "Job '"@ + job.name + "' timeout must be a positive integer"@,
    };
    let c = ErrorModel {
        location: "jobs."@ + job.name + ".retry"@,
        message: "Job '"@ + job.name + "' retry must be a positive integer"@,
    };
    let x = if job.steps.len() == 0 {
        seq![a]
    } else {
        Seq::empty()
    };
    let y = if job.timeout == Some(0u64) {
        seq![b]
    } else {
        Seq::empty()
    };
    let z = if job.retry == Some(0u32) {
        seq![c]
    } else {
        Seq::empty()
    };
    assert(bad_settings_of(job) == x + y + z);
    assert(seq![a][0] == a && seq![b][0] == b && seq![c][0] == c);
    lemma_added_contains(x, y, a);
    lemma_added_contains(x + y, z, a);
    lemma_added_contains(x, y, b);
    lemma_added_contains(x + y, z, b);
    lemma_added_contains(x + y, z, c);
    if job.steps.len() == 0 {
        lemma_bad_settings_contains(p.jobs, i, a);
    }
    if job.timeout == Some(0u64) {
        lemma_bad_settings_contains(p.jobs, i, b);
    }
    if job.retry == Some(0u32) {
        lemma_bad_settings_contains(p.jobs, i, c);
    }
    lemma_all_errors_contains(p, a);
    lemma_all_errors_contains(p, b);
    lemma_all_errors_contains(p, c);
}

proof fn lemma_missing_stage_contains(stages: Seq<Seq<char>>, jobs: Seq<JobModel>, i: int, stage: Seq<char>)
    requires
        0 <= i < jobs.len(),
        jobs[i].stage == Some(stage),
        stages.len() > 0,
        !stages.contains(stage),
    ensures
        missing_stages(stages, jobs).contains(
            ErrorModel {
                location: "jobs."@ + jobs[i].name + ".stage"@,
                message: "Job '"@ + jobs[i].name + "' references non-existent stage '"@ + stage + "'"@,
            },
        ),
    decreases jobs.len(),
{
    let e = ErrorModel {
        location: "jobs."@ + jobs[i].name + ".stage"@,
        message: "Job '"@ + jobs[i].name + "' references non-existent stage '"@ + stage + "'"@,
    };
    let before = missing_stages(stages, jobs.drop_last());
    if i < jobs.len() - 1 {
        lemma_missing_stage_contains(stages, jobs.drop_last(), i, stage);
    }
    if let Some(s) = jobs.last().stage {
        if !stages.contains(s) {
            lemma_pushed_contains(
                before,
                ErrorModel {
                    location: place(jobs.last().name, ".stage"@),
                    message: "Job '"@ + jobs.last().name + "' references non-existent stage '"@ + s
                        + "'"@,
                },
                e,
            );
        }
    }
}

/// A stage that is not listed is reported, if stages are listed at all.
pub proof fn lemma_missing_stage_reported(p: PipelineModel, i: int, stage: Seq<char>)
    requires
        0 <= i < p.jobs.len(),
        p.jobs[i].stage == Some(stage),
        p.stages.len() > 0,
        !p.stages.contains(stage),
    ensures
        all_errors(p).contains(
            ErrorModel {
                location: "jobs."@ + p.jobs[i].name + ".stage"@,
                message: "Job '"@ + p.jobs[i].name + "' references non-existent stage '"@ + stage
                    + "'"@,
            },
        ),
{
    lemma_missing_stage_contains(p.stages, p.jobs, i, stage);
    lemma_all_errors_contains(
        p,
        ErrorModel {
            location: "jobs."@ + p.jobs[i].name + ".stage"@,
            message: "Job '"@ + p.jobs[i].name + "' references non-existent stage '"@ + stage + "'"@,
        },
    );
}

proof fn lemma_bad_condition_contains(
    jobs: Seq<JobModel>,
    i: int,
    condition: Seq<char>,
    fault: syntax::FaultModel,
)
    requires
        0 <= i < jobs.len(),
        jobs[i].condition == Some(condition),
        syntax::check_condition(condition) == Some(Some(fault)),
    ensures
        bad_conditions(jobs).contains(
            ErrorModel {
                location: "jobs."@ + jobs[i].name + ".condition"@,
                message: "Invalid condition for job '"@ + jobs[i].name + "': "@ + syntax::fault_text(
                    fault,
                ),
            },
        ),
    decreases jobs.len(),
{
    let e = ErrorModel {
        location: "jobs."@ + jobs[i].name + ".condition"@,
        message: "Invalid condition for job '"@ + jobs[i].name + "': "@ + syntax::fault_text(fault),
    };
    let before = bad_conditions(jobs.drop_last());
    if i < jobs.len() - 1 {
        lemma_bad_condition_contains(jobs.drop_last(), i, condition, fault);
    }
    if let Some(c) = jobs.last().condition {
        if let Some(Some(f)) = syntax::check_condition(c) {
            lemma_pushed_contains(
                before,
                ErrorModel {
                    location: place(jobs.last().name, ".condition"@),
                    message: "Invalid condition for job '"@ + jobs.last().name + "': "@
                        + syntax::fault_text(f),
                },
                e,
            );
        }
    }
}

/// A condition that is not well formed is reported, with what is wrong with it.
pub proof fn lemma_bad_condition_reported(
    p: PipelineModel,
    i: int,
    condition: Seq<char>,
    fault: syntax::FaultModel,
)
    requires
        0 <= i < p.jobs.len(),
        p.jobs[i].condition == Some(condition),
        syntax::check_condition(condition) == Some(Some(fault)),
    ensures
        all_errors(p).contains(
            ErrorModel {
                location: "jobs."@ + p.jobs[i].name + ".condition"@,
                message: "Invalid condition for job '"@ + p.jobs[i].name + "': "@
                    + syntax::fault_text(fault),
            },
        ),
{
    lemma_bad_condition_contains(p.jobs, i, condition, fault);
    lemma_all_errors_contains(
        p,
        ErrorModel {
            location: "jobs."@ + p.jobs[i].name + ".condition"@,
            message: "Invalid condition for job '"@ + p.jobs[i].name + "': "@ + syntax::fault_text(
                fault,
            ),
        },
    );
}

/// A circle of dependencies is reported once, for the pipeline as a whole.
pub proof fn lemma_cycle_reported(p: PipelineModel)
    requires
        crate::digraph::has_cycle(DagModel::of(p.jobs).edges),
    ensures
        all_errors(p).contains(
            ErrorModel {
                location: "pipeline"@,
                message: "Pipeline contains cyclic dependencies"@,
            },
        ),
{
    let e = ErrorModel {
        location: "pipeline"@,
        message: "Pipeline contains cyclic dependencies"@,
    };
    assert(cycles(p.jobs)[0] == e);
    lemma_all_errors_contains(p, e);
}

/// A job is reported for its stage, its settings or its condition only where
/// they are wrong: jobs that are all fine bring no error of these kinds.
pub proof fn lemma_fine_jobs_bring_no_errors(stages: Seq<Seq<char>>, jobs: Seq<JobModel>)
    requires
        forall|i: int|
            0 <= i < jobs.len() ==> {
                &&& (#[trigger] jobs[i]).steps.len() > 0
                &&& jobs[i].timeout != Some(0u64)
                &&& jobs[i].retry != Some(0u32)
                &&& jobs[i].stage matches Some(s) ==> stages.len() == 0 || stages.contains(s)
                &&& jobs[i].condition matches Some(c) ==> syntax::check_condition(c) == Some(
                    None::<syntax::FaultModel>,
                )
            },
    ensures
        missing_stages(stages, jobs).len() == 0,
        bad_settings(jobs).len() == 0,
        bad_conditions(jobs).len() == 0,
    decreases jobs.len(),
{
    if jobs.len() > 0 {
        assert(jobs[jobs.len() - 1] == jobs.last());
        lemma_fine_jobs_bring_no_errors(stages, jobs.drop_last());
    }
}

/// The dependencies that the jobs name, counted.
pub open spec fn named_dependencies(jobs: Seq<JobModel>) -> nat {
    jobs.fold_left(0nat, |n: nat, job: JobModel| n + job.depends_on.len())
}

/// Jobs and dependencies of which there are not too many fit in a graph.
pub proof fn lemma_few_jobs_fit(jobs: Seq<JobModel>)
    requires
        jobs.len() <= u32::MAX,
        named_dependencies(jobs) <= u32::MAX,
    ensures
        fits(jobs),
{
    lemma_edges_are_named(jobs, jobs.len() as int);
    assert(jobs.take(jobs.len() as int) =~= jobs);
}

proof fn lemma_edges_are_named(jobs: Seq<JobModel>, n: int)
    requires
        0 <= n <= jobs.len(),
    ensures
        dag::dep_edges(jobs, n).len() <= named_dependencies(jobs.take(n)),
    decreases n,
{
    reveal_with_fuel(Seq::fold_left, 2);
    if n > 0 {
        lemma_edges_are_named(jobs, n - 1);
        assert(jobs.take(n).drop_last() =~= jobs.take(n - 1));
        assert(jobs.take(n).last() == jobs[n - 1]);
        let names = dag::job_names(jobs);
        lemma_few_edges(names, jobs[n - 1].depends_on, dag::node_of(names, jobs[n - 1].name)->0);
    }
}

proof fn lemma_few_edges(names: Seq<Seq<char>>, deps: Seq<Seq<char>>, to: int)
    ensures
        dag::edges_into(names, deps, to).len() <= deps.len(),
    decreases deps.len(),
{
    if deps.len() > 0 {
        lemma_few_edges(names, deps.drop_last(), to);
    }
}

} // verus!
