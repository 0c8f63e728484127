//! What is settled before a run begins.
use vstd::prelude::*;

use crate::dag::{Dag, DagError, DagModel};
use crate::matrix;
use crate::matrix::expand_matrix_jobs;
use crate::models::{Pipeline, PipelineModel, TriggerConfig};
use crate::plan;
use crate::plan::refusal_str;
use crate::scheduler;
use crate::scheduler::Scheduler;
use crate::trigger::{compute_trigger_skipped_jobs, TriggerFacts};
use crate::validator;
use crate::validator::{fits_of, validate_pipeline_checked, ValidationError};

verus! {

/// What a run works on.
pub struct Prepared {
    /// The pipeline, with a job for each combination of parameters.
    pub pipeline: Pipeline,
    /// The jobs that no changed file concerns.
    pub skipped: Vec<String>,
    /// The jobs with their dependencies.
    pub graph: Dag,
    /// The jobs to run, in an order in which they can.
    pub order: Vec<String>,
}

/// Why a pipeline does not run.
pub enum Refusal {
    /// There are more jobs or dependencies than fit in a graph.
    TooLarge,
    /// A condition cannot be checked.
    Unchecked,
    /// These things are wrong with it.
    Invalid(Vec<ValidationError>),
    /// The jobs cannot be put in order.
    Order(DagError),
}

impl Refusal {
    /// The text of the refusal.
    pub fn message(&self) -> (r: String)
        ensures
            r@ == match *self {
                Refusal::TooLarge => "Too many jobs or dependencies"@,
                Refusal::Unchecked => "A condition is cut within a character"@,
                Refusal::Invalid(errors) => plan::refusal(errors@.len()),
                Refusal::Order(DagError::Cycle) => "Cycle detected in DAG"@,
                Refusal::Order(DagError::Pattern(m)) => "Invalid filter pattern: "@ + m@,
            },
    {
        match self {
            Refusal::TooLarge => "Too many jobs or dependencies".to_owned(),
            Refusal::Unchecked => "A condition is cut within a character".to_owned(),
            Refusal::Invalid(errors) => refusal_str(errors.len()),
            Refusal::Order(e) => e.message(),
        }
    }
}

/// What becomes of a run that was prepared.
#[derive(Debug, Clone, Copy, PartialEq, Eq, Structural)]
pub enum Beginning {
    /// There is no job to run.
    Nothing,
    /// The jobs are shown, and none runs.
    ShowOnly,
    /// The jobs run.
    Run,
}

/// Whether a pipeline can be checked and nothing is wrong with it.
pub open spec fn valid(p: PipelineModel) -> bool {
    &&& validator::fits(p.jobs)
    &&& validator::checkable(p.jobs)
    &&& validator::all_errors(p).len() == 0
}

/// Whether these are the jobs of a pipeline that no changed file concerns.
/// Without a trigger there are none.
pub open spec fn unconcerned(
    pipeline: PipelineModel,
    trigger: Option<TriggerConfig>,
    files: Seq<Seq<char>>,
    skipped: Seq<Seq<char>>,
) -> bool {
    match trigger {
        Some(t) => exists|facts: TriggerFacts| #[trigger]
            crate::trigger::facts_hold(
                t.paths_include.deep_view(),
                t.paths_exclude.deep_view(),
                files,
                facts,
            ) && skipped == crate::trigger::skipped_names(pipeline.jobs, facts),
        None => skipped == Seq::<Seq<char>>::empty(),
    }
}

impl Scheduler {
    /// Checks a pipeline, makes a job for each combination of parameters, and
    /// settles which jobs run in which order and which are skipped.
    pub fn prepare(&self, pipeline: Pipeline, trigger: &Option<TriggerConfig>) -> (r: Result<
        Prepared,
        Refusal,
    >)
        ensures
            ({
                let given = pipeline.deep_view();
                let jobs = matrix::expand(given.jobs);
                let expanded = PipelineModel { jobs, ..given };
                match r {
                    Err(Refusal::TooLarge) => !validator::fits(given.jobs) || (valid(given)
                        && !validator::fits(jobs)),
                    Err(Refusal::Unchecked) => validator::fits(given.jobs) && !validator::checkable(
                        given.jobs,
                    ),
                    Err(Refusal::Invalid(errors)) => {
                        &&& validator::fits(given.jobs)
                        &&& validator::checkable(given.jobs)
                        &&& errors.deep_view() == validator::all_errors(given)
                        &&& errors@.len() > 0
                    },
                    Err(Refusal::Order(e)) => {
                        &&& valid(given)
                        &&& validator::fits(jobs)
                        &&& scheduler::is_order(
                            self.config.filter.deep_view(),
                            DagModel::of(jobs),
                            Err(e),
                        )
                    },
                    Ok(run) => {
                        &&& valid(given)
                        &&& validator::fits(jobs)
                        &&& run.pipeline.deep_view() == expanded
                        &&& run.graph.model() == DagModel::of(jobs)
                        &&& scheduler::is_order(
                            self.config.filter.deep_view(),
                            DagModel::of(jobs),
                            Ok(run.order),
                        )
                        &&& forall|i: int|
                            0 <= i < run.order@.len() ==> run.graph.model().jobs.map.contains_key(
                                #[trigger] run.order.deep_view()[i],
                            )
                        &&& unconcerned(
                            expanded,
                            *trigger,
                            self.config.changed_files.deep_view(),
                            run.skipped.deep_view(),
                        )
                    },
                }
            }),
    {
        if !fits_of(pipeline.jobs.as_slice()) {
            return Err(Refusal::TooLarge);
        }
        match validate_pipeline_checked(&pipeline) {
            None => {
                return Err(Refusal::Unchecked);
            },
            Some(errors) => {
                if errors.len() > 0 {
                    return Err(Refusal::Invalid(errors));
                }
            },
        }
        let jobs = expand_matrix_jobs(pipeline.jobs);
        let expanded = Pipeline { variables: pipeline.variables, stages: pipeline.stages, jobs };
        if !fits_of(expanded.jobs.as_slice()) {
            return Err(Refusal::TooLarge);
        }
        let skipped = match trigger {
            Some(t) => compute_trigger_skipped_jobs(&expanded, t, &self.config.changed_files),
            None => {
                let none: Vec<String> = Vec::new();
                assert(none.deep_view() =~= Seq::<Seq<char>>::empty());
                none
            },
        };
        let graph = match Dag::build(expanded.jobs.as_slice()) {
            Ok(g) => g,
            Err(e) => {
                return Err(Refusal::Order(e));
            },
        };
        match self.execution_order(&graph) {
            Ok(order) => {
                proof {
                    let all = expanded.jobs.deep_view();
                    assert forall|i: int| 0 <= i < order@.len() implies graph.model().jobs.map.contains_key(
                        #[trigger] order.deep_view()[i],
                    ) by {
                        scheduler::lemma_jobs_to_run_known(
                            all,
                            self.config.filter.deep_view(),
                            order,
                            i,
                        );
                    }
                }
                Ok(Prepared { pipeline: expanded, skipped, graph, order })
            },
            Err(e) => Err(Refusal::Order(e)),
        }
    }

    /// What becomes of a run with the given jobs in order.
    pub fn beginning(&self, order: &Vec<String>) -> (r: Beginning)
        ensures
            r == (if order@.len() == 0 {
                Beginning::Nothing
            } else if self.config.dry_run {
                Beginning::ShowOnly
            } else {
                Beginning::Run
            }),
    {
        if order.len() == 0 {
            Beginning::Nothing
        } else if self.config.dry_run {
            Beginning::ShowOnly
        } else {
            Beginning::Run
        }
    }
}

impl Beginning {
    /// What is said where no job runs.
    pub fn text(&self) -> (r: Option<&'static str>)
        ensures
            match (*self, r) {
                (Beginning::Nothing, Some(s)) => s@ == "No jobs match the filter pattern."@,
                (Beginning::ShowOnly, Some(s)) => s@ == "\n--dry-run mode: no jobs executed."@,
                (Beginning::Run, None) => true,
                _ => false,
            },
    {
        match self {
            Beginning::Nothing => Some("No jobs match the filter pattern."),
            Beginning::ShowOnly => Some("\n--dry-run mode: no jobs executed."),
            Beginning::Run => None,
        }
    }
}

/// A pipeline is valid exactly if its jobs fit in a graph, its conditions can be
/// checked and are well formed, its jobs have different names, depend on jobs
/// that exist and not in a circle, belong to stages that exist, and have steps,
/// time and attempts.
pub proof fn lemma_valid_means(p: PipelineModel)
    ensures
        valid(p) <==> {
            &&& validator::fits(p.jobs)
            &&& validator::checkable(p.jobs)
            &&& crate::dag::job_names(p.jobs).no_duplicates()
            &&& !crate::digraph::has_cycle(crate::dag::DagModel::of(p.jobs).edges)
            &&& forall|i: int, k: int|
                0 <= i < p.jobs.len() && 0 <= k < p.jobs[i].depends_on.len()
                    ==> crate::dag::job_names(p.jobs).contains(#[trigger] p.jobs[i].depends_on[k])
            &&& forall|i: int|
                0 <= i < p.jobs.len() ==> {
                    &&& (#[trigger] p.jobs[i]).steps.len() > 0
                    &&& p.jobs[i].timeout != Some(0u64)
                    &&& p.jobs[i].retry != Some(0u32)
                    &&& p.jobs[i].stage matches Some(s) ==> p.stages.len() == 0 || p.stages.contains(s)
                    &&& p.jobs[i].condition matches Some(c) ==> crate::syntax::check_condition(c)
                        == Some(None::<crate::syntax::FaultModel>)
                }
        },
{
    if validator::checkable(p.jobs) {
        validator::lemma_no_errors(p);
    }
}

/// Without a trigger every job is concerned.
pub proof fn lemma_no_trigger(p: PipelineModel, files: Seq<Seq<char>>, skipped: Seq<Seq<char>>)
    ensures
        unconcerned(p, None, files, skipped) <==> skipped.len() == 0,
{
    if skipped.len() == 0 {
        assert(skipped =~= Seq::<Seq<char>>::empty());
    }
}

} // verus!
