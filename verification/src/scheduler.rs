//! Which jobs run when.
use vstd::prelude::*;

use crate::conditions;
use crate::conditions::ConditionEvaluator;
use crate::dag;
use crate::dag::{Dag, DagError, DagModel};
use crate::logging::OutputMode;
use crate::models::{JobModel, JobResult, JobStatus, RemoteCacheConfig, ResultModel, Timestamp};
use crate::pattern;
use crate::string_map;
use crate::string_map::{DeepClone, StringMap, Table};
use crate::text::{contains_str, str_eq};
use crate::variables::{Scope, VariableResolver};

verus! {

/// The settings of a scheduler.
#[derive(Debug, Clone)]
pub struct SchedulerConfig {
    pub file: String,
    pub parallel: usize,
    pub output_mode: OutputMode,
    pub resume: bool,
    pub dry_run: bool,
    pub filter: Option<String>,
    pub working_dir: String,
    pub cache_ttl_days: i64,
    pub default_timeout: u64,
    pub default_retry: u32,
    pub changed_files: Vec<String>,
    pub remote_cache: RemoteCacheConfig,
}

impl SchedulerConfig {
    /// The default settings for the given directory.
    pub fn in_dir(working_dir: &str) -> (r: SchedulerConfig)
        ensures
            r.file@ == "pipeline.yml"@,
            r.parallel == 4,
            r.output_mode == OutputMode::Terminal,
            !r.resume,
            !r.dry_run,
            r.filter is None,
            r.working_dir@ == working_dir@,
            r.cache_ttl_days == 7,
            r.default_timeout == 3600,
            r.default_retry == 0,
            r.changed_files@.len() == 0,
            !r.remote_cache.enabled,
            r.remote_cache.url is None,
            r.remote_cache.token is None,
            r.remote_cache.namespace is None,
    {
        SchedulerConfig {
            file: "pipeline.yml".to_owned(),
            parallel: 4,
            output_mode: OutputMode::Terminal,
            resume: false,
            dry_run: false,
            filter: None,
            working_dir: working_dir.to_owned(),
            cache_ttl_days: 7,
            default_timeout: 3600,
            default_retry: 0,
            changed_files: Vec::new(),
            remote_cache: RemoteCacheConfig::default(),
        }
    }
}

/// Whether this is the order in which the jobs of a graph can run, of all or of
/// those that a filter asks for with all that they need, or why there is none.
pub open spec fn is_order(
    filter: Option<Seq<char>>,
    graph: DagModel,
    r: Result<Vec<String>, DagError>,
) -> bool {
    match (r, filter) {
        (Err(DagError::Cycle), _) => graph.cyclic(),
        (Err(DagError::Pattern(m)), Some(f)) => {
            &&& !graph.cyclic()
            &&& pattern::portable(f) ==> pattern::glob_error(f) == Some(m@)
        },
        (Err(DagError::Pattern(_)), None) => false,
        (Ok(order), None) => !graph.cyclic() && order.deep_view() == graph.order(),
        (Ok(order), Some(f)) => {
            &&& !graph.cyclic()
            &&& pattern::portable(f) ==> pattern::glob_error(f) is None
            &&& exists|hits: Seq<bool>| #[trigger]
                dag::pattern_hits(graph.names, f, hits) && order.deep_view() == graph.kept(hits)
        },
    }
}

/// Runs pipelines.
#[derive(Debug, Clone)]
pub struct Scheduler {
    pub config: SchedulerConfig,
}

impl Scheduler {
    /// A scheduler with the given settings.
    pub fn new(config: SchedulerConfig) -> (r: Scheduler)
        ensures
            r.config == config,
    {
        Scheduler { config }
    }

    /// The names of the jobs to run, in an order in which they can: all, or
    /// those that the filter asks for and all that they need.
    pub fn execution_order(&self, graph: &Dag) -> (r: Result<Vec<String>, DagError>)
        ensures
            is_order(self.config.filter.deep_view(), graph.model(), r),
            r is Ok ==> crate::digraph::is_topological(
                graph.model().node_order(),
                graph.model().names.len(),
                graph.model().edges,
            ),
    {
        let all = match graph.topological_order() {
            Ok(order) => order,
            Err(e) => {
                return Err(e);
            },
        };
        match &self.config.filter {
            Some(filter) => graph.filter_by_pattern(filter.as_str()),
            None => Ok(all),
        }
    }
}

// ---------------------------------------------------------------------------
// Rounds

/// Why a job is skipped.
#[derive(Debug, Clone, Copy, PartialEq, Eq, Structural)]
pub enum SkipReason {
    DependencyFailed,
    ConditionNotMet,
    TriggerNotMatched,
}

/// What is said of a job that is skipped.
pub open spec fn skip_text(reason: SkipReason) -> Seq<char> {
    match reason {
        SkipReason::DependencyFailed => "Dependency failed"@,
        SkipReason::ConditionNotMet => "Condition not met"@,
        SkipReason::TriggerNotMatched => "Trigger paths not matched"@,
    }
}

impl SkipReason {
    /// What is said of a job that is skipped.
    pub fn text(&self) -> (r: &'static str)
        ensures
            r@ == skip_text(*self),
    {
        match self {
            SkipReason::DependencyFailed => "Dependency failed",
            SkipReason::ConditionNotMet => "Condition not met",
            SkipReason::TriggerNotMatched => "Trigger paths not matched",
        }
    }
}

/// What happens to a pending job in a round.
#[derive(Debug, Clone, Copy, PartialEq, Eq, Structural)]
pub enum Decision {
    /// It has succeeded in the run that is resumed.
    Resumed,
    /// It stays pending.
    Wait,
    /// It is skipped.
    Skip(SkipReason),
    /// It starts.
    Start,
}

/// What the decisions of a round depend on, besides how far the run has come.
pub struct RoundModel {
    pub graph: DagModel,
    /// The results of the run that is resumed.
    pub previous: Table<ResultModel>,
    /// The jobs that no changed file concerns.
    pub skipped: Seq<Seq<char>>,
    /// How many jobs may run at the same time.
    pub parallel: nat,
    pub globals: Table<Seq<char>>,
    pub outputs: Table<Table<Seq<char>>>,
    pub system: Table<Seq<char>>,
}

/// How far a run has come.
#[verifier::ext_equal]
pub struct RunModel {
    /// The jobs that have not started, in the order in which they can run.
    pub pending: Seq<Seq<char>>,
    /// The jobs that are running.
    pub running: Seq<Seq<char>>,
    /// What became of the other jobs.
    pub completed: Table<ResultModel>,
}

/// How the jobs ended.
pub open spec fn status_table(t: Table<ResultModel>) -> Table<JobStatus> {
    Table {
        map: Map::new(|k: Seq<char>| t.map.contains_key(k), |k: Seq<char>| t.map[k].status),
        order: t.order,
    }
}

/// What became of a job that did not run.
pub open spec fn unrun(name: Seq<char>, status: JobStatus, message: Seq<char>, now: Timestamp) -> ResultModel {
    ResultModel {
        job_name: name,
        status,
        duration_ms: 0,
        retry_count: 0,
        message: Some(message),
        outputs: Table::empty(),
        started_at: Some(now),
        finished_at: Some(now),
    }
}

/// What became of a job that did not run.
pub fn unrun_result(name: &str, status: JobStatus, message: &str, now: Timestamp) -> (r: JobResult)
    ensures
        r.deep_view() == unrun(name@, status, message@, now),
{
    JobResult {
        job_name: name.to_owned(),
        status,
        duration_ms: 0,
        retry_count: 0,
        message: Some(message.to_owned()),
        outputs: StringMap::new(),
        started_at: Some(now),
        finished_at: Some(now),
    }
}

impl RoundModel {
    /// What references stand for in the condition of a job.
    pub open spec fn scope(self, job_env: Table<Seq<char>>) -> Scope {
        Scope {
            globals: self.globals,
            outputs: self.outputs,
            system: self.system,
            job: job_env,
            step: Table::empty(),
        }
    }

    /// Whether a job has succeeded in the run that is resumed.
    pub open spec fn is_resumed(self, name: Seq<char>) -> bool {
        self.previous.get(name) matches Some(r) && r.status == JobStatus::Success
    }

    /// Whether a job's condition holds; a job without one has one that holds.
    /// `None` if the condition has no value.
    pub open spec fn condition_holds(self, m: RunModel, job: JobModel) -> Option<bool> {
        match job.condition {
            Some(c) => conditions::condition_value(
                status_table(m.completed),
                self.scope(job.env),
                c,
            ),
            None => Some(true),
        }
    }

    /// What happens to a pending job if so many others start in the same round
    /// before it. `None` if its condition has no value.
    pub open spec fn decide(self, m: RunModel, name: Seq<char>, started: nat) -> Option<Decision> {
        let done = status_table(m.completed);
        let deps = self.graph.deps(name);
        let job = self.graph.jobs.map[name];
        let slot = if m.running.len() + started >= self.parallel {
            Decision::Wait
        } else {
            Decision::Start
        };
        if self.is_resumed(name) {
            Some(Decision::Resumed)
        } else if m.running.contains(name) || !dag::all_pass(deps, done) {
            Some(Decision::Wait)
        } else if dag::some_broke(deps, done) && job.condition is None {
            Some(Decision::Skip(SkipReason::DependencyFailed))
        } else {
            match self.condition_holds(m, job) {
                None => None,
                Some(holds) => Some(
                    if dag::some_broke(deps, done) {
                        if holds {
                            slot
                        } else {
                            Decision::Skip(SkipReason::DependencyFailed)
                        }
                    } else if !holds {
                        Decision::Skip(SkipReason::ConditionNotMet)
                    } else if self.skipped.contains(name) {
                        Decision::Skip(SkipReason::TriggerNotMatched)
                    } else {
                        slot
                    },
                ),
            }
        }
    }

    /// What happens to the first `n` pending jobs in a round, one after the
    /// other. `None` if the condition of one has no value.
    pub open spec fn decisions(self, m: RunModel, n: int) -> Option<Seq<Decision>>
        decreases n,
    {
        if n <= 0 {
            Some(Seq::empty())
        } else {
            match self.decisions(m, n - 1) {
                None => None,
                Some(ds) => match self.decide(m, m.pending[n - 1], starts(ds)) {
                    None => None,
                    Some(d) => Some(ds.push(d)),
                },
            }
        }
    }
}

/// How many of the jobs start.
pub open spec fn starts(ds: Seq<Decision>) -> nat
    decreases ds.len(),
{
    if ds.len() == 0 {
        0
    } else {
        starts(ds.drop_last()) + if ds.last() == Decision::Start {
            1nat
        } else {
            0nat
        }
    }
}

/// The names with the given decision among the first `n`.
pub open spec fn names_with(names: Seq<Seq<char>>, ds: Seq<Decision>, d: Decision, n: int) -> Seq<Seq<char>>
    decreases n,
{
    if n <= 0 {
        Seq::empty()
    } else if ds[n - 1] == d {
        names_with(names, ds, d, n - 1).push(names[n - 1])
    } else {
        names_with(names, ds, d, n - 1)
    }
}

/// The results with those of the jobs skipped among the first `n`.
pub open spec fn with_skipped(
    completed: Table<ResultModel>,
    names: Seq<Seq<char>>,
    ds: Seq<Decision>,
    now: Timestamp,
    n: int,
) -> Table<ResultModel>
    decreases n,
{
    if n <= 0 {
        completed
    } else {
        let before = with_skipped(completed, names, ds, now, n - 1);
        match ds[n - 1] {
            Decision::Skip(reason) => before.insert(
                names[n - 1],
                unrun(names[n - 1], JobStatus::Skipped, skip_text(reason), now),
            ),
            _ => before,
        }
    }
}

/// The results with those of the jobs among the first `n` that are cancelled.
pub open spec fn with_cancelled(
    completed: Table<ResultModel>,
    names: Seq<Seq<char>>,
    now: Timestamp,
    n: int,
) -> Table<ResultModel>
    decreases n,
{
    if n <= 0 {
        completed
    } else {
        let before = with_cancelled(completed, names, now, n - 1);
        if before.map.contains_key(names[n - 1]) {
            before
        } else {
            before.insert(
                names[n - 1],
                unrun(names[n - 1], JobStatus::Cancelled, "Cancelled by user signal"@, now),
            )
        }
    }
}

/// The first `n` names, each once.
pub open spec fn distinct(names: Seq<Seq<char>>, n: int) -> Seq<Seq<char>>
    decreases n,
{
    if n <= 0 {
        Seq::empty()
    } else {
        let before = distinct(names, n - 1);
        if before.contains(names[n - 1]) {
            before
        } else {
            before.push(names[n - 1])
        }
    }
}

/// The results of the first `n` names that have one.
pub open spec fn results_of(names: Seq<Seq<char>>, completed: Table<ResultModel>, n: int) -> Seq<ResultModel>
    decreases n,
{
    if n <= 0 {
        Seq::empty()
    } else {
        let before = results_of(names, completed, n - 1);
        match completed.get(names[n - 1]) {
            Some(r) => before.push(r),
            None => before,
        }
    }
}

impl RunModel {
    /// A run of the given jobs that resumes one with the given results.
    pub open spec fn start(order: Seq<Seq<char>>, previous: Table<ResultModel>) -> RunModel {
        RunModel {
            pending: distinct(order, order.len() as int),
            running: Seq::empty(),
            completed: previous,
        }
    }

    /// The run after a round with the given decisions.
    pub open spec fn after_round(self, ds: Seq<Decision>, now: Timestamp) -> RunModel {
        let n = self.pending.len() as int;
        RunModel {
            pending: names_with(self.pending, ds, Decision::Wait, n),
            running: self.running + names_with(self.pending, ds, Decision::Start, n),
            completed: with_skipped(self.completed, self.pending, ds, now, n),
        }
    }

    /// The run after a job has ended.
    pub open spec fn after_finish(self, result: ResultModel) -> RunModel {
        RunModel {
            pending: self.pending.filter(string_map::other_than(result.job_name)),
            running: self.running.filter(string_map::other_than(result.job_name)),
            completed: self.completed.insert(result.job_name, result),
        }
    }

    /// Whether nothing is left to do.
    pub open spec fn is_done(self) -> bool {
        self.pending.len() == 0 && self.running.len() == 0
    }
}

/// What the decisions of a round depend on, besides how far the run has come.
pub struct RoundContext<'a> {
    pub graph: &'a Dag,
    pub previous: &'a StringMap<JobResult>,
    pub skipped: &'a Vec<String>,
    pub parallel: usize,
    pub resolver: &'a VariableResolver,
}

impl<'a> RoundContext<'a> {
    /// What the decisions of a round depend on.
    pub open spec fn model(self) -> RoundModel {
        RoundModel {
            graph: self.graph.model(),
            previous: self.previous.deep_view(),
            skipped: self.skipped.deep_view(),
            parallel: self.parallel as nat,
            globals: self.resolver.globals(),
            outputs: self.resolver.outputs(),
            system: self.resolver.system(),
        }
    }
}

/// How far a run has come.
#[derive(Debug)]
pub struct RunState {
    pending: Vec<String>,
    running: Vec<String>,
    completed: StringMap<JobResult>,
}

fn status_table_of(completed: &StringMap<JobResult>) -> (r: StringMap<JobStatus>)
    ensures
        r.deep_view() == status_table(completed.deep_view()),
{
    let ghost t = completed.deep_view();
    let n: usize = completed.len();
    let mut out: StringMap<JobStatus> = StringMap::new();
    let mut i: usize = 0;
    while i < n
        invariant
            t == completed.deep_view(),
            t.wf(),
            n == t.order.len(),
            i <= n,
            out.deep_view().order == t.order.take(i as int),
            forall|k: Seq<char>|
                #[trigger] out.deep_view().map.contains_key(k) <==> t.order.take(i as int).contains(k),
            forall|k: Seq<char>|
                #[trigger] out.deep_view().map.contains_key(k) ==> out.deep_view().map[k]
                    == t.map[k].status,
        decreases n - i,
    {
        let ghost before = out.deep_view();
        let key = completed.key_at(i);
        assert(!before.map.contains_key(key@)) by {
            if t.order.take(i as int).contains(key@) {
                let j = t.order.take(i as int).index_of(key@);
                assert(t.order[j] == t.order[i as int]);
            }
        }
        out.insert(key.clone(), completed.value_at(i).status);
        assert(t.order.take(i + 1) =~= t.order.take(i as int).push(key@));
        assert forall|k: Seq<char>| #[trigger] out.deep_view().map.contains_key(k) <==> t.order.take(
            i + 1,
        ).contains(k) by {
            let a = t.order.take(i as int);
            if a.contains(k) {
                let j = a.index_of(k);
                assert(a.push(key@)[j] == k);
            }
            assert(a.push(key@)[i as int] == key@);
            if a.push(key@).contains(k) && k != key@ {
                let j = a.push(key@).index_of(k);
                assert(a[j] == k);
            }
        }
        i = i + 1;
    }
    assert(t.order.take(n as int) =~= t.order);
    assert(out.deep_view().map =~= status_table(t).map);
    out
}

impl RunState {
    /// How far the run has come.
    pub closed spec fn model(self) -> RunModel {
        RunModel {
            pending: self.pending.deep_view(),
            running: self.running.deep_view(),
            completed: self.completed.deep_view(),
        }
    }

    /// A run of the given jobs that resumes one with the given results.
    pub fn start(order: &Vec<String>, previous: &StringMap<JobResult>) -> (r: RunState)
        ensures
            r.model() == RunModel::start(order.deep_view(), previous.deep_view()),
    {
        let ghost all = order.deep_view();
        let mut pending: Vec<String> = Vec::new();
        let mut i: usize = 0;
        assert(pending.deep_view() =~= distinct(all, 0));
        while i < order.len()
            invariant
                all == order.deep_view(),
                i <= order@.len(),
                pending.deep_view() == distinct(all, i as int),
            decreases order@.len() - i,
        {
            let ghost before = pending.deep_view();
            assert(all[i as int] == order@[i as int]@);
            if !contains_str(&pending, order[i].as_str()) {
                pending.push(order[i].clone());
                assert(pending.deep_view() =~= before.push(all[i as int]));
            }
            i = i + 1;
        }
        let running: Vec<String> = Vec::new();
        assert(running.deep_view() =~= Seq::<Seq<char>>::empty());
        RunState { pending, running, completed: previous.deep_clone() }
    }

    /// The jobs that have not started.
    pub fn pending(&self) -> (r: &Vec<String>)
        ensures
            r.deep_view() == self.model().pending,
    {
        &self.pending
    }

    /// The jobs that are running.
    pub fn running(&self) -> (r: &Vec<String>)
        ensures
            r.deep_view() == self.model().running,
    {
        &self.running
    }

    /// What became of the other jobs.
    pub fn completed(&self) -> (r: &StringMap<JobResult>)
        ensures
            r.deep_view() == self.model().completed,
    {
        &self.completed
    }

    /// Whether nothing is left to do.
    pub fn is_done(&self) -> (r: bool)
        ensures
            r == self.model().is_done(),
    {
        self.pending.len() == 0 && self.running.len() == 0
    }

    fn decide(&self, ctx: &RoundContext, done: &StringMap<JobStatus>, name: &str, started: usize) -> (r: Option<
        Decision,
    >)
        requires
            done.deep_view() == status_table(self.model().completed),
            ctx.graph.model().jobs.map.contains_key(name@),
        ensures
            r == ctx.model().decide(self.model(), name@, started as nat),
    {
        let ghost c = ctx.model();
        let ghost deps = c.graph.deps(name@);
        if let Some(result) = ctx.previous.get(name) {
            if result.status == JobStatus::Success {
                return Some(Decision::Resumed);
            }
        }
        if contains_str(&self.running, name) {
            return Some(Decision::Wait);
        }
        if !ctx.graph.has_dependencies_met(name, done) {
            return Some(Decision::Wait);
        }
        let broke = ctx.graph.any_dep_failed(name, done);
        let job = match ctx.graph.job(name) {
            Some(job) => job,
            None => {
                return None;
            },
        };
        assert(job.deep_view() == c.graph.jobs.map[name@]);
        let free = self.running.len() < ctx.parallel && started < ctx.parallel - self.running.len();
        let slot = if free {
            Decision::Start
        } else {
            Decision::Wait
        };
        let holds = match &job.condition {
            Some(condition) => {
                let evaluator = ConditionEvaluator::new(done.deep_clone());
                let none: StringMap<String> = StringMap::new();
                assert(c.scope(job.env.deep_view()) == ctx.resolver.scope(
                    job.env.deep_view(),
                    none.deep_view(),
                ));
                match evaluator.evaluate_checked(condition.as_str(), ctx.resolver, &job.env, &none) {
                    Some(b) => b,
                    None => {
                        return None;
                    },
                }
            },
            None => {
                if broke {
                    return Some(Decision::Skip(SkipReason::DependencyFailed));
                }
                true
            },
        };
        if broke {
            if holds {
                Some(slot)
            } else {
                Some(Decision::Skip(SkipReason::DependencyFailed))
            }
        } else if !holds {
            Some(Decision::Skip(SkipReason::ConditionNotMet))
        } else if contains_str(ctx.skipped, name) {
            Some(Decision::Skip(SkipReason::TriggerNotMatched))
        } else {
            Some(slot)
        }
    }

    /// Decides what happens to each of the pending jobs, and takes note of it.
    /// Returns the decisions in the order of the pending jobs, or `None`, with
    /// nothing noted, if the condition of one has no value.
    pub fn round(&mut self, ctx: &RoundContext, now: Timestamp) -> (r: Option<Vec<(String, Decision)>>)
        requires
            forall|i: int|
                0 <= i < old(self).model().pending.len() ==> ctx.graph.model().jobs.map.contains_key(
                    #[trigger] old(self).model().pending[i],
                ),
        ensures
            ({
                let m = old(self).model();
                match (r, ctx.model().decisions(m, m.pending.len() as int)) {
                    (None, None) => final(self).model() == m,
                    (Some(made), Some(ds)) => {
                        &&& made@.len() == ds.len()
                        &&& forall|i: int|
                            0 <= i < ds.len() ==> (#[trigger] made@[i]).0@ == m.pending[i] && made@[i].1
                                == ds[i]
                        &&& final(self).model() == m.after_round(ds, now)
                    },
                    _ => false,
                }
            }),
    {
        let ghost m = self.model();
        let ghost c = ctx.model();
        let done = status_table_of(&self.completed);
        let n: usize = self.pending.len();
        let mut made: Vec<(String, Decision)> = Vec::new();
        let mut ds: Vec<Decision> = Vec::new();
        let mut started: usize = 0;
        let mut i: usize = 0;
        while i < n
            invariant
                m == self.model(),
                c == ctx.model(),
                *self == *old(self),
                n == self.pending@.len(),
                done.deep_view() == status_table(m.completed),
                forall|k: int|
                    0 <= k < m.pending.len() ==> ctx.graph.model().jobs.map.contains_key(
                        #[trigger] m.pending[k],
                    ),
                i <= n,
                started <= i,
                ds@.len() == i,
                c.decisions(m, i as int) == Some(ds@),
                started == starts(ds@),
                made@.len() == i,
                forall|k: int|
                    0 <= k < i ==> (#[trigger] made@[k]).0@ == m.pending[k] && made@[k].1 == ds@[k],
            decreases n - i,
        {
            let name = &self.pending[i];
            assert(m.pending[i as int] == name@);
            let ghost before = ds@;
            match self.decide(ctx, &done, name.as_str(), started) {
                Some(d) => {
                    made.push((name.clone(), d));
                    ds.push(d);
                    assert(ds@.drop_last() =~= before);
                    if d == Decision::Start {
                        started = started + 1;
                    }
                },
                None => {
                    proof {
                        lemma_decisions_none(c, m, i + 1, n as int);
                    }
                    return None;
                },
            }
            i = i + 1;
        }
        self.apply(&ds, now);
        Some(made)
    }

    fn apply(&mut self, ds: &Vec<Decision>, now: Timestamp)
        requires
            ds@.len() == old(self).model().pending.len(),
        ensures
            final(self).model() == old(self).model().after_round(ds@, now),
    {
        let ghost m = self.model();
        let n: usize = self.pending.len();
        let mut pending: Vec<String> = Vec::new();
        let mut i: usize = 0;
        assert(pending.deep_view() =~= names_with(m.pending, ds@, Decision::Wait, 0));
        assert(m.running + names_with(m.pending, ds@, Decision::Start, 0) =~= m.running);
        while i < n
            invariant
                n == self.pending@.len() == ds@.len(),
                self.pending.deep_view() == m.pending,
                i <= n,
                pending.deep_view() == names_with(m.pending, ds@, Decision::Wait, i as int),
                self.running.deep_view() == m.running + names_with(
                    m.pending,
                    ds@,
                    Decision::Start,
                    i as int,
                ),
                self.completed.deep_view() == with_skipped(
                    m.completed,
                    m.pending,
                    ds@,
                    now,
                    i as int,
                ),
            decreases n - i,
        {
            let name = self.pending[i].clone();
            assert(m.pending[i as int] == name@);
            let ghost waiting = pending.deep_view();
            let ghost running = self.running.deep_view();
            match ds[i] {
                Decision::Resumed => {},
                Decision::Wait => {
                    pending.push(name);
                    assert(pending.deep_view() =~= waiting.push(name@));
                },
                Decision::Skip(reason) => {
                    let result = unrun_result(name.as_str(), JobStatus::Skipped, reason.text(), now);
                    self.completed.insert(name, result);
                },
                Decision::Start => {
                    self.running.push(name);
                    assert(self.running.deep_view() =~= running.push(name@));
                },
            }
            assert(self.running.deep_view() =~= m.running + names_with(
                m.pending,
                ds@,
                Decision::Start,
                i + 1,
            ));
            i = i + 1;
        }
        self.pending = pending;
    }

    /// Takes note of what became of a job.
    pub fn finish(&mut self, result: JobResult)
        ensures
            final(self).model() == old(self).model().after_finish(result.deep_view()),
    {
        let name = result.job_name.clone();
        self.pending = without(&self.pending, name.as_str());
        self.running = without(&self.running, name.as_str());
        self.completed.insert(name, result);
    }

    /// Takes note that the pending jobs are cancelled.
    pub fn cancel_pending(&mut self, now: Timestamp)
        ensures
            final(self).model() == (RunModel {
                completed: with_cancelled(
                    old(self).model().completed,
                    old(self).model().pending,
                    now,
                    old(self).model().pending.len() as int,
                ),
                ..old(self).model()
            }),
    {
        let ghost m = self.model();
        let n: usize = self.pending.len();
        let mut i: usize = 0;
        while i < n
            invariant
                n == self.pending@.len(),
                self.pending.deep_view() == m.pending,
                self.running.deep_view() == m.running,
                i <= n,
                self.completed.deep_view() == with_cancelled(m.completed, m.pending, now, i as int),
            decreases n - i,
        {
            let name = self.pending[i].clone();
            assert(m.pending[i as int] == name@);
            if !self.completed.contains_key(name.as_str()) {
                let result = unrun_result(
                    name.as_str(),
                    JobStatus::Cancelled,
                    "Cancelled by user signal",
                    now,
                );
                self.completed.insert(name, result);
            }
            i = i + 1;
        }
    }

    /// The results of the given jobs, as far as there are any.
    pub fn results(&self, order: &Vec<String>) -> (r: Vec<JobResult>)
        ensures
            r.deep_view() == results_of(
                order.deep_view(),
                self.model().completed,
                order@.len() as int,
            ),
    {
        let ghost all = order.deep_view();
        let ghost completed = self.model().completed;
        let mut out: Vec<JobResult> = Vec::new();
        let mut i: usize = 0;
        assert(out.deep_view() =~= results_of(all, completed, 0));
        while i < order.len()
            invariant
                all == order.deep_view(),
                completed == self.completed.deep_view(),
                i <= order@.len(),
                out.deep_view() == results_of(all, completed, i as int),
            decreases order@.len() - i,
        {
            let ghost before = out.deep_view();
            assert(all[i as int] == order@[i as int]@);
            if let Some(result) = self.completed.get(order[i].as_str()) {
                let copy = result.deep_clone();
                out.push(copy);
                assert(out.deep_view() =~= before.push(copy.deep_view()));
            }
            i = i + 1;
        }
        out
    }
}

fn without(names: &Vec<String>, name: &str) -> (r: Vec<String>)
    ensures
        r.deep_view() == names.deep_view().filter(string_map::other_than(name@)),
{
    let ghost all = names.deep_view();
    let ghost pred = string_map::other_than(name@);
    let mut out: Vec<String> = Vec::new();
    let mut i: usize = 0;
    assert(all.take(0) =~= Seq::<Seq<char>>::empty());
    assert(out.deep_view() =~= all.take(0).filter(pred)) by {
        reveal(Seq::filter);
    }
    while i < names.len()
        invariant
            all == names.deep_view(),
            pred == string_map::other_than(name@),
            i <= names@.len(),
            out.deep_view() == all.take(i as int).filter(pred),
        decreases names@.len() - i,
    {
        let ghost before = out.deep_view();
        assert(all[i as int] == names@[i as int]@);
        assert(all.take(i + 1).drop_last() =~= all.take(i as int));
        if !str_eq(names[i].as_str(), name) {
            out.push(names[i].clone());
            assert(out.deep_view() =~= before.push(all[i as int]));
        }
        assert(out.deep_view() == all.take(i + 1).filter(pred)) by {
            reveal(Seq::filter);
        }
        i = i + 1;
    }
    assert(all.take(all.len() as int) =~= all);
    out
}

proof fn lemma_decisions_none(c: RoundModel, m: RunModel, i: int, n: int)
    requires
        0 <= i <= n,
        c.decisions(m, i) is None,
    ensures
        c.decisions(m, n) is None,
    decreases n - i,
{
    if i < n {
        lemma_decisions_none(c, m, i + 1, n);
    }
}

// ---------------------------------------------------------------------------
// Laws of rounds

proof fn lemma_decisions_len(c: RoundModel, m: RunModel, n: int)
    requires
        0 <= n,
    ensures
        c.decisions(m, n) matches Some(ds) ==> ds.len() == n,
    decreases n,
{
    if n > 0 {
        lemma_decisions_len(c, m, n - 1);
    }
}

proof fn lemma_decision_at(c: RoundModel, m: RunModel, n: int, i: int)
    requires
        0 <= i < n,
        c.decisions(m, n) is Some,
    ensures
        c.decisions(m, i) is Some,
        c.decisions(m, n)->0.len() == n,
        c.decide(m, m.pending[i], starts(c.decisions(m, i)->0)) == Some(c.decisions(m, n)->0[i]),
    decreases n,
{
    lemma_decisions_len(c, m, n);
    lemma_decisions_len(c, m, n - 1);
    if i < n - 1 {
        lemma_decision_at(c, m, n - 1, i);
    }
}

/// A job starts only if all on which it depends have succeeded or were
/// skipped, its condition holds if it has one, and the changed files concern
/// it.
pub proof fn lemma_start_is_due(c: RoundModel, m: RunModel, i: int)
    requires
        0 <= i < m.pending.len(),
        c.decisions(m, m.pending.len() as int) is Some,
        c.decisions(m, m.pending.len() as int)->0[i] == Decision::Start,
    ensures
        dag::all_pass(c.graph.deps(m.pending[i]), status_table(m.completed)),
        c.condition_holds(m, c.graph.jobs.map[m.pending[i]]) == Some(true),
        !c.skipped.contains(m.pending[i]),
        !c.is_resumed(m.pending[i]),
        !m.running.contains(m.pending[i]),
{
    lemma_decision_at(c, m, m.pending.len() as int, i);
    let deps = c.graph.deps(m.pending[i]);
    let done = status_table(m.completed);
    if dag::some_broke(deps, done) {
        dag::lemma_broken_dependency_holds(deps, done);
    }
}

/// A job with a failed or cancelled dependency waits, unless it has succeeded
/// in the run that is resumed.
pub proof fn lemma_broken_dependency_waits(c: RoundModel, m: RunModel, name: Seq<char>, started: nat)
    requires
        dag::some_broke(c.graph.deps(name), status_table(m.completed)),
        !c.is_resumed(name),
    ensures
        c.decide(m, name, started) == Some(Decision::Wait),
{
    dag::lemma_broken_dependency_holds(c.graph.deps(name), status_table(m.completed));
}

/// A job whose dependencies have succeeded and that has no condition starts as
/// soon as there is room, if the changed files concern it.
pub proof fn lemma_ready_job_starts(c: RoundModel, m: RunModel, name: Seq<char>, started: nat)
    requires
        !c.is_resumed(name),
        !m.running.contains(name),
        dag::all_succeeded(c.graph.deps(name), status_table(m.completed)),
        c.graph.jobs.map[name].condition is None,
        !c.skipped.contains(name),
        m.running.len() + started < c.parallel,
    ensures
        c.decide(m, name, started) == Some(Decision::Start),
{
    dag::lemma_success_is_enough(c.graph.deps(name), status_table(m.completed));
}

proof fn lemma_starts_fit(c: RoundModel, m: RunModel, n: int)
    requires
        0 <= n <= m.pending.len(),
    ensures
        c.decisions(m, n) matches Some(ds) ==> starts(ds) == 0 || m.running.len() + starts(ds)
            <= c.parallel,
    decreases n,
{
    if n > 0 {
        lemma_starts_fit(c, m, n - 1);
        if let Some(ds) = c.decisions(m, n - 1) {
            if let Some(d) = c.decide(m, m.pending[n - 1], starts(ds)) {
                assert(ds.push(d).drop_last() =~= ds);
            }
        }
    }
}

proof fn lemma_names_with_len(names: Seq<Seq<char>>, ds: Seq<Decision>, n: int)
    requires
        0 <= n <= ds.len(),
    ensures
        names_with(names, ds, Decision::Start, n).len() == starts(ds.take(n)),
    decreases n,
{
    if n > 0 {
        lemma_names_with_len(names, ds, n - 1);
        assert(ds.take(n).drop_last() =~= ds.take(n - 1));
        assert(ds.take(n).last() == ds[n - 1]);
    }
}

/// A round never makes more jobs run than may run at the same time.
pub proof fn lemma_parallel_limit(c: RoundModel, m: RunModel, ds: Seq<Decision>, now: Timestamp)
    requires
        c.decisions(m, m.pending.len() as int) == Some(ds),
    ensures
        m.after_round(ds, now).running.len() <= c.parallel || m.after_round(ds, now).running
            == m.running,
{
    let n = m.pending.len() as int;
    lemma_decisions_len(c, m, n);
    lemma_starts_fit(c, m, n);
    lemma_names_with_len(m.pending, ds, n);
    assert(ds.take(n) =~= ds);
    if starts(ds) == 0 {
        assert(m.after_round(ds, now).running =~= m.running);
    }
}

proof fn lemma_names_with(names: Seq<Seq<char>>, ds: Seq<Decision>, d: Decision, n: int, x: Seq<char>)
    requires
        0 <= n <= names.len(),
    ensures
        names_with(names, ds, d, n).contains(x) <==> exists|i: int|
            0 <= i < n && ds[i] == d && #[trigger] names[i] == x,
    decreases n,
{
    if n > 0 {
        lemma_names_with(names, ds, d, n - 1, x);
        let before = names_with(names, ds, d, n - 1);
        let all = names_with(names, ds, d, n);
        if before.contains(x) {
            let k = before.index_of(x);
            assert(all[k] == x);
        }
        if ds[n - 1] == d {
            assert(all[all.len() - 1] == names[n - 1]);
        }
        if all.contains(x) && !before.contains(x) {
            let k = all.index_of(x);
            if k < before.len() {
                assert(before[k] == x);
            }
            assert(names[n - 1] == x);
        }
    }
}

proof fn lemma_names_with_distinct(names: Seq<Seq<char>>, ds: Seq<Decision>, d: Decision, n: int)
    requires
        0 <= n <= names.len(),
        names.no_duplicates(),
    ensures
        names_with(names, ds, d, n).no_duplicates(),
    decreases n,
{
    if n > 0 {
        lemma_names_with_distinct(names, ds, d, n - 1);
        let before = names_with(names, ds, d, n - 1);
        let all = names_with(names, ds, d, n);
        if ds[n - 1] == d {
            lemma_names_with(names, ds, d, n - 1, names[n - 1]);
            assert forall|i: int, j: int| 0 <= i < j < all.len() implies all[i] != all[j] by {
                if j == before.len() {
                    assert(before.contains(before[i]));
                }
            }
        }
    }
}

proof fn lemma_with_skipped(
    completed: Table<ResultModel>,
    names: Seq<Seq<char>>,
    ds: Seq<Decision>,
    now: Timestamp,
    n: int,
    x: Seq<char>,
)
    requires
        0 <= n <= names.len(),
    ensures
        with_skipped(completed, names, ds, now, n).map.contains_key(x) <==> completed.map.contains_key(
            x,
        ) || exists|i: int| 0 <= i < n && ds[i] is Skip && #[trigger] names[i] == x,
    decreases n,
{
    if n > 0 {
        lemma_with_skipped(completed, names, ds, now, n - 1, x);
    }
}

impl RunModel {
    /// Whether every one of the given jobs is pending, is running or has a
    /// result, none is pending or running twice, and the results of the run
    /// that is resumed are there.
    pub open spec fn accounts_for(self, order: Seq<Seq<char>>, previous: Table<ResultModel>) -> bool {
        &&& self.pending.no_duplicates()
        &&& self.running.no_duplicates()
        &&& forall|x: Seq<char>| #[trigger]
            self.pending.contains(x) ==> !self.running.contains(x)
        &&& forall|x: Seq<char>| #[trigger]
            order.contains(x) ==> self.pending.contains(x) || self.running.contains(x)
                || self.completed.map.contains_key(x)
        &&& forall|x: Seq<char>| #[trigger]
            previous.map.contains_key(x) ==> self.completed.map.contains_key(x)
    }
}

proof fn lemma_distinct(names: Seq<Seq<char>>, n: int, x: Seq<char>)
    requires
        0 <= n <= names.len(),
    ensures
        distinct(names, n).no_duplicates(),
        distinct(names, n).contains(x) <==> exists|i: int| 0 <= i < n && #[trigger] names[i] == x,
    decreases n,
{
    if n > 0 {
        lemma_distinct(names, n - 1, x);
        let before = distinct(names, n - 1);
        let all = distinct(names, n);
        if before.contains(x) {
            let k = before.index_of(x);
            assert(all[k] == x);
        }
        if !before.contains(names[n - 1]) {
            assert(all[all.len() - 1] == names[n - 1]);
            assert forall|i: int, j: int| 0 <= i < j < all.len() implies all[i] != all[j] by {
                if j == before.len() {
                    assert(before.contains(before[i]));
                }
            }
        }
        if all.contains(x) && !before.contains(x) {
            let k = all.index_of(x);
            if k < before.len() {
                assert(before[k] == x);
            }
            assert(names[n - 1] == x);
        }
    }
}

/// At the start, every job is accounted for.
pub proof fn lemma_start_accounts(order: Seq<Seq<char>>, previous: Table<ResultModel>)
    ensures
        RunModel::start(order, previous).accounts_for(order, previous),
{
    let m = RunModel::start(order, previous);
    let n = order.len() as int;
    lemma_distinct(order, n, Seq::empty());
    assert forall|x: Seq<char>| #[trigger] order.contains(x) implies m.pending.contains(x) by {
        lemma_distinct(order, n, x);
        let i = order.index_of(x);
        assert(order[i] == x);
    }
}

/// A round keeps every job accounted for, and no job starts twice.
pub proof fn lemma_round_accounts(
    c: RoundModel,
    m: RunModel,
    ds: Seq<Decision>,
    now: Timestamp,
    order: Seq<Seq<char>>,
)
    requires
        m.accounts_for(order, c.previous),
        c.decisions(m, m.pending.len() as int) == Some(ds),
    ensures
        m.after_round(ds, now).accounts_for(order, c.previous),
{
    let n = m.pending.len() as int;
    let after = m.after_round(ds, now);
    let started = names_with(m.pending, ds, Decision::Start, n);
    lemma_decisions_len(c, m, n);
    lemma_names_with_distinct(m.pending, ds, Decision::Wait, n);
    lemma_names_with_distinct(m.pending, ds, Decision::Start, n);
    assert forall|i: int, j: int| 0 <= i < j < after.running.len() implies after.running[i]
        != after.running[j] by {
        if j >= m.running.len() && i < m.running.len() {
            assert(started.contains(started[j - m.running.len()]));
            lemma_names_with(m.pending, ds, Decision::Start, n, after.running[j]);
            let k = choose|k: int|
                0 <= k < n && ds[k] == Decision::Start && #[trigger] m.pending[k] == after.running[j];
            assert(m.pending.contains(m.pending[k]));
            assert(m.running.contains(m.running[i]));
        } else if i >= m.running.len() {
            assert(started[i - m.running.len()] != started[j - m.running.len()]);
        }
    }
    assert forall|x: Seq<char>| #[trigger] after.pending.contains(x) implies !after.running.contains(
        x,
    ) by {
        lemma_names_with(m.pending, ds, Decision::Wait, n, x);
        lemma_names_with(m.pending, ds, Decision::Start, n, x);
        let k = choose|k: int| 0 <= k < n && ds[k] == Decision::Wait && #[trigger] m.pending[k] == x;
        assert(m.pending.contains(m.pending[k]));
        if after.running.contains(x) {
            let j = after.running.index_of(x);
            if j < m.running.len() {
                assert(m.running.contains(m.running[j]));
            } else {
                assert(started.contains(started[j - m.running.len()]));
                let l = choose|l: int|
                    0 <= l < n && ds[l] == Decision::Start && #[trigger] m.pending[l] == x;
                assert(k == l);
            }
        }
    }
    assert forall|x: Seq<char>| #[trigger] order.contains(x) implies after.pending.contains(x)
        || after.running.contains(x) || after.completed.map.contains_key(x) by {
        lemma_names_with(m.pending, ds, Decision::Wait, n, x);
        lemma_names_with(m.pending, ds, Decision::Start, n, x);
        lemma_with_skipped(m.completed, m.pending, ds, now, n, x);
        if m.pending.contains(x) {
            let k = m.pending.index_of(x);
            assert(m.pending[k] == x);
            lemma_decision_at(c, m, n, k);
            match ds[k] {
                Decision::Resumed => {
                    assert(c.previous.map.contains_key(x));
                },
                Decision::Wait => {},
                Decision::Skip(_) => {},
                Decision::Start => {
                    assert(started.contains(x));
                    let j = started.index_of(x);
                    assert(after.running[m.running.len() + j] == x);
                },
            }
        } else if m.running.contains(x) {
            let j = m.running.index_of(x);
            assert(after.running[j] == x);
        }
    }
    assert forall|x: Seq<char>| #[trigger]
        c.previous.map.contains_key(x) implies after.completed.map.contains_key(x) by {
        lemma_with_skipped(m.completed, m.pending, ds, now, n, x);
    }
}

proof fn lemma_filter_other(s: Seq<Seq<char>>, name: Seq<char>, x: Seq<char>)
    ensures
        s.filter(string_map::other_than(name)).contains(x) <==> s.contains(x) && x != name,
        s.no_duplicates() ==> s.filter(string_map::other_than(name)).no_duplicates(),
    decreases s.len(),
{
    reveal(Seq::filter);
    let pred = string_map::other_than(name);
    let f = s.filter(pred);
    if s.len() > 0 {
        let d = s.drop_last();
        let g = d.filter(pred);
        lemma_filter_other(d, name, x);
        if s.contains(x) {
            let i = s.index_of(x);
            if i < d.len() {
                assert(d[i] == x);
            }
        }
        if d.contains(x) {
            let i = d.index_of(x);
            assert(s[i] == x);
        }
        assert(s[s.len() - 1] == s.last());
        if g.contains(x) {
            let i = g.index_of(x);
            assert(f[i] == x);
        }
        if s.last() != name {
            assert(f[f.len() - 1] == s.last());
        }
        if f.contains(x) && !g.contains(x) {
            let i = f.index_of(x);
            if i < g.len() {
                assert(g[i] == x);
            }
        }
        if s.no_duplicates() {
            assert(d.no_duplicates());
            lemma_filter_other(d, name, s.last());
            assert(!d.contains(s.last())) by {
                if d.contains(s.last()) {
                    let i = d.index_of(s.last());
                    assert(s[i] == s[s.len() - 1]);
                }
            }
            assert forall|i: int, j: int| 0 <= i < j < f.len() implies f[i] != f[j] by {
                if j == g.len() {
                    assert(g.contains(g[i]));
                }
            }
        }
    }
}

/// A job that ends keeps every job accounted for.
pub proof fn lemma_finish_accounts(
    m: RunModel,
    result: ResultModel,
    order: Seq<Seq<char>>,
    previous: Table<ResultModel>,
)
    requires
        m.accounts_for(order, previous),
    ensures
        m.after_finish(result).accounts_for(order, previous),
{
    let after = m.after_finish(result);
    let name = result.job_name;
    lemma_filter_other(m.pending, name, name);
    lemma_filter_other(m.running, name, name);
    assert forall|x: Seq<char>| #[trigger] after.pending.contains(x) implies !after.running.contains(
        x,
    ) by {
        lemma_filter_other(m.pending, name, x);
        lemma_filter_other(m.running, name, x);
    }
    assert forall|x: Seq<char>| #[trigger] order.contains(x) implies after.pending.contains(x)
        || after.running.contains(x) || after.completed.map.contains_key(x) by {
        lemma_filter_other(m.pending, name, x);
        lemma_filter_other(m.running, name, x);
    }
}

proof fn lemma_all_results(names: Seq<Seq<char>>, completed: Table<ResultModel>, n: int)
    requires
        0 <= n <= names.len(),
        forall|i: int| 0 <= i < n ==> completed.map.contains_key(#[trigger] names[i]),
    ensures
        results_of(names, completed, n).len() == n,
        forall|i: int|
            0 <= i < n ==> #[trigger] results_of(names, completed, n)[i] == completed.map[names[i]],
    decreases n,
{
    if n > 0 {
        lemma_all_results(names, completed, n - 1);
    }
}

/// When nothing is left to do, every job has a result, in the order of the
/// jobs.
pub proof fn lemma_done_means_all_results(m: RunModel, order: Seq<Seq<char>>, previous: Table<ResultModel>)
    requires
        m.accounts_for(order, previous),
        m.is_done(),
    ensures
        results_of(order, m.completed, order.len() as int).len() == order.len(),
        forall|i: int|
            0 <= i < order.len() ==> #[trigger] results_of(order, m.completed, order.len() as int)[i]
                == m.completed.map[order[i]],
{
    assert forall|i: int| 0 <= i < order.len() implies m.completed.map.contains_key(
        #[trigger] order[i],
    ) by {
        assert(order.contains(order[i]));
    }
    lemma_all_results(order, m.completed, order.len() as int);
}

/// After cancelling, every pending job has a result.
pub proof fn lemma_cancelled_have_results(
    completed: Table<ResultModel>,
    names: Seq<Seq<char>>,
    now: Timestamp,
    n: int,
    x: Seq<char>,
)
    requires
        0 <= n <= names.len(),
    ensures
        with_cancelled(completed, names, now, n).map.contains_key(x) <==> completed.map.contains_key(x)
            || exists|i: int| 0 <= i < n && #[trigger] names[i] == x,
        completed.map.contains_key(x) ==> with_cancelled(completed, names, now, n).map[x]
            == completed.map[x],
    decreases n,
{
    if n > 0 {
        lemma_cancelled_have_results(completed, names, now, n - 1, x);
    }
}

/// Every job of a graph is known to it by its name.
pub proof fn lemma_ordered_jobs_known(jobs: Seq<JobModel>, i: int)
    requires
        crate::digraph::is_topological(
            DagModel::of(jobs).node_order(),
            DagModel::of(jobs).names.len(),
            DagModel::of(jobs).edges,
        ),
        0 <= i < DagModel::of(jobs).order().len(),
    ensures
        DagModel::of(jobs).jobs.map.contains_key(DagModel::of(jobs).order()[i]),
{
    let k = DagModel::of(jobs).node_order()[i];
    lemma_table_has(jobs, k);
}

/// Every job that is to run, with a filter or without, is known to the graph by
/// its name.
pub proof fn lemma_jobs_to_run_known(
    jobs: Seq<JobModel>,
    filter: Option<Seq<char>>,
    order: Vec<String>,
    i: int,
)
    requires
        crate::digraph::is_topological(
            DagModel::of(jobs).node_order(),
            DagModel::of(jobs).names.len(),
            DagModel::of(jobs).edges,
        ),
        is_order(filter, DagModel::of(jobs), Ok(order)),
        0 <= i < order@.len(),
    ensures
        DagModel::of(jobs).jobs.map.contains_key(order.deep_view()[i]),
{
    let graph = DagModel::of(jobs);
    match filter {
        None => {
            lemma_ordered_jobs_known(jobs, i);
        },
        Some(f) => {
            let hits = choose|hits: Seq<bool>| #[trigger]
                dag::pattern_hits(graph.names, f, hits) && order.deep_view() == graph.kept(hits);
            let pred = graph.needed_nodes(hits);
            let nodes = graph.node_order().filter(pred);
            assert(order.deep_view().len() == order@.len());
            assert(order.deep_view() == graph.label(nodes));
            let n = nodes[i];
            assert(nodes.contains(n));
            graph.node_order().lemma_filter_contains_rev(pred, n);
            let k = graph.node_order().index_of(n);
            assert(graph.node_order()[k] == n);
            assert(order.deep_view()[i] == graph.names[n]);
            lemma_table_has(jobs, n);
        },
    }
}

proof fn lemma_table_has(jobs: Seq<JobModel>, k: int)
    requires
        0 <= k < jobs.len(),
    ensures
        dag::job_table(jobs).map.contains_key(jobs[k].name),
    decreases jobs.len(),
{
    if k < jobs.len() - 1 {
        lemma_table_has(jobs.drop_last(), k);
    }
}

// ---------------------------------------------------------------------------
// Laws of decisions

/// A job that did not succeed before and does not run, whose dependencies have
/// all succeeded or were skipped, that has no condition and that the changed
/// files concern, starts whenever there is room.
pub proof fn lemma_met_dependencies_start(c: RoundModel, m: RunModel, name: Seq<char>, started: nat)
    requires
        !(c.previous.map.contains_key(name) && c.previous.map[name].status == JobStatus::Success),
        !m.running.contains(name),
        forall|i: int|
            0 <= i < c.graph.deps(name).len() ==> m.completed.map.contains_key(
                #[trigger] c.graph.deps(name)[i],
            ) && (m.completed.map[c.graph.deps(name)[i]].status == JobStatus::Success
                || m.completed.map[c.graph.deps(name)[i]].status == JobStatus::Skipped),
        c.graph.jobs.map[name].condition is None,
        !c.skipped.contains(name),
    ensures
        m.running.len() + started < c.parallel ==> c.decide(m, name, started) == Some(Decision::Start),
        m.running.len() + started >= c.parallel ==> c.decide(m, name, started) == Some(Decision::Wait),
{
    let done = status_table(m.completed);
    let deps = c.graph.deps(name);
    assert forall|i: int| 0 <= i < deps.len() implies (done.get(#[trigger] deps[i]) matches Some(s)
        && dag::lets_pass(s)) by {}
    if dag::some_broke(deps, done) {
        dag::lemma_broken_dependency_holds(deps, done);
    }
}

/// In a graph of jobs with different names, a job without a condition starts
/// whenever there is room if each job that it names as a dependency has
/// succeeded or was skipped; names that stand for no job do not count.
pub proof fn lemma_declared_dependencies_start(
    c: RoundModel,
    m: RunModel,
    jobs: Seq<JobModel>,
    i: int,
    started: nat,
)
    requires
        c.graph == DagModel::of(jobs),
        dag::job_names(jobs).no_duplicates(),
        0 <= i < jobs.len(),
        !(c.previous.map.contains_key(jobs[i].name) && c.previous.map[jobs[i].name].status
            == JobStatus::Success),
        !m.running.contains(jobs[i].name),
        forall|k: int, j: int|
            0 <= k < jobs[i].depends_on.len() && 0 <= j < jobs.len()
                && #[trigger] jobs[i].depends_on[k] == (#[trigger] jobs[j]).name ==> m.completed.map.contains_key(
                jobs[j].name,
            ) && (m.completed.map[jobs[j].name].status == JobStatus::Success
                || m.completed.map[jobs[j].name].status == JobStatus::Skipped),
        jobs[i].condition is None,
        !c.skipped.contains(jobs[i].name),
        m.running.len() + started < c.parallel,
    ensures
        c.decide(m, jobs[i].name, started) == Some(Decision::Start),
{
    let name = jobs[i].name;
    let deps = c.graph.deps(name);
    lemma_table_holds(jobs, i);
    assert forall|k: int| 0 <= k < deps.len() implies m.completed.map.contains_key(
        #[trigger] deps[k],
    ) && (m.completed.map[deps[k]].status == JobStatus::Success || m.completed.map[deps[k]].status
        == JobStatus::Skipped) by {
        assert(deps.contains(deps[k]));
        dag::lemma_deps_are_declared(jobs, i, deps[k]);
        let a = jobs[i].depends_on.index_of(deps[k]);
        let b = dag::job_names(jobs).index_of(deps[k]);
        assert(jobs[i].depends_on[a] == jobs[b].name);
    }
    lemma_met_dependencies_start(c, m, name, started);
}

proof fn lemma_table_holds(jobs: Seq<JobModel>, k: int)
    requires
        0 <= k < jobs.len(),
        dag::job_names(jobs).no_duplicates(),
    ensures
        dag::job_table(jobs).map.contains_key(jobs[k].name),
        dag::job_table(jobs).map[jobs[k].name] == jobs[k],
    decreases jobs.len(),
{
    let names = dag::job_names(jobs);
    if k < jobs.len() - 1 {
        assert(names[k] != names[jobs.len() - 1]);
        assert forall|a: int, b: int|
            0 <= a < b < jobs.len() - 1 implies dag::job_names(jobs.drop_last())[a]
            != dag::job_names(jobs.drop_last())[b] by {
            assert(names[a] != names[b]);
        }
        lemma_table_holds(jobs.drop_last(), k);
    }
}

/// A job is skipped for a failed dependency only if one of its dependencies
/// has failed or was cancelled.
pub proof fn lemma_dependency_failed_is_true(c: RoundModel, m: RunModel, name: Seq<char>, started: nat)
    ensures
        c.decide(m, name, started) == Some(Decision::Skip(SkipReason::DependencyFailed)) ==> exists|
            i: int,
        |
            0 <= i < c.graph.deps(name).len() && m.completed.map.contains_key(
                #[trigger] c.graph.deps(name)[i],
            ) && (m.completed.map[c.graph.deps(name)[i]].status == JobStatus::Failed
                || m.completed.map[c.graph.deps(name)[i]].status == JobStatus::Cancelled),
{
    let done = status_table(m.completed);
    let deps = c.graph.deps(name);
    if dag::some_broke(deps, done) {
        let i = choose|i: int|
            0 <= i < deps.len() && (done.get(#[trigger] deps[i]) == Some(JobStatus::Failed)
                || done.get(deps[i]) == Some(JobStatus::Cancelled));
        assert(m.completed.map.contains_key(c.graph.deps(name)[i]));
    }
}

/// A job waits as long as one of its dependencies has no result, or one other
/// than success or being skipped, unless it has succeeded in the run that is
/// resumed.
pub proof fn lemma_unmet_dependency_waits(
    c: RoundModel,
    m: RunModel,
    name: Seq<char>,
    started: nat,
    i: int,
)
    requires
        !(c.previous.map.contains_key(name) && c.previous.map[name].status == JobStatus::Success),
        0 <= i < c.graph.deps(name).len(),
        !m.completed.map.contains_key(c.graph.deps(name)[i]) || (
        m.completed.map[c.graph.deps(name)[i]].status != JobStatus::Success
            && m.completed.map[c.graph.deps(name)[i]].status != JobStatus::Skipped),
    ensures
        c.decide(m, name, started) == Some(Decision::Wait),
{
    let done = status_table(m.completed);
    let deps = c.graph.deps(name);
    assert(!(done.get(deps[i]) matches Some(s) && dag::lets_pass(s)));
}

/// A job counts as resumed exactly if it has succeeded in the run that is
/// resumed, whatever else holds.
pub proof fn lemma_resumed_if_succeeded(c: RoundModel, m: RunModel, name: Seq<char>, started: nat)
    ensures
        c.decide(m, name, started) == Some(Decision::Resumed) <==> c.previous.map.contains_key(name)
            && c.previous.map[name].status == JobStatus::Success,
{
}

/// A job that runs is not started again.
pub proof fn lemma_running_job_waits(c: RoundModel, m: RunModel, name: Seq<char>, started: nat)
    requires
        m.running.contains(name),
        !(c.previous.map.contains_key(name) && c.previous.map[name].status == JobStatus::Success),
    ensures
        c.decide(m, name, started) == Some(Decision::Wait),
{
}

/// A job whose dependencies are met is skipped if its condition is false, and
/// treated as if it had none if it is true; nothing is decided if the
/// condition has no value.
pub proof fn lemma_condition_decides(
    c: RoundModel,
    m: RunModel,
    name: Seq<char>,
    started: nat,
    condition: Seq<char>,
)
    requires
        !(c.previous.map.contains_key(name) && c.previous.map[name].status == JobStatus::Success),
        !m.running.contains(name),
        forall|i: int|
            0 <= i < c.graph.deps(name).len() ==> m.completed.map.contains_key(
                #[trigger] c.graph.deps(name)[i],
            ) && (m.completed.map[c.graph.deps(name)[i]].status == JobStatus::Success
                || m.completed.map[c.graph.deps(name)[i]].status == JobStatus::Skipped),
        c.graph.jobs.map[name].condition == Some(condition),
        !condition.contains('$'),
        m.completed.wf(),
    ensures
        ({
            let statuses = Seq::new(
                m.completed.order.len(),
                |k: int| m.completed.map[m.completed.order[k]].status,
            );
            match conditions::eval(statuses, condition) {
                None => c.decide(m, name, started) is None,
                Some(false) => c.decide(m, name, started) == Some(
                    Decision::Skip(SkipReason::ConditionNotMet),
                ),
                Some(true) => c.decide(m, name, started) == Some(
                    if c.skipped.contains(name) {
                        Decision::Skip(SkipReason::TriggerNotMatched)
                    } else if m.running.len() + started < c.parallel {
                        Decision::Start
                    } else {
                        Decision::Wait
                    },
                ),
            }
        }),
{
    let done = status_table(m.completed);
    let deps = c.graph.deps(name);
    assert forall|i: int| 0 <= i < deps.len() implies (done.get(#[trigger] deps[i]) matches Some(s)
        && dag::lets_pass(s)) by {}
    if dag::some_broke(deps, done) {
        dag::lemma_broken_dependency_holds(deps, done);
    }
    crate::variables::lemma_no_dollar(condition);
    crate::variables::lemma_plain_text(c.scope(c.graph.jobs.map[name].env), condition);
    let statuses = Seq::new(
        m.completed.order.len(),
        |k: int| m.completed.map[m.completed.order[k]].status,
    );
    assert forall|k: int| 0 <= k < statuses.len() implies #[trigger] done.values()[k] == statuses[k] by {
        assert(m.completed.order.contains(m.completed.order[k]));
    }
    assert(done.values() =~= statuses);
}

/// A job without a condition whose dependencies are met is skipped if the
/// changed files do not concern it, room or not.
pub proof fn lemma_unconcerned_job_skipped(c: RoundModel, m: RunModel, name: Seq<char>, started: nat)
    requires
        !(c.previous.map.contains_key(name) && c.previous.map[name].status == JobStatus::Success),
        !m.running.contains(name),
        forall|i: int|
            0 <= i < c.graph.deps(name).len() ==> m.completed.map.contains_key(
                #[trigger] c.graph.deps(name)[i],
            ) && (m.completed.map[c.graph.deps(name)[i]].status == JobStatus::Success
                || m.completed.map[c.graph.deps(name)[i]].status == JobStatus::Skipped),
        c.graph.jobs.map[name].condition is None,
        c.skipped.contains(name),
    ensures
        c.decide(m, name, started) == Some(Decision::Skip(SkipReason::TriggerNotMatched)),
{
    let done = status_table(m.completed);
    let deps = c.graph.deps(name);
    assert forall|i: int| 0 <= i < deps.len() implies (done.get(#[trigger] deps[i]) matches Some(s)
        && dag::lets_pass(s)) by {}
    if dag::some_broke(deps, done) {
        dag::lemma_broken_dependency_holds(deps, done);
    }
}

/// A job that starts, or is skipped because of its condition or the changed
/// files, has each of its dependencies met.
pub proof fn lemma_decided_jobs_are_ready(c: RoundModel, m: RunModel, name: Seq<char>, started: nat, i: int)
    requires
        c.decide(m, name, started) matches Some(d) && d != Decision::Wait && d != Decision::Resumed,
        0 <= i < c.graph.deps(name).len(),
    ensures
        m.completed.map.contains_key(c.graph.deps(name)[i]),
        m.completed.map[c.graph.deps(name)[i]].status == JobStatus::Success
            || m.completed.map[c.graph.deps(name)[i]].status == JobStatus::Skipped,
        !m.running.contains(name),
{
    let done = status_table(m.completed);
    let deps = c.graph.deps(name);
    assert(done.get(deps[i]) matches Some(s) && dag::lets_pass(s));
}

/// A job starts only if there is room for one more.
pub proof fn lemma_start_needs_room(c: RoundModel, m: RunModel, name: Seq<char>, started: nat)
    requires
        c.decide(m, name, started) == Some(Decision::Start),
    ensures
        m.running.len() + started < c.parallel,
        !c.skipped.contains(name),
{
    let done = status_table(m.completed);
    let deps = c.graph.deps(name);
    if dag::some_broke(deps, done) {
        dag::lemma_broken_dependency_holds(deps, done);
    }
}

proof fn lemma_with_skipped_value(
    completed: Table<ResultModel>,
    names: Seq<Seq<char>>,
    ds: Seq<Decision>,
    now: Timestamp,
    n: int,
    i: int,
)
    requires
        0 <= n <= names.len(),
        0 <= i < names.len(),
        names.no_duplicates(),
    ensures
        with_skipped(completed, names, ds, now, n).get(names[i]) == (if i < n && ds[i] is Skip {
            Some(unrun(names[i], JobStatus::Skipped, skip_text(ds[i]->Skip_0), now))
        } else {
            completed.get(names[i])
        }),
    decreases n,
{
    if n > 0 {
        lemma_with_skipped_value(completed, names, ds, now, n - 1, i);
        if i != n - 1 {
            assert(names[i] != names[n - 1]);
        }
    }
}

proof fn lemma_with_skipped_other(
    completed: Table<ResultModel>,
    names: Seq<Seq<char>>,
    ds: Seq<Decision>,
    now: Timestamp,
    n: int,
    x: Seq<char>,
)
    requires
        0 <= n <= names.len(),
        !names.contains(x),
    ensures
        with_skipped(completed, names, ds, now, n).get(x) == completed.get(x),
    decreases n,
{
    if n > 0 {
        lemma_with_skipped_other(completed, names, ds, now, n - 1, x);
        assert(names.contains(names[n - 1]));
    }
}

/// What a round does to each pending job: one that waits stays pending, one
/// that starts runs, one that is skipped gets a result that says why, one that
/// is resumed is done; the result of no other is touched.
pub proof fn lemma_round_effect(m: RunModel, ds: Seq<Decision>, now: Timestamp, i: int)
    requires
        ds.len() == m.pending.len(),
        m.pending.no_duplicates(),
        forall|x: Seq<char>| #[trigger] m.pending.contains(x) ==> !m.running.contains(x),
        0 <= i < m.pending.len(),
    ensures
        ({
            let after = m.after_round(ds, now);
            let name = m.pending[i];
            &&& after.pending.contains(name) <==> ds[i] == Decision::Wait
            &&& after.running.contains(name) <==> ds[i] == Decision::Start
            &&& match ds[i] {
                Decision::Skip(reason) => {
                    &&& after.completed.map.contains_key(name)
                    &&& after.completed.map[name].job_name == name
                    &&& after.completed.map[name].status == JobStatus::Skipped
                    &&& after.completed.map[name].duration_ms == 0
                    &&& after.completed.map[name].retry_count == 0
                    &&& after.completed.map[name].outputs == Table::<Seq<char>>::empty()
                    &&& after.completed.map[name].started_at == Some(now)
                    &&& after.completed.map[name].finished_at == Some(now)
                    &&& reason == SkipReason::DependencyFailed ==> after.completed.map[name].message
                        == Some("Dependency failed"@)
                    &&& reason == SkipReason::ConditionNotMet ==> after.completed.map[name].message
                        == Some("Condition not met"@)
                    &&& reason == SkipReason::TriggerNotMatched ==> after.completed.map[name].message
                        == Some("Trigger paths not matched"@)
                },
                _ => {
                    &&& after.completed.map.contains_key(name) <==> m.completed.map.contains_key(name)
                    &&& m.completed.map.contains_key(name) ==> after.completed.map[name]
                        == m.completed.map[name]
                },
            }
        }),
{
    let n = m.pending.len() as int;
    let name = m.pending[i];
    let after = m.after_round(ds, now);
    let started = names_with(m.pending, ds, Decision::Start, n);
    lemma_names_with(m.pending, ds, Decision::Wait, n, name);
    lemma_names_with(m.pending, ds, Decision::Start, n, name);
    lemma_with_skipped_value(m.completed, m.pending, ds, now, n, i);
    assert(m.pending.contains(name));
    assert forall|k: int| 0 <= k < n && #[trigger] m.pending[k] == name implies k == i by {}
    if after.running.contains(name) {
        let j = after.running.index_of(name);
        if j < m.running.len() {
            assert(m.running[j] == name);
        } else {
            assert(started[j - m.running.len()] == name);
        }
    }
    if started.contains(name) {
        let j = started.index_of(name);
        assert(after.running[m.running.len() + j] == name);
    }
}

/// A round leaves every job alone that was not pending, and keeps the jobs
/// that wait in their order.
pub proof fn lemma_round_leaves_others(m: RunModel, ds: Seq<Decision>, now: Timestamp, x: Seq<char>)
    requires
        ds.len() == m.pending.len(),
        !m.pending.contains(x),
    ensures
        !m.after_round(ds, now).pending.contains(x),
        m.after_round(ds, now).running.contains(x) <==> m.running.contains(x),
        m.after_round(ds, now).completed.get(x) == m.completed.get(x),
{
    let n = m.pending.len() as int;
    let after = m.after_round(ds, now);
    let started = names_with(m.pending, ds, Decision::Start, n);
    lemma_names_with(m.pending, ds, Decision::Wait, n, x);
    lemma_names_with(m.pending, ds, Decision::Start, n, x);
    lemma_with_skipped_other(m.completed, m.pending, ds, now, n, x);
    assert forall|k: int| 0 <= k < n implies #[trigger] m.pending[k] != x by {
        assert(m.pending.contains(m.pending[k]));
    }
    if after.running.contains(x) {
        let j = after.running.index_of(x);
        if j < m.running.len() {
            assert(m.running[j] == x);
        } else {
            assert(started.contains(started[j - m.running.len()]));
        }
    }
    if m.running.contains(x) {
        let j = m.running.index_of(x);
        assert(after.running[j] == x);
    }
}

/// The decisions of a round are made one after the other: each counts the jobs
/// that start before it.
pub proof fn lemma_decisions_in_turn(c: RoundModel, m: RunModel, ds: Seq<Decision>, i: int)
    requires
        c.decisions(m, m.pending.len() as int) == Some(ds),
        0 <= i < m.pending.len(),
    ensures
        ds.len() == m.pending.len(),
        c.decide(
            m,
            m.pending[i],
            ds.take(i).filter(|d: Decision| d == Decision::Start).len(),
        ) == Some(ds[i]),
{
    let n = m.pending.len() as int;
    lemma_decision_at(c, m, n, i);
    lemma_decisions_prefix(c, m, n, i);
    lemma_starts_counts(ds.take(i));
}

proof fn lemma_decisions_prefix(c: RoundModel, m: RunModel, n: int, i: int)
    requires
        0 <= i <= n,
        c.decisions(m, n) is Some,
    ensures
        c.decisions(m, i) == Some(c.decisions(m, n)->0.take(i)),
    decreases n,
{
    lemma_decisions_len(c, m, n);
    if i < n {
        lemma_decisions_prefix(c, m, n - 1, i);
        lemma_decisions_len(c, m, n - 1);
        assert(c.decisions(m, n - 1)->0.take(i) =~= c.decisions(m, n)->0.take(i));
    } else {
        assert(c.decisions(m, n)->0.take(n) =~= c.decisions(m, n)->0);
    }
}

proof fn lemma_starts_counts(ds: Seq<Decision>)
    ensures
        starts(ds) == ds.filter(|d: Decision| d == Decision::Start).len(),
    decreases ds.len(),
{
    reveal(Seq::filter);
    if ds.len() > 0 {
        lemma_starts_counts(ds.drop_last());
    }
}

/// A job that ends has its result, and neither waits nor runs; nothing changes
/// for the others.
pub proof fn lemma_finish_effect(m: RunModel, result: ResultModel, x: Seq<char>)
    ensures
        ({
            let after = m.after_finish(result);
            if x == result.job_name {
                &&& after.completed.get(x) == Some(result)
                &&& !after.pending.contains(x)
                &&& !after.running.contains(x)
            } else {
                &&& after.completed.get(x) == m.completed.get(x)
                &&& after.pending.contains(x) <==> m.pending.contains(x)
                &&& after.running.contains(x) <==> m.running.contains(x)
            }
        }),
{
    lemma_filter_other(m.pending, result.job_name, x);
    lemma_filter_other(m.running, result.job_name, x);
}

/// At the start every job is pending, none runs, and the results are those of
/// the run that is resumed.
pub proof fn lemma_start_effect(order: Seq<Seq<char>>, previous: Table<ResultModel>, x: Seq<char>)
    ensures
        RunModel::start(order, previous).pending.contains(x) <==> order.contains(x),
        RunModel::start(order, previous).pending.no_duplicates(),
        order.no_duplicates() ==> RunModel::start(order, previous).pending == order,
        RunModel::start(order, previous).running.len() == 0,
        RunModel::start(order, previous).completed.get(x) == previous.get(x),
{
    lemma_distinct(order, order.len() as int, x);
    if order.contains(x) {
        assert(order[order.index_of(x)] == x);
    }
    if order.no_duplicates() {
        lemma_distinct_same(order, order.len() as int);
        assert(order.take(order.len() as int) =~= order);
    }
}

proof fn lemma_distinct_same(names: Seq<Seq<char>>, n: int)
    requires
        0 <= n <= names.len(),
        names.no_duplicates(),
    ensures
        distinct(names, n) == names.take(n),
    decreases n,
{
    if n > 0 {
        lemma_distinct_same(names, n - 1);
        let before = names.take(n - 1);
        if before.contains(names[n - 1]) {
            let i = before.index_of(names[n - 1]);
            assert(names[i] == names[n - 1]);
        }
        assert(before.push(names[n - 1]) =~= names.take(n));
    } else {
        assert(names.take(0) =~= Seq::<Seq<char>>::empty());
    }
}

/// Cancelling gives each job that has no result yet the result that it was
/// cancelled by the user.
pub proof fn lemma_cancelled_result(
    completed: Table<ResultModel>,
    names: Seq<Seq<char>>,
    now: Timestamp,
    i: int,
)
    requires
        0 <= i < names.len(),
        !completed.map.contains_key(names[i]),
    ensures
        ({
            let after = with_cancelled(completed, names, now, names.len() as int);
            &&& after.map.contains_key(names[i])
            &&& after.map[names[i]].job_name == names[i]
            &&& after.map[names[i]].status == JobStatus::Cancelled
            &&& after.map[names[i]].message == Some("Cancelled by user signal"@)
            &&& after.map[names[i]].duration_ms == 0
            &&& after.map[names[i]].started_at == Some(now)
            &&& after.map[names[i]].finished_at == Some(now)
        }),
{
    lemma_cancelled_value(completed, names, now, names.len() as int, names[i]);
    lemma_cancelled_have_results(completed, names, now, names.len() as int, names[i]);
    assert(0 <= i < names.len() && names[i] == names[i]);
}

proof fn lemma_cancelled_value(
    completed: Table<ResultModel>,
    names: Seq<Seq<char>>,
    now: Timestamp,
    n: int,
    x: Seq<char>,
)
    requires
        0 <= n <= names.len(),
        !completed.map.contains_key(x),
    ensures
        with_cancelled(completed, names, now, n).map.contains_key(x) ==> with_cancelled(
            completed,
            names,
            now,
            n,
        ).map[x] == unrun(x, JobStatus::Cancelled, "Cancelled by user signal"@, now),
    decreases n,
{
    if n > 0 {
        lemma_cancelled_value(completed, names, now, n - 1, x);
    }
}

/// The results of jobs are those of the jobs that have one, each with the name
/// that it was asked by, in the order of the names.
pub proof fn lemma_results_complete(names: Seq<Seq<char>>, completed: Table<ResultModel>, x: ResultModel)
    ensures
        results_of(names, completed, names.len() as int).contains(x) <==> exists|i: int|
            0 <= i < names.len() && completed.get(#[trigger] names[i]) == Some(x),
{
    lemma_results_contains(names, completed, names.len() as int, x);
}

proof fn lemma_results_contains(
    names: Seq<Seq<char>>,
    completed: Table<ResultModel>,
    n: int,
    x: ResultModel,
)
    requires
        0 <= n <= names.len(),
    ensures
        results_of(names, completed, n).contains(x) <==> exists|i: int|
            0 <= i < n && completed.get(#[trigger] names[i]) == Some(x),
    decreases n,
{
    if n > 0 {
        lemma_results_contains(names, completed, n - 1, x);
        let before = results_of(names, completed, n - 1);
        let all = results_of(names, completed, n);
        if before.contains(x) {
            let k = before.index_of(x);
            assert(all[k] == x);
        }
        if completed.get(names[n - 1]) == Some(x) {
            assert(all[all.len() - 1] == x);
        }
        if all.contains(x) && !before.contains(x) {
            let k = all.index_of(x);
            if k < before.len() {
                assert(before[k] == x);
            }
            assert(completed.get(names[n - 1]) == Some(x));
        }
    }
}

/// A run is done exactly if no job waits and none runs.
pub proof fn lemma_done_means_idle(m: RunModel)
    ensures
        m.is_done() <==> forall|x: Seq<char>| !m.pending.contains(x) && !m.running.contains(x),
{
    if m.pending.len() > 0 {
        assert(m.pending.contains(m.pending[0]));
    }
    if m.running.len() > 0 {
        assert(m.running.contains(m.running[0]));
    }
}

/// The condition of a job sees the job's own variables first, then those of the
/// pipeline and the system, and the outputs of the jobs.
pub proof fn lemma_condition_scope(c: RoundModel, env: Table<Seq<char>>, name: Seq<char>)
    requires
        !(name.len() >= 5 && name.take(5) == "jobs."@),
    ensures
        env.map.contains_key(name) ==> c.scope(env).lookup(name) == Ok::<
            Seq<char>,
            crate::variables::ResolveFailure,
        >(env.map[name]),
        !env.map.contains_key(name) && c.globals.map.contains_key(name) ==> c.scope(env).lookup(name)
            == Ok::<Seq<char>, crate::variables::ResolveFailure>(c.globals.map[name]),
        !env.map.contains_key(name) && !c.globals.map.contains_key(name) && c.system.map.contains_key(
            name,
        ) ==> c.scope(env).lookup(name) == Ok::<Seq<char>, crate::variables::ResolveFailure>(
            c.system.map[name],
        ),
        c.scope(env).outputs == c.outputs,
{
    crate::variables::lemma_lookup_priority(c.scope(env), name);
}

/// Without a filter all jobs run. With one, every job whose name matches runs,
/// with each that runs all on which it depends, and of these none that is not
/// needed: if nothing matches, nothing runs.
pub proof fn lemma_filter_decides(graph: DagModel, filter: Seq<char>, order: Vec<String>, all: Vec<String>)
    requires
        graph.wf(),
        crate::digraph::is_topological(graph.node_order(), graph.names.len(), graph.edges),
        pattern::portable(filter),
        forall|i: int| 0 <= i < graph.names.len() ==> pattern::portable(#[trigger] graph.names[i]),
        is_order(Some(filter), graph, Ok(order)),
        is_order(None, graph, Ok(all)),
    ensures
        all.deep_view() == graph.order(),
        forall|i: int|
            0 <= i < graph.names.len() && pattern::glob_match(filter, #[trigger] graph.names[i])
                == Some(true) ==> order.deep_view().contains(graph.names[i]),
        forall|x: Seq<char>, k: int|
            order.deep_view().contains(x) && 0 <= k < graph.deps(x).len()
                ==> order.deep_view().contains(#[trigger] graph.deps(x)[k]),
        (forall|i: int|
            0 <= i < graph.names.len() ==> pattern::glob_match(filter, #[trigger] graph.names[i])
                != Some(true)) ==> order.deep_view().len() == 0,
{
    let hits = choose|hits: Seq<bool>| #[trigger]
        dag::pattern_hits(graph.names, filter, hits) && order.deep_view() == graph.kept(hits);
    assert forall|i: int|
        0 <= i < graph.names.len() && pattern::glob_match(filter, #[trigger] graph.names[i]) == Some(
            true,
        ) implies order.deep_view().contains(graph.names[i]) by {
        assert(hits[i]);
        dag::lemma_kept_is_closed(graph, hits, graph.names[i]);
    }
    assert forall|x: Seq<char>, k: int|
        order.deep_view().contains(x) && 0 <= k < graph.deps(x).len() implies order.deep_view().contains(
        #[trigger] graph.deps(x)[k],
    ) by {
        dag::lemma_kept_is_closed(graph, hits, x);
    }
    if forall|i: int|
        0 <= i < graph.names.len() ==> pattern::glob_match(filter, #[trigger] graph.names[i]) != Some(
            true,
        ) {
        assert(!hits.contains(true)) by {
            if hits.contains(true) {
                let i = hits.index_of(true);
                assert(hits[i]);
                assert(pattern::glob_match(filter, graph.names[i]) == Some(true));
            }
        }
        dag::lemma_nothing_hit(graph, hits);
    }
}

/// Jobs that depend on each other in a circle are in no order, and others are
/// not refused for it.
pub proof fn lemma_cycle_decides(graph: DagModel, filter: Option<Seq<char>>, order: Vec<String>)
    ensures
        is_order(filter, graph, Ok(order)) ==> !crate::digraph::has_cycle(graph.edges),
        is_order(filter, graph, Err(DagError::Cycle)) <==> crate::digraph::has_cycle(graph.edges),
{
}

proof fn lemma_names_in_order(names: Seq<Seq<char>>, ds: Seq<Decision>, d: Decision, n: int) -> (at: Seq<int>)
    requires
        0 <= n <= names.len(),
    ensures
        at.len() == names_with(names, ds, d, n).len(),
        forall|i: int| 0 <= i < at.len() ==> 0 <= #[trigger] at[i] < n && ds[at[i]] == d,
        forall|i: int| 0 <= i < at.len() ==> names[#[trigger] at[i]] == names_with(names, ds, d, n)[i],
        forall|i: int, j: int| 0 <= i < j < at.len() ==> #[trigger] at[i] < #[trigger] at[j],
    decreases n,
{
    if n <= 0 {
        Seq::empty()
    } else {
        let before = lemma_names_in_order(names, ds, d, n - 1);
        if ds[n - 1] == d {
            before.push(n - 1)
        } else {
            before
        }
    }
}

/// A round keeps the order of the jobs: those that wait stay in theirs, and
/// those that start come behind the ones that run, in theirs.
pub proof fn lemma_round_keeps_order(m: RunModel, ds: Seq<Decision>, now: Timestamp)
    ensures
        exists|at: Seq<int>| #[trigger]
            dag::stand_at(m.after_round(ds, now).pending, m.pending, at),
        m.after_round(ds, now).running.take(m.running.len() as int) == m.running,
        exists|at: Seq<int>| #[trigger]
            dag::stand_at(
                m.after_round(ds, now).running.skip(m.running.len() as int),
                m.pending,
                at,
            ),
{
    let n = m.pending.len() as int;
    let after = m.after_round(ds, now);
    let a = lemma_names_in_order(m.pending, ds, Decision::Wait, n);
    assert(dag::stand_at(after.pending, m.pending, a));
    let b = lemma_names_in_order(m.pending, ds, Decision::Start, n);
    assert(after.running.take(m.running.len() as int) =~= m.running);
    let started = names_with(m.pending, ds, Decision::Start, n);
    assert(after.running.skip(m.running.len() as int) =~= started);
    assert(dag::stand_at(started, m.pending, b));
}

/// A filter that is not well formed is refused with what is wrong with it, and
/// one that is well formed is not; without a filter nothing is refused for one.
pub proof fn lemma_bad_filter_refused(graph: DagModel, filter: Seq<char>, order: Vec<String>, message: String)
    requires
        pattern::portable(filter),
    ensures
        is_order(Some(filter), graph, Ok(order)) ==> pattern::glob_error(filter) is None,
        is_order(Some(filter), graph, Err(DagError::Pattern(message))) ==> pattern::glob_error(filter)
            == Some(message@),
        !is_order(None, graph, Err(DagError::Pattern(message))),
{
}

} // verus!
