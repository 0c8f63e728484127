//! What is shown of a run before it begins.
use vstd::prelude::*;

use crate::dag::{Dag, DagModel};
use crate::logging::OutputMode;
use crate::models::{JobResult, JobStatus, ResultModel};
use crate::numbers;
use crate::numbers::{decimal_str, pad_right_str, push_decimal, repeat_str};
use crate::reporting;
use crate::reporting::{format_status_emoji, truncate};
use crate::scheduler::Scheduler;
use crate::string_map::{StringMap, Table};
use crate::text;
use crate::text::{append_str, join_strs};

verus! {

/// What resuming means for a job.
pub open spec fn resume_note(previous: Option<ResultModel>) -> Seq<char> {
    match previous {
        Some(r) => match r.status {
            JobStatus::Success => " [resume: skip]"@,
            JobStatus::Failed => " [resume: re-run]"@,
            _ => ""@,
        },
        None => ""@,
    }
}

/// The names of the jobs that a job depends on.
pub open spec fn deps_text(deps: Seq<Seq<char>>) -> Seq<char> {
    if deps.len() == 0 {
        "none"@
    } else {
        text::join(deps, ", "@)
    }
}

/// The row of a job: its number, a symbol, its name, its stage and the jobs
/// that it depends on.
pub open spec fn plan_row(
    number: nat,
    name: Seq<char>,
    stage: Option<Seq<char>>,
    deps: Seq<Seq<char>>,
    previous: Option<ResultModel>,
) -> Seq<char> {
    "  "@ + numbers::pad_right(numbers::decimal(number), 3) + " "@ + reporting::emoji(
        JobStatus::Pending,
    ) + " "@ + numbers::pad_right(reporting::shortened(name, 33), 35) + " stage="@
        + numbers::pad_right(
        match stage {
            Some(s) => s,
            None => "-"@,
        },
        10,
    ) + " deps="@ + deps_text(deps) + resume_note(previous)
}

/// The rows of the first `n` jobs.
pub open spec fn plan_rows(
    order: Seq<Seq<char>>,
    graph: DagModel,
    previous: Table<ResultModel>,
    n: nat,
) -> Seq<Seq<char>> {
    Seq::new(
        n,
        |i: int|
            plan_row(
                (i + 1) as nat,
                order[i],
                graph.jobs.map[order[i]].stage,
                graph.deps(order[i]),
                previous.get(order[i]),
            ),
    )
}

/// The lines that show the jobs of a run in their order.
pub open spec fn plan(
    order: Seq<Seq<char>>,
    graph: DagModel,
    previous: Table<ResultModel>,
) -> Seq<Seq<char>> {
    seq![""@, "Pipeline Execution Plan"@, numbers::repeat('═', 80)] + plan_rows(
        order,
        graph,
        previous,
        order.len(),
    ) + seq![numbers::repeat('═', 80)]
}

fn resume_note_str(previous: Option<&JobResult>) -> (r: &'static str)
    ensures
        r@ == resume_note(
            match previous {
                Some(p) => Some(p.deep_view()),
                None => None,
            },
        ),
{
    match previous {
        Some(p) => match p.status {
            JobStatus::Success => " [resume: skip]",
            JobStatus::Failed => " [resume: re-run]",
            _ => "",
        },
        None => "",
    }
}

fn plan_row_str(
    number: usize,
    name: &str,
    stage: &Option<String>,
    deps: &Vec<String>,
    previous: Option<&JobResult>,
) -> (r: String)
    ensures
        r@ == plan_row(
            number as nat,
            name@,
            stage.deep_view(),
            deps.deep_view(),
            match previous {
                Some(p) => Some(p.deep_view()),
                None => None,
            },
        ),
{
    let mut s = "  ".to_owned();
    append_str(&mut s, pad_right_str(decimal_str(number as u128).as_str(), 3).as_str());
    append_str(&mut s, " ");
    append_str(&mut s, format_status_emoji(&JobStatus::Pending).as_str());
    append_str(&mut s, " ");
    append_str(&mut s, pad_right_str(truncate(name, 33).as_str(), 35).as_str());
    append_str(&mut s, " stage=");
    let stage_text: &str = match stage {
        Some(t) => t.as_str(),
        None => "-",
    };
    append_str(&mut s, pad_right_str(stage_text, 10).as_str());
    append_str(&mut s, " deps=");
    if deps.len() == 0 {
        append_str(&mut s, "none");
    } else {
        append_str(&mut s, join_strs(deps, ", ").as_str());
    }
    append_str(&mut s, resume_note_str(previous));
    s
}

impl Scheduler {
    /// The lines that show the jobs of a run in their order; none unless the
    /// output goes to a terminal.
    pub fn plan_lines(
        &self,
        order: &Vec<String>,
        graph: &Dag,
        previous: &StringMap<JobResult>,
    ) -> (r: Vec<String>)
        requires
            forall|i: int|
                0 <= i < order@.len() ==> graph.model().jobs.map.contains_key(
                    #[trigger] order.deep_view()[i],
                ),
        ensures
            r.deep_view() == if self.config.output_mode == OutputMode::Terminal {
                plan(order.deep_view(), graph.model(), previous.deep_view())
            } else {
                Seq::empty()
            },
    {
        let mut out: Vec<String> = Vec::new();
        match self.config.output_mode {
            OutputMode::Terminal => {},
            _ => {
                assert(out.deep_view() =~= Seq::<Seq<char>>::empty());
                return out;
            },
        }
        let ghost names = order.deep_view();
        let ghost head = seq![""@, "Pipeline Execution Plan"@, numbers::repeat('═', 80)];
        out.push("".to_owned());
        out.push("Pipeline Execution Plan".to_owned());
        out.push(repeat_str('═', 80));
        assert(out.deep_view() =~= head + plan_rows(names, graph.model(), previous.deep_view(), 0));
        let n: usize = order.len();
        let mut i: usize = 0;
        while i < n
            invariant
                n == order@.len(),
                names == order.deep_view(),
                forall|k: int|
                    0 <= k < n ==> graph.model().jobs.map.contains_key(#[trigger] names[k]),
                i <= n,
                out.deep_view() == head + plan_rows(
                    names,
                    graph.model(),
                    previous.deep_view(),
                    i as nat,
                ),
            decreases n - i,
        {
            let name = order[i].as_str();
            let ghost before = out.deep_view();
            assert(names[i as int] == name@);
            assert(graph.model().jobs.map.contains_key(names[i as int]));
            if let Some(job) = graph.job(name) {
                let deps = graph.dependencies_of(name);
                let row = plan_row_str(i + 1, name, &job.stage, &deps, previous.get(name));
                out.push(row);
                assert(out.deep_view() =~= before.push(row@));
            }
            assert(out.deep_view() =~= head + plan_rows(
                names,
                graph.model(),
                previous.deep_view(),
                (i + 1) as nat,
            ));
            i = i + 1;
        }
        let ghost before = out.deep_view();
        let line = repeat_str('═', 80);
        out.push(line);
        assert(out.deep_view() =~= before.push(line@));
        assert(out.deep_view() =~= plan(names, graph.model(), previous.deep_view()));
        out
    }
}

/// What is said of a pipeline with so many errors.
pub open spec fn refusal(errors: nat) -> Seq<char> {
    "Pipeline validation failed with "@ + numbers::decimal(errors) + " errors"@
}

/// What is said of a pipeline with so many errors.
pub fn refusal_str(errors: usize) -> (r: String)
    ensures
        r@ == refusal(errors as nat),
{
    let mut s = "Pipeline validation failed with ".to_owned();
    push_decimal(&mut s, errors as u128);
    append_str(&mut s, " errors");
    s
}

// ---------------------------------------------------------------------------
// Laws

/// A job that has succeeded in the run that is resumed is marked as skipped,
/// one that has failed as run again, and no other is marked.
pub proof fn lemma_resume_notes(r: ResultModel)
    ensures
        r.status == JobStatus::Success ==> resume_note(Some(r)) == " [resume: skip]"@,
        r.status == JobStatus::Failed ==> resume_note(Some(r)) == " [resume: re-run]"@,
        r.status != JobStatus::Success && r.status != JobStatus::Failed ==> resume_note(Some(r)).len()
            == 0,
        resume_note(None).len() == 0,
{
    reveal_strlit("");
}

/// The plan has one row for each job, in the order in which they run, numbered
/// from one, between two rules.
pub proof fn lemma_plan_rows(
    order: Seq<Seq<char>>,
    graph: DagModel,
    previous: Table<ResultModel>,
    i: int,
)
    requires
        0 <= i < order.len(),
    ensures
        plan(order, graph, previous).len() == order.len() + 4,
        plan(order, graph, previous)[3 + i] == plan_row(
            (i + 1) as nat,
            order[i],
            graph.jobs.map[order[i]].stage,
            graph.deps(order[i]),
            previous.get(order[i]),
        ),
        plan(order, graph, previous)[2] == plan(order, graph, previous).last(),
{
}

/// The row of a job ends with its dependencies and what becomes of it when the
/// run is resumed.
pub proof fn lemma_plan_row_ends(
    number: nat,
    name: Seq<char>,
    stage: Option<Seq<char>>,
    dep: Seq<char>,
    previous: Option<ResultModel>,
)
    ensures
        text::ends_with(
            plan_row(number, name, stage, Seq::empty(), previous),
            " deps="@ + "none"@ + resume_note(previous),
        ),
        text::ends_with(
            plan_row(number, name, stage, seq![dep], previous),
            " deps="@ + dep + resume_note(previous),
        ),
{
    let front = "  "@ + numbers::pad_right(numbers::decimal(number), 3) + " "@ + reporting::emoji(
        JobStatus::Pending,
    ) + " "@ + numbers::pad_right(reporting::shortened(name, 33), 35) + " stage="@
        + numbers::pad_right(
        match stage {
            Some(s) => s,
            None => "-"@,
        },
        10,
    );
    text::lemma_join_one(dep, ", "@);
    lemma_row_end(front, "none"@, resume_note(previous));
    lemma_row_end(front, dep, resume_note(previous));
}

proof fn lemma_row_end(front: Seq<char>, deps: Seq<char>, note: Seq<char>)
    ensures
        text::ends_with(front + " deps="@ + deps + note, " deps="@ + deps + note),
{
    let s = front + " deps="@ + deps + note;
    let t = " deps="@ + deps + note;
    assert(s.skip(s.len() - t.len()) =~= t);
}

/// A pipeline that is refused is refused with the number of its errors.
pub proof fn lemma_refusal_counts(errors: nat)
    ensures
        refusal(errors) == "Pipeline validation failed with "@ + numbers::decimal(errors)
            + " errors"@,
{
}

} // verus!
