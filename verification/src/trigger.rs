//! Which jobs no changed file concerns.
use vstd::prelude::*;

use crate::dag;
use crate::models::{JobModel, Pipeline, TriggerConfig};
use crate::pattern;
use crate::pattern::{glob_check, glob_matches};

verus! {

/// What is known of the changed files and the patterns.
#[derive(Debug, Clone, Copy, PartialEq, Eq, Structural)]
pub struct TriggerFacts {
    /// Files have changed.
    pub changed: bool,
    /// Some of them are not excluded.
    pub kept: bool,
    /// Some pattern for wanted files is well formed.
    pub included: bool,
    /// Some file that is not excluded matches such a pattern.
    pub matched: bool,
}

/// The names of the jobs that belong to a stage.
pub open spec fn staged_names(jobs: Seq<JobModel>) -> Seq<Seq<char>>
    decreases jobs.len(),
{
    if jobs.len() == 0 {
        Seq::empty()
    } else {
        let before = staged_names(jobs.drop_last());
        if jobs.last().stage is Some {
            before.push(jobs.last().name)
        } else {
            before
        }
    }
}

/// The names of the jobs that no changed file concerns: none if nothing is
/// known to have changed; all if every changed file is excluded; and those
/// that belong to a stage if there are patterns and no file matches.
pub open spec fn skipped_names(jobs: Seq<JobModel>, facts: TriggerFacts) -> Seq<Seq<char>> {
    if !facts.changed {
        Seq::empty()
    } else if !facts.kept {
        dag::job_names(jobs)
    } else if !facts.included || facts.matched {
        Seq::empty()
    } else {
        staged_names(jobs)
    }
}

/// The names of the jobs that no changed file concerns, given what is known of
/// the files.
pub fn skipped_jobs(pipeline: &Pipeline, facts: TriggerFacts) -> (r: Vec<String>)
    ensures
        r.deep_view() == skipped_names(pipeline.deep_view().jobs, facts),
{
    let ghost jobs = pipeline.jobs.deep_view();
    let mut out: Vec<String> = Vec::new();
    assert(out.deep_view() =~= Seq::<Seq<char>>::empty());
    if !facts.changed {
        return out;
    }
    if facts.kept && (!facts.included || facts.matched) {
        return out;
    }
    let mut i: usize = 0;
    assert(jobs.take(0) =~= Seq::<JobModel>::empty());
    assert(dag::job_names(jobs.take(0)) =~= Seq::<Seq<char>>::empty());
    while i < pipeline.jobs.len()
        invariant
            jobs == pipeline.jobs.deep_view(),
            i <= pipeline.jobs@.len(),
            out.deep_view() == (if facts.kept {
                staged_names(jobs.take(i as int))
            } else {
                dag::job_names(jobs.take(i as int))
            }),
        decreases pipeline.jobs@.len() - i,
    {
        let job = &pipeline.jobs[i];
        let ghost before = out.deep_view();
        assert(jobs[i as int] == job.deep_view());
        assert(jobs.take(i + 1).drop_last() =~= jobs.take(i as int));
        assert(dag::job_names(jobs.take(i + 1)) =~= dag::job_names(jobs.take(i as int)).push(job.name@));
        if !facts.kept || job.stage.is_some() {
            out.push(job.name.clone());
            assert(out.deep_view() =~= before.push(job.name@));
        }
        i = i + 1;
    }
    assert(jobs.take(jobs.len() as int) =~= jobs);
    out
}

/// Whether some of the patterns matches a file.
pub open spec fn some_match(patterns: Seq<Seq<char>>, file: Seq<char>) -> bool {
    exists|i: int|
        0 <= i < patterns.len() && pattern::glob_match(#[trigger] patterns[i], file) == Some(true)
}

/// Whether some of the patterns is well formed.
pub open spec fn some_valid(patterns: Seq<Seq<char>>) -> bool {
    exists|i: int| 0 <= i < patterns.len() && pattern::glob_error(#[trigger] patterns[i]) is None
}

/// Whether none of the texts holds a backslash.
pub open spec fn all_portable(texts: Seq<Seq<char>>) -> bool {
    forall|i: int| 0 <= i < texts.len() ==> pattern::portable(#[trigger] texts[i])
}

/// Whether `row` tells of each pattern whether it matches a file, as far as
/// the pattern and the file hold no backslash.
pub open spec fn row_tells(patterns: Seq<Seq<char>>, file: Seq<char>, row: Seq<bool>) -> bool {
    &&& row.len() == patterns.len()
    &&& forall|i: int|
        0 <= i < row.len() && pattern::portable(patterns[i]) && pattern::portable(file)
            ==> #[trigger] row[i] == (pattern::glob_match(patterns[i], file) == Some(true))
}

/// Whether there is a row for each file that tells which patterns match it.
pub open spec fn rows_tell(
    patterns: Seq<Seq<char>>,
    files: Seq<Seq<char>>,
    rows: Seq<Seq<bool>>,
) -> bool {
    &&& rows.len() == files.len()
    &&& forall|k: int| 0 <= k < rows.len() ==> row_tells(patterns, files[k], #[trigger] rows[k])
}

/// Whether `valid` tells of each pattern whether it is well formed, as far as
/// it holds no backslash.
pub open spec fn checks_tell(patterns: Seq<Seq<char>>, valid: Seq<bool>) -> bool {
    &&& valid.len() == patterns.len()
    &&& forall|i: int|
        0 <= i < valid.len() && pattern::portable(patterns[i]) ==> #[trigger] valid[i] == (
        pattern::glob_error(patterns[i]) is None)
}

/// Whether one of the files is not excluded, given which patterns exclude each.
pub open spec fn some_kept(out: Seq<Seq<bool>>) -> bool {
    exists|k: int| 0 <= k < out.len() && !(#[trigger] out[k]).contains(true)
}

/// Whether one of the files is wanted and not excluded, given which patterns
/// ask for each and which exclude it.
pub open spec fn some_wanted(inn: Seq<Seq<bool>>, out: Seq<Seq<bool>>) -> bool {
    exists|k: int|
        0 <= k < out.len() && !(#[trigger] out[k]).contains(true) && inn[k].contains(true)
}

/// Whether the facts follow from which patterns ask for each file, which
/// exclude it, and which of those that ask are well formed.
pub open spec fn facts_follow(
    wanted: Seq<Seq<char>>,
    unwanted: Seq<Seq<char>>,
    files: Seq<Seq<char>>,
    inn: Seq<Seq<bool>>,
    out: Seq<Seq<bool>>,
    valid: Seq<bool>,
    facts: TriggerFacts,
) -> bool {
    &&& rows_tell(wanted, files, inn)
    &&& rows_tell(unwanted, files, out)
    &&& checks_tell(wanted, valid)
    &&& facts.changed == (files.len() > 0)
    &&& facts.kept == some_kept(out)
    &&& facts.included == valid.contains(true)
    &&& facts.matched == some_wanted(inn, out)
}

/// Whether the facts hold of the changed files and the patterns: they follow
/// from one outcome for each file and pattern, and one for each pattern, which
/// are those of the names where there is no backslash.
pub open spec fn facts_hold(
    wanted: Seq<Seq<char>>,
    unwanted: Seq<Seq<char>>,
    files: Seq<Seq<char>>,
    facts: TriggerFacts,
) -> bool {
    exists|inn: Seq<Seq<bool>>, out: Seq<Seq<bool>>, valid: Seq<bool>| #[trigger]
        facts_follow(wanted, unwanted, files, inn, out, valid, facts)
}

/// The row that the names give for a file.
spec fn named_row(patterns: Seq<Seq<char>>, file: Seq<char>) -> Seq<bool> {
    Seq::new(patterns.len(), |i: int| pattern::glob_match(patterns[i], file) == Some(true))
}

fn matches_some(patterns: &Vec<String>, file: &str) -> (r: bool)
    ensures
        exists|row: Seq<bool>| #[trigger]
            row_tells(patterns.deep_view(), file@, row) && r == row.contains(true),
{
    let ghost all = patterns.deep_view();
    let ghost mut row: Seq<bool> = Seq::empty();
    let mut i: usize = 0;
    while i < patterns.len()
        invariant
            all == patterns.deep_view(),
            i <= patterns@.len(),
            row.len() == i,
            !row.contains(true),
            forall|k: int|
                0 <= k < i && pattern::portable(all[k]) && pattern::portable(file@)
                    ==> #[trigger] row[k] == (pattern::glob_match(all[k], file@) == Some(true)),
        decreases patterns@.len() - i,
    {
        assert(all[i as int] == patterns@[i as int]@);
        let ghost before = row;
        if let Some(true) = glob_matches(patterns[i].as_str(), file) {
            proof {
                row = before.push(true) + named_row(all, file@).skip(i + 1);
                assert(row[i as int]);
                assert(row_tells(all, file@, row));
            }
            return true;
        }
        proof {
            row = before.push(false);
            assert forall|k: int| 0 <= k < row.len() implies !#[trigger] row[k] by {
                if k < i {
                    assert(row[k] == before[k]);
                    assert(before.contains(before[k]));
                }
            }
        }
        i = i + 1;
    }
    assert(row_tells(all, file@, row));
    false
}

fn has_valid(patterns: &Vec<String>) -> (r: bool)
    ensures
        exists|valid: Seq<bool>| #[trigger]
            checks_tell(patterns.deep_view(), valid) && r == valid.contains(true),
{
    let ghost all = patterns.deep_view();
    let ghost mut valid: Seq<bool> = Seq::empty();
    let mut i: usize = 0;
    while i < patterns.len()
        invariant
            all == patterns.deep_view(),
            i <= patterns@.len(),
            valid.len() == i,
            !valid.contains(true),
            forall|k: int|
                0 <= k < i && pattern::portable(all[k]) ==> #[trigger] valid[k] == (
                pattern::glob_error(all[k]) is None),
        decreases patterns@.len() - i,
    {
        assert(all[i as int] == patterns@[i as int]@);
        let ghost before = valid;
        if glob_check(patterns[i].as_str()).is_none() {
            proof {
                let named = Seq::new(all.len(), |k: int| pattern::glob_error(all[k]) is None);
                valid = before.push(true) + named.skip(i + 1);
                assert(valid[i as int]);
                assert(checks_tell(all, valid));
            }
            return true;
        }
        proof {
            valid = before.push(false);
            assert forall|k: int| 0 <= k < valid.len() implies !#[trigger] valid[k] by {
                if k < i {
                    assert(valid[k] == before[k]);
                    assert(before.contains(before[k]));
                }
            }
        }
        i = i + 1;
    }
    assert(checks_tell(all, valid));
    false
}

proof fn lemma_one_more(inn: Seq<Seq<bool>>, out: Seq<Seq<bool>>, a: Seq<bool>, b: Seq<bool>)
    requires
        inn.len() == out.len(),
    ensures
        some_kept(out.push(b)) == (some_kept(out) || !b.contains(true)),
        some_wanted(inn.push(a), out.push(b)) == (some_wanted(inn, out) || (!b.contains(true)
            && a.contains(true))),
{
    let n = out.len() as int;
    let rows = out.push(b);
    assert(rows[n] == b && inn.push(a)[n] == a);
    if some_kept(out) {
        let k = choose|k: int| 0 <= k < out.len() && !(#[trigger] out[k]).contains(true);
        assert(rows[k] == out[k]);
    }
    if some_kept(rows) {
        let k = choose|k: int| 0 <= k < rows.len() && !(#[trigger] rows[k]).contains(true);
        assert(k < n ==> out[k] == rows[k]);
    }
    if some_wanted(inn, out) {
        let k = choose|k: int|
            0 <= k < out.len() && !(#[trigger] out[k]).contains(true) && inn[k].contains(true);
        assert(rows[k] == out[k] && inn.push(a)[k] == inn[k]);
    }
    if some_wanted(inn.push(a), rows) {
        let k = choose|k: int|
            0 <= k < rows.len() && !(#[trigger] rows[k]).contains(true) && inn.push(a)[k].contains(
                true,
            );
        assert(k < n ==> out[k] == rows[k] && inn[k] == inn.push(a)[k]);
    }
}

fn gather_facts(trigger: &TriggerConfig, files: &Vec<String>) -> (facts: TriggerFacts)
    ensures
        facts_hold(
            trigger.paths_include.deep_view(),
            trigger.paths_exclude.deep_view(),
            files.deep_view(),
            facts,
        ),
{
    let ghost wanted = trigger.paths_include.deep_view();
    let ghost unwanted = trigger.paths_exclude.deep_view();
    let ghost all = files.deep_view();
    let ghost mut inn: Seq<Seq<bool>> = Seq::empty();
    let ghost mut out: Seq<Seq<bool>> = Seq::empty();
    let mut kept = false;
    let mut matched = false;
    let mut i: usize = 0;
    while i < files.len()
        invariant
            wanted == trigger.paths_include.deep_view(),
            unwanted == trigger.paths_exclude.deep_view(),
            all == files.deep_view(),
            i <= files@.len(),
            rows_tell(wanted, all.take(i as int), inn),
            rows_tell(unwanted, all.take(i as int), out),
            kept == some_kept(out),
            matched == some_wanted(inn, out),
        decreases files@.len() - i,
    {
        let ghost file = all[i as int];
        assert(file == files@[i as int]@);
        let excluded = matches_some(&trigger.paths_exclude, files[i].as_str());
        let ghost b = choose|row: Seq<bool>| #[trigger]
            row_tells(unwanted, file, row) && excluded == row.contains(true);
        let ghost mut a = named_row(wanted, file);
        if !excluded {
            kept = true;
            let asked = matches_some(&trigger.paths_include, files[i].as_str());
            proof {
                a = choose|row: Seq<bool>| #[trigger]
                    row_tells(wanted, file, row) && asked == row.contains(true);
            }
            if asked {
                matched = true;
            }
        }
        proof {
            lemma_one_more(inn, out, a, b);
            assert(row_tells(wanted, file, a));
            let done = all.take(i as int);
            let next = all.take(i + 1);
            assert(next =~= done.push(file));
            assert forall|k: int| 0 <= k < inn.push(a).len() implies row_tells(
                wanted,
                next[k],
                #[trigger] inn.push(a)[k],
            ) by {
                assert(k < i ==> inn.push(a)[k] == inn[k] && next[k] == done[k]);
            }
            assert forall|k: int| 0 <= k < out.push(b).len() implies row_tells(
                unwanted,
                next[k],
                #[trigger] out.push(b)[k],
            ) by {
                assert(k < i ==> out.push(b)[k] == out[k] && next[k] == done[k]);
            }
            inn = inn.push(a);
            out = out.push(b);
        }
        i = i + 1;
    }
    let included = has_valid(&trigger.paths_include);
    assert(all.take(all.len() as int) =~= all);
    let facts = TriggerFacts { changed: files.len() > 0, kept, included, matched };
    proof {
        let valid = choose|valid: Seq<bool>| #[trigger]
            checks_tell(wanted, valid) && included == valid.contains(true);
        assert(facts_follow(wanted, unwanted, all, inn, out, valid, facts));
    }
    facts
}

/// The names of the jobs that no changed file concerns.
pub fn compute_trigger_skipped_jobs(
    pipeline: &Pipeline,
    trigger: &TriggerConfig,
    changed_files: &Vec<String>,
) -> (r: Vec<String>)
    ensures
        exists|facts: TriggerFacts| #[trigger]
            facts_hold(
                trigger.paths_include.deep_view(),
                trigger.paths_exclude.deep_view(),
                changed_files.deep_view(),
                facts,
            ) && r.deep_view() == skipped_names(pipeline.deep_view().jobs, facts),
{
    let facts = gather_facts(trigger, changed_files);
    skipped_jobs(pipeline, facts)
}

/// Without changed files no job is skipped.
pub proof fn lemma_nothing_changed(jobs: Seq<JobModel>, facts: TriggerFacts)
    requires
        !facts.changed,
    ensures
        skipped_names(jobs, facts).len() == 0,
{
}

proof fn lemma_staged_are_jobs(jobs: Seq<JobModel>, name: Seq<char>)
    ensures
        staged_names(jobs).contains(name) ==> dag::job_names(jobs).contains(name),
    decreases jobs.len(),
{
    if jobs.len() > 0 {
        let d = jobs.drop_last();
        lemma_staged_are_jobs(d, name);
        let all = dag::job_names(jobs);
        if staged_names(jobs).contains(name) {
            let i = staged_names(jobs).index_of(name);
            let before = staged_names(d);
            if i < before.len() {
                assert(before[i] == name);
                let j = dag::job_names(d).index_of(name);
                assert(all[j] == name);
            } else {
                assert(all[jobs.len() - 1] == name);
            }
        }
    }
}

/// Only jobs of the pipeline are skipped.
pub proof fn lemma_skipped_are_jobs(jobs: Seq<JobModel>, facts: TriggerFacts, name: Seq<char>)
    requires
        skipped_names(jobs, facts).contains(name),
    ensures
        dag::job_names(jobs).contains(name),
{
    lemma_staged_are_jobs(jobs, name);
}

/// Without patterns no job is skipped.
pub proof fn lemma_no_patterns(
    jobs: Seq<JobModel>,
    wanted: Seq<Seq<char>>,
    unwanted: Seq<Seq<char>>,
    files: Seq<Seq<char>>,
    facts: TriggerFacts,
)
    requires
        wanted.len() == 0,
        unwanted.len() == 0,
        facts_hold(wanted, unwanted, files, facts),
    ensures
        skipped_names(jobs, facts).len() == 0,
{
    let (inn, out, valid) = choose|inn: Seq<Seq<bool>>, out: Seq<Seq<bool>>, valid: Seq<bool>|
        #[trigger] facts_follow(wanted, unwanted, files, inn, out, valid, facts);
    if files.len() > 0 {
        assert(row_tells(unwanted, files[0], out[0]));
        assert(!out[0].contains(true));
    }
}

/// A file that matches a pattern for wanted files and none that excludes it
/// keeps every job from being skipped, whatever becomes of the other files and
/// patterns.
pub proof fn lemma_one_match_is_enough(
    jobs: Seq<JobModel>,
    wanted: Seq<Seq<char>>,
    unwanted: Seq<Seq<char>>,
    files: Seq<Seq<char>>,
    facts: TriggerFacts,
    k: int,
    i: int,
)
    requires
        facts_hold(wanted, unwanted, files, facts),
        0 <= k < files.len(),
        0 <= i < wanted.len(),
        pattern::portable(files[k]),
        pattern::portable(wanted[i]),
        all_portable(unwanted),
        pattern::glob_match(wanted[i], files[k]) == Some(true),
        !some_match(unwanted, files[k]),
    ensures
        skipped_names(jobs, facts).len() == 0,
{
    let (inn, out, valid) = choose|inn: Seq<Seq<bool>>, out: Seq<Seq<bool>>, valid: Seq<bool>|
        #[trigger] facts_follow(wanted, unwanted, files, inn, out, valid, facts);
    assert(row_tells(wanted, files[k], inn[k]));
    assert(row_tells(unwanted, files[k], out[k]));
    assert(inn[k][i]);
    lemma_row_portable(unwanted, files[k], out[k]);
    assert(!out[k].contains(true) && inn[k].contains(true));
}

proof fn lemma_row_portable(patterns: Seq<Seq<char>>, file: Seq<char>, row: Seq<bool>)
    requires
        row_tells(patterns, file, row),
        all_portable(patterns),
        pattern::portable(file),
    ensures
        row.contains(true) == some_match(patterns, file),
{
    if row.contains(true) {
        let i = row.index_of(true);
        assert(pattern::portable(patterns[i]));
        assert(row[i] == (pattern::glob_match(patterns[i], file) == Some(true)));
    }
    if some_match(patterns, file) {
        let i = choose|i: int|
            0 <= i < patterns.len() && pattern::glob_match(#[trigger] patterns[i], file) == Some(true);
        assert(pattern::portable(patterns[i]));
        assert(row[i]);
    }
}

/// Where no file and no pattern holds a backslash, the facts are those of the
/// names.
pub proof fn lemma_facts_without_backslashes(
    wanted: Seq<Seq<char>>,
    unwanted: Seq<Seq<char>>,
    files: Seq<Seq<char>>,
    facts: TriggerFacts,
)
    requires
        facts_hold(wanted, unwanted, files, facts),
        all_portable(wanted),
        all_portable(unwanted),
        all_portable(files),
    ensures
        facts.changed == (files.len() > 0),
        facts.kept == exists|k: int|
            0 <= k < files.len() && !some_match(unwanted, #[trigger] files[k]),
        facts.included == some_valid(wanted),
        facts.matched == exists|k: int|
            0 <= k < files.len() && !some_match(unwanted, #[trigger] files[k]) && some_match(
                wanted,
                files[k],
            ),
{
    let (inn, out, valid) = choose|inn: Seq<Seq<bool>>, out: Seq<Seq<bool>>, valid: Seq<bool>|
        #[trigger] facts_follow(wanted, unwanted, files, inn, out, valid, facts);
    assert forall|k: int| 0 <= k < files.len() implies (#[trigger] out[k]).contains(true)
        == some_match(unwanted, files[k]) && inn[k].contains(true) == some_match(wanted, files[k]) by {
        assert(pattern::portable(files[k]));
        assert(row_tells(wanted, files[k], inn[k]) && row_tells(unwanted, files[k], out[k]));
        lemma_row_portable(wanted, files[k], inn[k]);
        lemma_row_portable(unwanted, files[k], out[k]);
    }
    if exists|k: int| 0 <= k < files.len() && !some_match(unwanted, #[trigger] files[k]) {
        let k = choose|k: int| 0 <= k < files.len() && !some_match(unwanted, #[trigger] files[k]);
        assert(!out[k].contains(true));
    }
    if exists|k: int|
        0 <= k < files.len() && !some_match(unwanted, #[trigger] files[k]) && some_match(
            wanted,
            files[k],
        ) {
        let k = choose|k: int|
            0 <= k < files.len() && !some_match(unwanted, #[trigger] files[k]) && some_match(
                wanted,
                files[k],
            );
        assert(!out[k].contains(true) && inn[k].contains(true));
    }
    if some_kept(out) {
        let k = choose|k: int| 0 <= k < out.len() && !(#[trigger] out[k]).contains(true);
        assert(!some_match(unwanted, files[k]));
    }
    if some_wanted(inn, out) {
        let k = choose|k: int|
            0 <= k < out.len() && !(#[trigger] out[k]).contains(true) && inn[k].contains(true);
        assert(!some_match(unwanted, files[k]) && some_match(wanted, files[k]));
    }
    if valid.contains(true) {
        let i = valid.index_of(true);
        assert(pattern::portable(wanted[i]));
        assert(valid[i] == (pattern::glob_error(wanted[i]) is None));
    }
    if some_valid(wanted) {
        let i = choose|i: int|
            0 <= i < wanted.len() && pattern::glob_error(#[trigger] wanted[i]) is None;
        assert(pattern::portable(wanted[i]));
        assert(valid[i]);
    }
}

/// Where every changed file is excluded, all jobs are skipped.
pub proof fn lemma_all_excluded(
    jobs: Seq<JobModel>,
    wanted: Seq<Seq<char>>,
    unwanted: Seq<Seq<char>>,
    files: Seq<Seq<char>>,
    facts: TriggerFacts,
    i: int,
)
    requires
        facts_hold(wanted, unwanted, files, facts),
        all_portable(wanted),
        all_portable(unwanted),
        all_portable(files),
        files.len() > 0,
        forall|k: int|
            0 <= k < files.len() ==> exists|j: int|
                0 <= j < unwanted.len() && pattern::glob_match(
                    #[trigger] unwanted[j],
                    #[trigger] files[k],
                ) == Some(true),
        0 <= i < jobs.len(),
    ensures
        skipped_names(jobs, facts).contains(jobs[i].name),
        skipped_names(jobs, facts).len() == jobs.len(),
{
    lemma_facts_without_backslashes(wanted, unwanted, files, facts);
    assert forall|k: int| 0 <= k < files.len() implies some_match(unwanted, #[trigger] files[k]) by {
        let j = choose|j: int|
            0 <= j < unwanted.len() && pattern::glob_match(#[trigger] unwanted[j], files[k]) == Some(
                true,
            );
        assert(pattern::glob_match(unwanted[j], files[k]) == Some(true));
    }
    assert(dag::job_names(jobs)[i] == jobs[i].name);
}

/// Where files have changed that are not excluded and there is a pattern for
/// wanted files, but none of the files matches one, exactly the jobs that
/// belong to a stage are skipped.
pub proof fn lemma_no_match_skips_stages(
    jobs: Seq<JobModel>,
    wanted: Seq<Seq<char>>,
    unwanted: Seq<Seq<char>>,
    files: Seq<Seq<char>>,
    facts: TriggerFacts,
    name: Seq<char>,
    f: int,
    w: int,
)
    requires
        facts_hold(wanted, unwanted, files, facts),
        all_portable(wanted),
        all_portable(unwanted),
        all_portable(files),
        0 <= f < files.len(),
        forall|j: int|
            0 <= j < unwanted.len() ==> pattern::glob_match(#[trigger] unwanted[j], files[f]) != Some(
                true,
            ),
        0 <= w < wanted.len(),
        pattern::glob_error(wanted[w]) is None,
        forall|k: int, j: int|
            0 <= k < files.len() && 0 <= j < wanted.len() ==> pattern::glob_match(
                #[trigger] wanted[j],
                #[trigger] files[k],
            ) != Some(true),
    ensures
        skipped_names(jobs, facts).contains(name) <==> exists|i: int|
            0 <= i < jobs.len() && (#[trigger] jobs[i]).name == name && jobs[i].stage is Some,
{
    lemma_facts_without_backslashes(wanted, unwanted, files, facts);
    assert(!some_match(unwanted, files[f]));
    assert(some_valid(wanted));
    assert forall|k: int| 0 <= k < files.len() implies !some_match(wanted, #[trigger] files[k]) by {}
    lemma_staged(jobs, name);
}

proof fn lemma_staged(jobs: Seq<JobModel>, name: Seq<char>)
    ensures
        staged_names(jobs).contains(name) <==> exists|i: int|
            0 <= i < jobs.len() && (#[trigger] jobs[i]).name == name && jobs[i].stage is Some,
    decreases jobs.len(),
{
    if jobs.len() > 0 {
        let d = jobs.drop_last();
        let before = staged_names(d);
        let all = staged_names(jobs);
        lemma_staged(d, name);
        if before.contains(name) {
            let k = before.index_of(name);
            assert(all[k] == name);
            let i = choose|i: int| 0 <= i < d.len() && (#[trigger] d[i]).name == name && d[i].stage is Some;
            assert(jobs[i] == d[i]);
        }
        if jobs.last().stage is Some {
            assert(all[all.len() - 1] == jobs.last().name);
        }
        if all.contains(name) && !before.contains(name) {
            let k = all.index_of(name);
            if k < before.len() {
                assert(before[k] == name);
            }
            assert(jobs[jobs.len() - 1].name == name);
        }
        if exists|i: int| 0 <= i < jobs.len() && (#[trigger] jobs[i]).name == name && jobs[i].stage is Some {
            let i = choose|i: int|
                0 <= i < jobs.len() && (#[trigger] jobs[i]).name == name && jobs[i].stage is Some;
            if i < d.len() {
                assert(d[i].name == name);
            }
        }
    }
}

/// Where there is no pattern for wanted files that is well formed, a file that
/// is not excluded keeps every job from being skipped.
pub proof fn lemma_no_wanted_patterns(
    jobs: Seq<JobModel>,
    wanted: Seq<Seq<char>>,
    unwanted: Seq<Seq<char>>,
    files: Seq<Seq<char>>,
    facts: TriggerFacts,
    f: int,
)
    requires
        facts_hold(wanted, unwanted, files, facts),
        all_portable(wanted),
        all_portable(unwanted),
        all_portable(files),
        0 <= f < files.len(),
        forall|j: int|
            0 <= j < unwanted.len() ==> pattern::glob_match(#[trigger] unwanted[j], files[f]) != Some(
                true,
            ),
        forall|j: int| 0 <= j < wanted.len() ==> pattern::glob_error(#[trigger] wanted[j]) is Some,
    ensures
        skipped_names(jobs, facts).len() == 0,
{
    lemma_facts_without_backslashes(wanted, unwanted, files, facts);
    assert(!some_match(unwanted, files[f]));
}

/// Without changed files no job is skipped, whatever the patterns.
pub proof fn lemma_no_files_skip_nothing(
    jobs: Seq<JobModel>,
    wanted: Seq<Seq<char>>,
    unwanted: Seq<Seq<char>>,
    facts: TriggerFacts,
)
    requires
        facts_hold(wanted, unwanted, Seq::empty(), facts),
    ensures
        skipped_names(jobs, facts).len() == 0,
{
}

} // verus!
