//! How long jobs take, from run to run and within one.
use vstd::prelude::*;

use crate::models::{HistoryEntry, JobResult, ResultModel, SlowJobInfo, SlowModel, Timestamp};
use crate::reporting;
use crate::reporting::total_duration;
use crate::string_map::{StringMap, Table};

verus! {

/// How many runs are remembered.
pub const REMEMBERED_RUNS: usize = 10;

// ---------------------------------------------------------------------------
// Averages over runs

/// The durations of the jobs in each of the runs.
pub open spec fn run_tables(entries: Seq<HistoryEntry>) -> Seq<Table<u64>> {
    Seq::new(entries.len(), |i: int| entries[i].job_durations.deep_view())
}

/// How long a job took in all runs together.
pub open spec fn job_sum(runs: Seq<Table<u64>>, job: Seq<char>) -> nat
    decreases runs.len(),
{
    if runs.len() == 0 {
        0
    } else {
        job_sum(runs.drop_last(), job) + (match runs.last().get(job) {
            Some(d) => d as nat,
            None => 0,
        })
    }
}

/// In how many runs a job took part.
pub open spec fn job_count(runs: Seq<Table<u64>>, job: Seq<char>) -> nat
    decreases runs.len(),
{
    if runs.len() == 0 {
        0
    } else {
        job_count(runs.drop_last(), job) + (match runs.last().get(job) {
            Some(_) => 1nat,
            None => 0nat,
        })
    }
}

/// How long a job took on average, if it took part in any run.
pub open spec fn job_average(runs: Seq<Table<u64>>, job: Seq<char>) -> Option<u64> {
    if job_count(runs, job) > 0 {
        Some((job_sum(runs, job) / job_count(runs, job)) as u64)
    } else {
        None
    }
}

proof fn lemma_sum_grows(runs: Seq<Table<u64>>, job: Seq<char>, n: int)
    requires
        0 <= n <= runs.len(),
    ensures
        job_sum(runs.take(n), job) <= job_sum(runs, job),
        job_count(runs.take(n), job) <= job_count(runs, job),
    decreases runs.len(),
{
    if n == runs.len() {
        assert(runs.take(n) =~= runs);
    } else {
        lemma_sum_grows(runs.drop_last(), job, n);
        assert(runs.drop_last().take(n) =~= runs.take(n));
    }
}

proof fn lemma_count_bounded(runs: Seq<Table<u64>>, job: Seq<char>)
    ensures
        job_count(runs, job) <= runs.len(),
    decreases runs.len(),
{
    if runs.len() > 0 {
        lemma_count_bounded(runs.drop_last(), job);
    }
}

proof fn lemma_counted(runs: Seq<Table<u64>>, job: Seq<char>, i: int)
    requires
        0 <= i < runs.len(),
        runs[i].map.contains_key(job),
    ensures
        job_count(runs, job) > 0,
    decreases runs.len(),
{
    if i < runs.len() - 1 {
        lemma_counted(runs.drop_last(), job, i);
    }
}

proof fn lemma_uncounted(runs: Seq<Table<u64>>, job: Seq<char>)
    requires
        forall|i: int| 0 <= i < runs.len() ==> !(#[trigger] runs[i]).map.contains_key(job),
    ensures
        job_count(runs, job) == 0,
    decreases runs.len(),
{
    if runs.len() > 0 {
        assert(!runs[runs.len() - 1].map.contains_key(job));
        assert forall|i: int| 0 <= i < runs.drop_last().len() implies !(#[trigger] runs.drop_last()[i]).map.contains_key(
            job,
        ) by {
            assert(runs[i] == runs.drop_last()[i]);
        }
        lemma_uncounted(runs.drop_last(), job);
    }
}

fn average_of(entries: &Vec<HistoryEntry>, job: &str) -> (r: Option<u64>)
    requires
        job_sum(run_tables(entries@), job@) <= u64::MAX,
    ensures
        r == job_average(run_tables(entries@), job@),
{
    let ghost runs = run_tables(entries@);
    let mut sum: u64 = 0;
    let mut count: u64 = 0;
    let n: usize = entries.len();
    let mut i: usize = 0;
    assert(runs.take(0) =~= Seq::<Table<u64>>::empty());
    while i < n
        invariant
            n == entries@.len(),
            runs == run_tables(entries@),
            job_sum(runs, job@) <= u64::MAX,
            i <= n,
            sum == job_sum(runs.take(i as int), job@),
            count == job_count(runs.take(i as int), job@),
            count <= i,
        decreases n - i,
    {
        proof {
            assert(runs.take(i + 1).drop_last() =~= runs.take(i as int));
            lemma_sum_grows(runs, job@, i + 1);
        }
        assert(runs.take(i + 1).last() == entries@[i as int].job_durations.deep_view());
        if let Some(d) = entries[i].job_durations.get(job) {
            sum = sum + *d;
            count = count + 1;
        }
        i = i + 1;
    }
    assert(runs.take(n as int) =~= runs);
    if count > 0 {
        assert(sum / count <= sum) by (nonlinear_arith)
            requires
                count > 0,
        ;
        Some(sum / count)
    } else {
        None
    }
}

/// How long each job took on average.
pub fn averages(entries: &Vec<HistoryEntry>) -> (r: StringMap<u64>)
    requires
        forall|job: Seq<char>| #[trigger] job_sum(run_tables(entries@), job) <= u64::MAX,
    ensures
        forall|job: Seq<char>| #[trigger]
            r.deep_view().get(job) == job_average(run_tables(entries@), job),
{
    let ghost runs = run_tables(entries@);
    let mut out: StringMap<u64> = StringMap::new();
    let mut i: usize = 0;
    while i < entries.len()
        invariant
            runs == run_tables(entries@),
            forall|job: Seq<char>| #[trigger] job_sum(runs, job) <= u64::MAX,
            i <= entries@.len(),
            forall|job: Seq<char>|
                (#[trigger] out.deep_view().get(job)) is Some ==> out.deep_view().get(job)
                    == job_average(runs, job),
            forall|k: int, job: Seq<char>|
                0 <= k < i && #[trigger] runs[k].map.contains_key(job) ==> out.deep_view().get(job) is Some,
        decreases entries@.len() - i,
    {
        let table = &entries[i].job_durations;
        let ghost t = table.deep_view();
        assert(runs[i as int] == t);
        let n: usize = table.len();
        let mut j: usize = 0;
        while j < n
            invariant
                runs == run_tables(entries@),
                forall|job: Seq<char>| #[trigger] job_sum(runs, job) <= u64::MAX,
                i < entries@.len(),
                t == table.deep_view(),
                t.wf(),
                runs[i as int] == t,
                n == t.order.len(),
                j <= n,
                forall|job: Seq<char>|
                    (#[trigger] out.deep_view().get(job)) is Some ==> out.deep_view().get(job)
                        == job_average(runs, job),
                forall|k: int, job: Seq<char>|
                    0 <= k < i && #[trigger] runs[k].map.contains_key(job) ==> out.deep_view().get(job) is Some,
                forall|k: int| 0 <= k < j ==> out.deep_view().get(#[trigger] t.order[k]) is Some,
            decreases n - j,
        {
            let key = table.key_at(j);
            let ghost before = out.deep_view();
            assert(job_sum(runs, key@) <= u64::MAX);
            proof {
                lemma_counted(runs, key@, i as int);
            }
            if let Some(avg) = average_of(entries, key.as_str()) {
                out.insert(key.clone(), avg);
            }
            assert forall|job: Seq<char>| (#[trigger] out.deep_view().get(job)) is Some implies out.deep_view().get(
                job,
            ) == job_average(runs, job) by {
                assert(job != key@ ==> out.deep_view().get(job) == before.get(job));
            }
            assert forall|k: int| 0 <= k < j + 1 implies out.deep_view().get(
                #[trigger] t.order[k],
            ) is Some by {
                if k < j {
                    assert(before.get(t.order[k]) is Some);
                }
            }
            assert forall|k: int, job: Seq<char>|
                0 <= k < i && #[trigger] runs[k].map.contains_key(job) implies out.deep_view().get(
                job,
            ) is Some by {
                assert(before.get(job) is Some);
            }
            j = j + 1;
        }
        assert forall|k: int, job: Seq<char>|
            0 <= k < i + 1 && #[trigger] runs[k].map.contains_key(job) implies out.deep_view().get(
            job,
        ) is Some by {
            if k == i {
                let p = t.order.index_of(job);
                assert(t.order[p] == job);
            }
        }
        i = i + 1;
    }
    assert forall|job: Seq<char>| #[trigger] out.deep_view().get(job) == job_average(runs, job) by {
        if out.deep_view().get(job) is None {
            assert forall|k: int| 0 <= k < runs.len() implies !(#[trigger] runs[k]).map.contains_key(
                job,
            ) by {}
            lemma_uncounted(runs, job);
        }
    }
    out
}

// ---------------------------------------------------------------------------
// Remembering runs

/// The durations of the first `n` results by job.
pub open spec fn durations_by_job(results: Seq<ResultModel>, n: int) -> Table<u64>
    decreases n,
{
    if n <= 0 {
        Table::empty()
    } else {
        durations_by_job(results, n - 1).insert(results[n - 1].job_name, results[n - 1].duration_ms)
    }
}

/// What is remembered of a run with the given results.
pub fn entry_of(results: &[JobResult], timestamp: Timestamp) -> (r: HistoryEntry)
    ensures
        r.timestamp == timestamp,
        r.job_durations.deep_view() == durations_by_job(
            results.deep_view(),
            results@.len() as int,
        ),
{
    let ghost all = results.deep_view();
    let mut job_durations: StringMap<u64> = StringMap::new();
    let mut i: usize = 0;
    while i < results.len()
        invariant
            all == results.deep_view(),
            i <= results@.len(),
            job_durations.deep_view() == durations_by_job(all, i as int),
        decreases results@.len() - i,
    {
        assert(all[i as int] == results@[i as int].deep_view());
        job_durations.insert(results[i].job_name.clone(), results[i].duration_ms);
        i = i + 1;
    }
    HistoryEntry { timestamp, job_durations }
}

/// The last `n` of the entries.
pub open spec fn last_of(entries: Seq<HistoryEntry>, n: int) -> Seq<HistoryEntry> {
    if entries.len() <= n {
        entries
    } else {
        entries.skip(entries.len() - n)
    }
}

/// The runs that are remembered after another one: the last ten.
pub fn remember(history: Vec<HistoryEntry>, entry: HistoryEntry) -> (r: Vec<HistoryEntry>)
    ensures
        r@ == last_of(history@.push(entry), REMEMBERED_RUNS as int),
        r@.len() <= REMEMBERED_RUNS,
{
    let mut out = history;
    out.push(entry);
    let ghost all = history@.push(entry);
    assert(all.skip(0) =~= all);
    while out.len() > REMEMBERED_RUNS
        invariant
            out@.len() <= all.len(),
            out@ == all.skip(all.len() - out@.len()),
            out@.len() >= REMEMBERED_RUNS || out@.len() == all.len(),
        decreases out@.len(),
    {
        out.remove(0);
        assert(out@ =~= all.skip(all.len() - out@.len()));
    }
    assert(out@ =~= last_of(all, REMEMBERED_RUNS as int));
    out
}

// ---------------------------------------------------------------------------
// Slow jobs

/// How many results took any time.
pub open spec fn timed_count(results: Seq<ResultModel>) -> nat
    decreases results.len(),
{
    if results.len() == 0 {
        0
    } else {
        timed_count(results.drop_last()) + if results.last().duration_ms > 0 {
            1nat
        } else {
            0nat
        }
    }
}

/// Twice the average time of the results that took any.
pub open spec fn slow_limit(results: Seq<ResultModel>) -> int {
    2 * (reporting::total_ms(results) as int / timed_count(results) as int)
}

/// The results that took more than the limit, in their order.
pub open spec fn above(results: Seq<ResultModel>, limit: int, total: u64) -> Seq<SlowModel>
    decreases results.len(),
{
    if results.len() == 0 {
        Seq::empty()
    } else {
        let before = above(results.drop_last(), limit, total);
        let r = results.last();
        if r.duration_ms > limit {
            before.push(
                SlowModel { job_name: r.job_name, duration_ms: r.duration_ms, total_ms: total },
            )
        } else {
            before
        }
    }
}

/// How many leading jobs took at least as long.
pub open spec fn slow_rank(slow: Seq<SlowModel>, ms: u64) -> int
    decreases slow.len(),
{
    if slow.len() == 0 || slow.last().duration_ms >= ms {
        slow.len() as int
    } else {
        slow_rank(slow.drop_last(), ms)
    }
}

/// The jobs from the slowest down; those that took the same time stay in the
/// order in which they came.
pub open spec fn slowest_first(slow: Seq<SlowModel>) -> Seq<SlowModel>
    decreases slow.len(),
{
    if slow.len() == 0 {
        Seq::empty()
    } else {
        let sorted = slowest_first(slow.drop_last());
        sorted.insert(slow_rank(sorted, slow.last().duration_ms), slow.last())
    }
}

/// The jobs that took more than twice the average time, from the slowest down.
pub open spec fn slow_jobs(results: Seq<ResultModel>) -> Seq<SlowModel> {
    let total = reporting::total_ms(results);
    if timed_count(results) == 0 || total == 0 {
        Seq::empty()
    } else {
        slowest_first(above(results, slow_limit(results), total as u64))
    }
}

fn timed_count_of(results: &[JobResult]) -> (r: u64)
    ensures
        r == timed_count(results.deep_view()),
{
    let ghost all = results.deep_view();
    let total: usize = results.len();
    let mut n: u64 = 0;
    let mut i: usize = 0;
    assert(all.take(0) =~= Seq::<ResultModel>::empty());
    while i < total
        invariant
            total == results@.len(),
            all == results.deep_view(),
            i <= total,
            n <= i,
            n == timed_count(all.take(i as int)),
        decreases total - i,
    {
        assert(all[i as int] == results@[i as int].deep_view());
        assert(all.take(i + 1).drop_last() =~= all.take(i as int));
        if results[i].duration_ms > 0 {
            n = n + 1;
        }
        i = i + 1;
    }
    assert(all.take(all.len() as int) =~= all);
    n
}

fn insert_slow(sorted: &mut Vec<SlowJobInfo>, job: SlowJobInfo)
    ensures
        final(sorted).deep_view() == old(sorted).deep_view().insert(
            slow_rank(old(sorted).deep_view(), job.duration_ms),
            job.deep_view(),
        ),
{
    let ghost all = sorted.deep_view();
    let ms: u64 = job.duration_ms;
    let mut pos: usize = sorted.len();
    assert(all.take(pos as int) =~= all);
    while pos > 0 && sorted[pos - 1].duration_ms < ms
        invariant
            all == sorted.deep_view(),
            pos <= sorted@.len(),
            slow_rank(all, ms) == slow_rank(all.take(pos as int), ms),
        decreases pos,
    {
        assert(all[pos - 1] == sorted@[pos - 1].deep_view());
        assert(all.take(pos as int).drop_last() =~= all.take(pos - 1));
        pos = pos - 1;
    }
    assert(pos > 0 ==> all[pos - 1] == sorted@[pos - 1].deep_view());
    assert(slow_rank(all, ms) == pos);
    sorted.insert(pos, job);
    assert(sorted.deep_view() =~= all.insert(pos as int, job.deep_view()));
}

/// The jobs that took more than twice the average time, from the slowest down.
pub fn compute_slow_jobs(results: &[JobResult]) -> (r: Vec<SlowJobInfo>)
    requires
        reporting::total_ms(results.deep_view()) <= u64::MAX,
        timed_count(results.deep_view()) > 0 ==> slow_limit(results.deep_view()) <= u64::MAX,
    ensures
        r.deep_view() == slow_jobs(results.deep_view()),
        forall|i: int| 0 <= i < r@.len() ==> (#[trigger] r@[i]).total_ms > 0,
{
    let ghost all = results.deep_view();
    let total: u64 = total_duration(results);
    let count: u64 = timed_count_of(results);
    let mut sorted: Vec<SlowJobInfo> = Vec::new();
    assert(sorted.deep_view() =~= Seq::<SlowModel>::empty());
    if count == 0 || total == 0 {
        return sorted;
    }
    let average: u64 = total / count;
    let limit: u64 = average * 2;
    let mut i: usize = 0;
    assert(all.take(0) =~= Seq::<ResultModel>::empty());
    while i < results.len()
        invariant
            all == results.deep_view(),
            total > 0,
            i <= results@.len(),
            sorted.deep_view() == slowest_first(above(all.take(i as int), limit as int, total)),
            forall|k: int|
                0 <= k < sorted.deep_view().len() ==> (#[trigger] sorted.deep_view()[k]).total_ms
                    == total,
        decreases results@.len() - i,
    {
        let r = &results[i];
        assert(all[i as int] == r.deep_view());
        assert(all.take(i + 1).drop_last() =~= all.take(i as int));
        if r.duration_ms > limit {
            let job = SlowJobInfo {
                job_name: r.job_name.clone(),
                duration_ms: r.duration_ms,
                total_ms: total,
            };
            let ghost before = above(all.take(i as int), limit as int, total);
            let ghost old_sorted = sorted.deep_view();
            assert(before.push(job.deep_view()).drop_last() =~= before);
            proof {
                lemma_slow_rank(old_sorted, job.duration_ms);
            }
            let ghost model = job.deep_view();
            let ghost p = slow_rank(old_sorted, job.duration_ms);
            insert_slow(&mut sorted, job);
            assert(sorted.deep_view() == old_sorted.insert(p, model));
            assert forall|k: int| 0 <= k < sorted.deep_view().len() implies (
            #[trigger] sorted.deep_view()[k]).total_ms == total by {
                if k < p {
                    assert(sorted.deep_view()[k] == old_sorted[k]);
                } else if k > p {
                    assert(sorted.deep_view()[k] == old_sorted[k - 1]);
                }
            }
        }
        i = i + 1;
    }
    assert(all.take(all.len() as int) =~= all);
    assert forall|i: int| 0 <= i < sorted@.len() implies (#[trigger] sorted@[i]).total_ms > 0 by {
        assert(sorted.deep_view()[i].total_ms == total);
    }
    sorted
}

proof fn lemma_slow_rank(slow: Seq<SlowModel>, ms: u64)
    ensures
        0 <= slow_rank(slow, ms) <= slow.len(),
    decreases slow.len(),
{
    if slow.len() > 0 {
        lemma_slow_rank(slow.drop_last(), ms);
    }
}

// ---------------------------------------------------------------------------
// Laws

/// Whether the jobs go down in their durations.
pub open spec fn goes_down(slow: Seq<SlowModel>) -> bool {
    forall|i: int, j: int|
        0 <= i < j < slow.len() ==> (#[trigger] slow[i]).duration_ms >= (#[trigger] slow[j]).duration_ms
}

proof fn lemma_slow_rank_splits(slow: Seq<SlowModel>, ms: u64, i: int)
    requires
        goes_down(slow),
        0 <= i < slow.len(),
    ensures
        i < slow_rank(slow, ms) ==> slow[i].duration_ms >= ms,
        i >= slow_rank(slow, ms) ==> slow[i].duration_ms < ms,
    decreases slow.len(),
{
    let d = slow.drop_last();
    lemma_slow_rank(d, ms);
    if slow.last().duration_ms >= ms {
        assert(slow[i].duration_ms >= slow[slow.len() - 1].duration_ms);
    } else if i < d.len() {
        assert(goes_down(d)) by {
            assert forall|a: int, b: int| 0 <= a < b < d.len() implies (#[trigger] d[a]).duration_ms >= (
            #[trigger] d[b]).duration_ms by {
                assert(slow[a].duration_ms >= slow[b].duration_ms);
            }
        }
        lemma_slow_rank_splits(d, ms, i);
    }
}

/// The slow jobs go down in their durations, and sorting loses none.
pub proof fn lemma_slowest_first(slow: Seq<SlowModel>)
    ensures
        goes_down(slowest_first(slow)),
        slowest_first(slow).to_multiset() == slow.to_multiset(),
    decreases slow.len(),
{
    if slow.len() > 0 {
        let d = slow.drop_last();
        let e = slow.last();
        let sorted = slowest_first(d);
        lemma_slowest_first(d);
        lemma_slow_rank(sorted, e.duration_ms);
        let p = slow_rank(sorted, e.duration_ms);
        let t = sorted.insert(p, e);
        assert forall|i: int, j: int| 0 <= i < j < t.len() implies (#[trigger] t[i]).duration_ms >= (
        #[trigger] t[j]).duration_ms by {
            if i < p && p < j {
                assert(t[i] == sorted[i] && t[j] == sorted[j - 1]);
            } else if i < p && j < p {
                assert(t[i] == sorted[i] && t[j] == sorted[j]);
            } else if i > p {
                assert(t[i] == sorted[i - 1] && t[j] == sorted[j - 1]);
            } else if i == p {
                assert(t[j] == sorted[j - 1]);
                lemma_slow_rank_splits(sorted, e.duration_ms, j - 1);
            } else {
                assert(t[i] == sorted[i]);
                lemma_slow_rank_splits(sorted, e.duration_ms, i);
            }
        }
        vstd::seq_lib::to_multiset_insert(sorted, p, e);
        vstd::seq_lib::to_multiset_build(d, e);
        assert(slow =~= d.push(e));
    } else {
        assert(slowest_first(slow) =~= slow);
    }
}

proof fn lemma_above_over(results: Seq<ResultModel>, limit: int, total: u64, i: int)
    requires
        0 <= i < above(results, limit, total).len(),
    ensures
        above(results, limit, total)[i].duration_ms > limit,
    decreases results.len(),
{
    if results.len() > 0 && i < above(results.drop_last(), limit, total).len() {
        lemma_above_over(results.drop_last(), limit, total, i);
    }
}

/// Every slow job took more than twice the average time, and they go down in
/// their durations.
pub proof fn lemma_slow_jobs_are_slow(results: Seq<ResultModel>, i: int)
    requires
        0 <= i < slow_jobs(results).len(),
    ensures
        slow_jobs(results)[i].duration_ms > slow_limit(results),
        goes_down(slow_jobs(results)),
{
    let over = above(results, slow_limit(results), reporting::total_ms(results) as u64);
    let sorted = slowest_first(over);
    lemma_slowest_first(over);
    over.to_multiset_ensures();
    sorted.to_multiset_ensures();
    let e = sorted[i];
    assert(sorted.contains(e));
    assert(over.to_multiset().count(e) > 0);
    assert(over.contains(e));
    let j = over.index_of(e);
    lemma_above_over(results, slow_limit(results), reporting::total_ms(results) as u64, j);
}

/// The average of a job over runs lies between its shortest and its longest
/// time: it is no less than any bound below all of them, and no more than any
/// above. A job that never ran has none.
pub proof fn lemma_average_between(runs: Seq<Table<u64>>, job: Seq<char>, low: u64, high: u64)
    requires
        forall|i: int|
            0 <= i < runs.len() && (#[trigger] runs[i]).map.contains_key(job) ==> low
                <= runs[i].map[job] <= high,
    ensures
        job_average(runs, job) is None <==> forall|i: int|
            0 <= i < runs.len() ==> !(#[trigger] runs[i]).map.contains_key(job),
        job_average(runs, job) matches Some(a) ==> low <= a <= high,
{
    lemma_sum_between(runs, job, low, high);
    lemma_counted_if_there(runs, job);
    let s = job_sum(runs, job) as int;
    let n = job_count(runs, job) as int;
    if n > 0 {
        assert(low <= s / n <= high) by (nonlinear_arith)
            requires
                n > 0,
                low * n <= s <= high * n,
        ;
    }
}

proof fn lemma_sum_between(runs: Seq<Table<u64>>, job: Seq<char>, low: u64, high: u64)
    requires
        forall|i: int|
            0 <= i < runs.len() && (#[trigger] runs[i]).map.contains_key(job) ==> low
                <= runs[i].map[job] <= high,
    ensures
        low * job_count(runs, job) <= job_sum(runs, job) <= high * job_count(runs, job),
    decreases runs.len(),
{
    if runs.len() > 0 {
        let d = runs.drop_last();
        assert forall|i: int| 0 <= i < d.len() && (#[trigger] d[i]).map.contains_key(job) implies low
            <= d[i].map[job] <= high by {
            assert(runs[i] == d[i]);
        }
        lemma_sum_between(d, job, low, high);
        let n = job_count(d, job) as int;
        assert(runs[runs.len() - 1] == runs.last());
        assert(low * (n + 1) == low * n + low) by (nonlinear_arith);
        assert(high * (n + 1) == high * n + high) by (nonlinear_arith);
    } else {
        assert(low * 0 == 0 && high * 0 == 0) by (nonlinear_arith);
    }
}

proof fn lemma_counted_if_there(runs: Seq<Table<u64>>, job: Seq<char>)
    ensures
        job_count(runs, job) == 0 <==> forall|i: int|
            0 <= i < runs.len() ==> !(#[trigger] runs[i]).map.contains_key(job),
    decreases runs.len(),
{
    if runs.len() > 0 {
        let d = runs.drop_last();
        lemma_counted_if_there(d, job);
        assert(runs[runs.len() - 1] == runs.last());
        assert forall|i: int| 0 <= i < d.len() implies #[trigger] d[i] == runs[i] by {}
        if job_count(d, job) != 0 {
            let i = choose|i: int| 0 <= i < d.len() && (#[trigger] d[i]).map.contains_key(job);
            assert(runs[i].map.contains_key(job));
        }
        if job_count(runs, job) == 0 {
            assert forall|i: int| 0 <= i < runs.len() implies !(#[trigger] runs[i]).map.contains_key(
                job,
            ) by {
                if i < d.len() {
                    assert(!d[i].map.contains_key(job));
                }
            }
        }
        if forall|i: int| 0 <= i < runs.len() ==> !(#[trigger] runs[i]).map.contains_key(job) {
            assert forall|i: int| 0 <= i < d.len() implies !(#[trigger] d[i]).map.contains_key(job) by {
                assert(!runs[i].map.contains_key(job));
            }
        }
    }
}

/// One more run adds its time to the sum and one to the count, if the job ran
/// in it; other runs do not matter.
pub proof fn lemma_one_more_run(runs: Seq<Table<u64>>, run: Table<u64>, job: Seq<char>)
    ensures
        run.map.contains_key(job) ==> job_sum(runs.push(run), job) == job_sum(runs, job) + run.map[job]
            && job_count(runs.push(run), job) == job_count(runs, job) + 1,
        !run.map.contains_key(job) ==> job_average(runs.push(run), job) == job_average(runs, job),
{
    assert(runs.push(run).drop_last() =~= runs);
}

/// Each job of a run is kept with the time of its last result.
pub proof fn lemma_durations_are_kept(results: Seq<ResultModel>, i: int)
    requires
        0 <= i < results.len(),
        forall|j: int| i < j < results.len() ==> (#[trigger] results[j]).job_name != results[i].job_name,
    ensures
        durations_by_job(results, results.len() as int).get(results[i].job_name) == Some(
            results[i].duration_ms,
        ),
{
    lemma_durations_kept(results, results.len() as int, i);
}

proof fn lemma_durations_kept(results: Seq<ResultModel>, n: int, i: int)
    requires
        0 <= i < n <= results.len(),
        forall|j: int| i < j < n ==> (#[trigger] results[j]).job_name != results[i].job_name,
    ensures
        durations_by_job(results, n).get(results[i].job_name) == Some(results[i].duration_ms),
    decreases n,
{
    if i < n - 1 {
        assert(results[n - 1].job_name != results[i].job_name);
        lemma_durations_kept(results, n - 1, i);
    }
}

/// Of the entries the last ones stay, in their order, and no more than asked
/// for.
pub proof fn lemma_last_entries_stay(entries: Seq<HistoryEntry>, n: int)
    requires
        0 <= n,
    ensures
        last_of(entries, n).len() == (if entries.len() <= n {
            entries.len() as int
        } else {
            n
        }),
        forall|i: int|
            0 <= i < last_of(entries, n).len() ==> #[trigger] last_of(entries, n)[i] == entries[entries.len()
                - last_of(entries, n).len() + i],
{
}

proof fn lemma_above_contains(results: Seq<ResultModel>, limit: int, total: u64, i: int)
    requires
        0 <= i < results.len(),
        results[i].duration_ms > limit,
    ensures
        above(results, limit, total).contains(
            SlowModel {
                job_name: results[i].job_name,
                duration_ms: results[i].duration_ms,
                total_ms: total,
            },
        ),
    decreases results.len(),
{
    let x = SlowModel {
        job_name: results[i].job_name,
        duration_ms: results[i].duration_ms,
        total_ms: total,
    };
    let before = above(results.drop_last(), limit, total);
    let all = above(results, limit, total);
    if i < results.len() - 1 {
        lemma_above_contains(results.drop_last(), limit, total, i);
        let k = before.index_of(x);
        assert(all[k] == x);
    } else {
        assert(all[all.len() - 1] == x);
    }
}

/// Every job that took more than twice the average of the jobs that took any
/// time is slow: it is listed with its time and the time of all.
pub proof fn lemma_slow_jobs_are_listed(results: Seq<ResultModel>, i: int, sum: nat, count: nat)
    requires
        0 <= i < results.len(),
        sum == durations_sum(results),
        count == results.filter(|r: ResultModel| r.duration_ms > 0).len(),
        sum <= u64::MAX,
        count > 0,
        results[i].duration_ms > 2 * (sum / count),
    ensures
        slow_jobs(results).contains(
            SlowModel {
                job_name: results[i].job_name,
                duration_ms: results[i].duration_ms,
                total_ms: sum as u64,
            },
        ),
{
    lemma_timed_count(results);
    lemma_durations_sum(results, i);
    let total = reporting::total_ms(results);
    let limit = slow_limit(results);
    let x = SlowModel {
        job_name: results[i].job_name,
        duration_ms: results[i].duration_ms,
        total_ms: total as u64,
    };
    lemma_above_contains(results, limit, total as u64, i);
    let list = above(results, limit, total as u64);
    lemma_slowest_first(list);
    list.to_multiset_ensures();
    slowest_first(list).to_multiset_ensures();
    assert(list.to_multiset().count(x) > 0);
}

/// The times of the results, added up.
pub open spec fn durations_sum(results: Seq<ResultModel>) -> nat {
    results.fold_left(0nat, |s: nat, r: ResultModel| s + r.duration_ms as nat)
}

proof fn lemma_durations_sum(results: Seq<ResultModel>, i: int)
    requires
        0 <= i < results.len(),
    ensures
        reporting::total_ms(results) == durations_sum(results),
        reporting::total_ms(results) >= results[i].duration_ms,
    decreases results.len(),
{
    reveal_with_fuel(Seq::fold_left, 2);
    reveal_with_fuel(reporting::total_ms, 2);
    let d = results.drop_last();
    if d.len() > 0 {
        if i < d.len() {
            lemma_durations_sum(d, i);
        } else {
            lemma_durations_sum(d, 0);
        }
    }
}

proof fn lemma_timed_count(results: Seq<ResultModel>)
    ensures
        timed_count(results) == results.filter(|r: ResultModel| r.duration_ms > 0).len(),
    decreases results.len(),
{
    reveal(Seq::filter);
    if results.len() > 0 {
        lemma_timed_count(results.drop_last());
    }
}

/// A job is listed as slow only if it took more than twice the average of the
/// jobs that took any time.
pub proof fn lemma_listed_jobs_took_long(results: Seq<ResultModel>, i: int, sum: nat, count: nat)
    requires
        0 <= i < slow_jobs(results).len(),
        sum == durations_sum(results),
        count == results.filter(|r: ResultModel| r.duration_ms > 0).len(),
    ensures
        count > 0,
        slow_jobs(results)[i].duration_ms > 2 * (sum / count),
        exists|k: int|
            0 <= k < results.len() && (#[trigger] results[k]).job_name == slow_jobs(results)[i].job_name
                && results[k].duration_ms == slow_jobs(results)[i].duration_ms,
{
    lemma_timed_count(results);
    lemma_slow_jobs_are_slow(results, i);
    let total = reporting::total_ms(results);
    let list = above(results, slow_limit(results), total as u64);
    lemma_slowest_first(list);
    let x = slow_jobs(results)[i];
    assert(slow_jobs(results).contains(x));
    list.to_multiset_ensures();
    slowest_first(list).to_multiset_ensures();
    assert(slowest_first(list).to_multiset().count(x) > 0);
    assert(list.contains(x));
    lemma_above_stems(results, slow_limit(results), total as u64, x);
    lemma_durations_sum(results, 0);
}

proof fn lemma_above_stems(results: Seq<ResultModel>, limit: int, total: u64, x: SlowModel)
    requires
        above(results, limit, total).contains(x),
    ensures
        results.len() > 0,
        exists|k: int|
            0 <= k < results.len() && (#[trigger] results[k]).job_name == x.job_name
                && results[k].duration_ms == x.duration_ms,
    decreases results.len(),
{
    if results.len() > 0 {
        let d = results.drop_last();
        let before = above(d, limit, total);
        let all = above(results, limit, total);
        let k = all.index_of(x);
        if k < before.len() {
            assert(before[k] == x);
            lemma_above_stems(d, limit, total, x);
            let j = choose|j: int|
                0 <= j < d.len() && (#[trigger] d[j]).job_name == x.job_name && d[j].duration_ms
                    == x.duration_ms;
            assert(results[j] == d[j]);
        } else {
            assert(results[results.len() - 1].job_name == x.job_name);
        }
    }
}

/// The times of each run are those of its entry.
pub proof fn lemma_run_tables(entries: Seq<HistoryEntry>, i: int)
    requires
        0 <= i < entries.len(),
    ensures
        run_tables(entries).len() == entries.len(),
        run_tables(entries)[i] == entries[i].job_durations.deep_view(),
{
}

} // verus!
