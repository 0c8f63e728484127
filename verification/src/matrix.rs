//! Jobs that stand for many: one for each combination of parameters.
use vstd::prelude::*;
use vstd::slice::slice_subrange;

use crate::models::{Job, JobModel};
use crate::numbers;
use crate::numbers::decimal_str;
use crate::order;
use crate::order::sort_strings;
use crate::string_map::{DeepClone, StringMap, Table};
use crate::text;
use crate::text::{append_str, join_strs};

verus! {

// ---------------------------------------------------------------------------
// Products

/// `item` in front of each of the combinations.
pub open spec fn prepend<A>(item: A, rest: Seq<Seq<A>>) -> Seq<Seq<A>> {
    Seq::new(rest.len(), |j: int| seq![item] + rest[j])
}

/// Each of the items in front of each of the combinations, item by item.
pub open spec fn prepend_each<A>(items: Seq<A>, rest: Seq<Seq<A>>) -> Seq<Seq<A>>
    decreases items.len(),
{
    if items.len() == 0 {
        Seq::empty()
    } else {
        prepend_each(items.drop_last(), rest) + prepend(items.last(), rest)
    }
}

/// The combinations of one item of each list.
pub open spec fn product<A>(lists: Seq<Seq<A>>) -> Seq<Seq<A>>
    decreases lists.len(),
{
    if lists.len() == 0 {
        seq![Seq::empty()]
    } else {
        prepend_each(lists[0], product(lists.drop_first()))
    }
}

/// The combinations of one item of each list.
pub fn cartesian_product<T: DeepClone>(lists: &[&Vec<T>]) -> (r: Vec<Vec<T>>)
    ensures
        r.deep_view() == product(lists.deep_view()),
    decreases lists@.len(),
{
    let ghost all = lists.deep_view();
    let mut out: Vec<Vec<T>> = Vec::new();
    if lists.len() == 0 {
        out.push(Vec::new());
        assert(out@[0].deep_view() =~= Seq::<T::V>::empty());
        assert(out.deep_view() =~= seq![Seq::<T::V>::empty()]);
        return out;
    }
    let first = lists[0];
    let ghost items = first.deep_view();
    assert(all[0] == items);
    let rest_lists = slice_subrange(lists, 1, lists.len());
    let rest = cartesian_product(rest_lists);
    let ghost rest_product = rest.deep_view();
    assert(rest_lists.deep_view() =~= all.drop_first());
    let mut i: usize = 0;
    assert(items.take(0) =~= Seq::<T::V>::empty());
    assert(out.deep_view() =~= prepend_each(items.take(0), rest_product));
    while i < first.len()
        invariant
            items == first.deep_view(),
            rest_product == rest.deep_view(),
            i <= first@.len(),
            out.deep_view() == prepend_each(items.take(i as int), rest_product),
        decreases first@.len() - i,
    {
        let ghost before = out.deep_view();
        let mut j: usize = 0;
        assert(items[i as int] == first@[i as int].deep_view());
        assert(before + prepend(items[i as int], rest_product).take(0) =~= before);
        while j < rest.len()
            invariant
                items == first.deep_view(),
                rest_product == rest.deep_view(),
                i < first@.len(),
                items[i as int] == first@[i as int].deep_view(),
                j <= rest@.len(),
                out.deep_view() == before + prepend(items[i as int], rest_product).take(j as int),
            decreases rest@.len() - j,
        {
            let mut combo: Vec<T> = Vec::new();
            combo.push(first[i].deep_clone());
            let tail = &rest[j];
            let mut k: usize = 0;
            assert(rest_product[j as int] == tail.deep_view());
            while k < tail.len()
                invariant
                    k <= tail@.len(),
                    combo@.len() == k + 1,
                    combo@[0].deep_view() == items[i as int],
                    forall|m: int| 0 <= m < k ==> combo@[m + 1].deep_view() == (#[trigger] tail@[m]).deep_view(),
                decreases tail@.len() - k,
            {
                combo.push(tail[k].deep_clone());
                k = k + 1;
            }
            assert(combo.deep_view() =~= seq![items[i as int]] + tail.deep_view()) by {
                assert forall|m: int| 0 <= m < combo@.len() implies #[trigger] combo.deep_view()[m] == (
                seq![items[i as int]] + tail.deep_view())[m] by {
                    if m > 0 {
                        assert(tail@[m - 1].deep_view() == combo@[m - 1 + 1].deep_view());
                    }
                }
            }
            let ghost now = out.deep_view();
            out.push(combo);
            assert(out.deep_view() =~= now.push(combo.deep_view()));
            assert(out.deep_view() =~= before + prepend(items[i as int], rest_product).take(j + 1));
            j = j + 1;
        }
        assert(prepend(items[i as int], rest_product).take(rest@.len() as int) =~= prepend(
            items[i as int],
            rest_product,
        ));
        assert(items.take(i + 1).drop_last() =~= items.take(i as int));
        assert(items.take(i + 1).last() == items[i as int]);
        i = i + 1;
    }
    assert(items.take(items.len() as int) =~= items);
    out
}

/// How many combinations there are: the lengths of the lists multiplied.
pub open spec fn product_len<A>(lists: Seq<Seq<A>>) -> nat
    decreases lists.len(),
{
    if lists.len() == 0 {
        1
    } else {
        lists[0].len() * product_len(lists.drop_first())
    }
}

proof fn lemma_prepend_each_len<A>(items: Seq<A>, rest: Seq<Seq<A>>)
    ensures
        prepend_each(items, rest).len() == items.len() * rest.len(),
    decreases items.len(),
{
    if items.len() > 0 {
        lemma_prepend_each_len(items.drop_last(), rest);
        assert((items.len() - 1) * rest.len() + rest.len() == items.len() * rest.len())
            by (nonlinear_arith);
    }
}

/// There are as many combinations as the lengths of the lists multiplied.
pub proof fn lemma_product_len<A>(lists: Seq<Seq<A>>)
    ensures
        product(lists).len() == product_len(lists),
    decreases lists.len(),
{
    if lists.len() > 0 {
        lemma_product_len(lists.drop_first());
        lemma_prepend_each_len(lists[0], product(lists.drop_first()));
    }
}

/// Whether a combination takes one item of each list.
pub open spec fn takes_one_of_each<A>(lists: Seq<Seq<A>>, combo: Seq<A>) -> bool {
    &&& combo.len() == lists.len()
    &&& forall|i: int| 0 <= i < lists.len() ==> (#[trigger] lists[i]).contains(combo[i])
}

proof fn lemma_prepend_each_contains<A>(items: Seq<A>, rest: Seq<Seq<A>>, combo: Seq<A>)
    ensures
        prepend_each(items, rest).contains(combo) <==> combo.len() > 0 && items.contains(combo[0])
            && rest.contains(combo.drop_first()),
    decreases items.len(),
{
    if items.len() > 0 {
        let d = items.drop_last();
        let a = prepend_each(d, rest);
        let b = prepend(items.last(), rest);
        let all = prepend_each(items, rest);
        lemma_prepend_each_contains(d, rest, combo);
        if all.contains(combo) {
            let i = all.index_of(combo);
            if i < a.len() {
                assert(a[i] == combo);
                let m = d.index_of(combo[0]);
                assert(items[m] == combo[0]);
            } else {
                let j = i - a.len();
                assert(b[j] == combo);
                assert(combo == seq![items.last()] + rest[j]);
                assert(combo.drop_first() =~= rest[j]);
                assert(items[items.len() - 1] == combo[0]);
                assert(rest.contains(rest[j]));
            }
        }
        if combo.len() > 0 && items.contains(combo[0]) && rest.contains(combo.drop_first()) {
            let m = items.index_of(combo[0]);
            if m < d.len() {
                assert(d[m] == combo[0]);
                let i = a.index_of(combo);
                assert(all[i] == combo);
            } else {
                let j = rest.index_of(combo.drop_first());
                assert(b[j] =~= combo);
                assert(all[a.len() + j] == combo);
            }
        }
    }
}

/// The combinations are exactly those that take one item of each list.
pub proof fn lemma_product_contains<A>(lists: Seq<Seq<A>>, combo: Seq<A>)
    ensures
        product(lists).contains(combo) <==> takes_one_of_each(lists, combo),
    decreases lists.len(),
{
    if lists.len() == 0 {
        if combo.len() == 0 {
            assert(combo =~= Seq::<A>::empty());
            assert(product(lists)[0] == combo);
        }
    } else {
        let tail = lists.drop_first();
        lemma_prepend_each_contains(lists[0], product(tail), combo);
        if combo.len() > 0 {
            let rest = combo.drop_first();
            lemma_product_contains(tail, rest);
            if takes_one_of_each(lists, combo) {
                assert forall|i: int| 0 <= i < tail.len() implies (#[trigger] tail[i]).contains(rest[i]) by {
                    assert(lists[i + 1].contains(combo[i + 1]));
                }
                assert(lists[0].contains(combo[0]));
            }
            if lists[0].contains(combo[0]) && takes_one_of_each(tail, rest) {
                assert forall|i: int| 0 <= i < lists.len() implies (#[trigger] lists[i]).contains(
                    combo[i],
                ) by {
                    if i > 0 {
                        assert(tail[i - 1].contains(rest[i - 1]));
                    }
                }
            }
        }
    }
}

// ---------------------------------------------------------------------------
// Combinations of parameters

/// The first `n` keys with their values.
pub open spec fn assignment(keys: Seq<Seq<char>>, values: Seq<Seq<char>>, n: int) -> Table<Seq<char>>
    decreases n,
{
    if n <= 0 {
        Table::empty()
    } else {
        assignment(keys, values, n - 1).insert(keys[n - 1], values[n - 1])
    }
}

/// The combinations of a parameter table: each gives every parameter one of
/// its values.
pub open spec fn combinations(matrix: Table<Seq<Seq<char>>>) -> Seq<Table<Seq<char>>> {
    let combos = product(matrix.values());
    Seq::new(
        combos.len(),
        |i: int| assignment(matrix.order, combos[i], matrix.order.len() as int),
    )
}

/// The combinations of a parameter table.
pub fn generate_combinations(matrix: &StringMap<Vec<String>>) -> (r: Vec<StringMap<String>>)
    ensures
        r.deep_view() == combinations(matrix.deep_view()),
{
    let ghost table = matrix.deep_view();
    let n: usize = matrix.len();
    let mut values: Vec<&Vec<String>> = Vec::new();
    let mut i: usize = 0;
    while i < n
        invariant
            table == matrix.deep_view(),
            n == table.order.len(),
            i <= n,
            values@.len() == i,
            forall|k: int| 0 <= k < i ==> (#[trigger] values@[k]).deep_view() == table.map[table.order[k]],
        decreases n - i,
    {
        values.push(matrix.value_at(i));
        i = i + 1;
    }
    let lists = values.as_slice();
    let combos = cartesian_product(lists);
    assert(lists.deep_view() =~= table.values());
    let ghost all = product(table.values());
    let mut out: Vec<StringMap<String>> = Vec::new();
    let mut c: usize = 0;
    while c < combos.len()
        invariant
            table == matrix.deep_view(),
            table.wf(),
            n == table.order.len(),
            all == combos.deep_view(),
            all == product(table.values()),
            c <= combos@.len(),
            out@.len() == c,
            forall|k: int|
                0 <= k < c ==> (#[trigger] out@[k]).deep_view() == assignment(
                    table.order,
                    all[k],
                    n as int,
                ),
        decreases combos@.len() - c,
    {
        let combo = &combos[c];
        assert(all[c as int] == combo.deep_view());
        proof {
            assert(all.contains(all[c as int]));
            lemma_product_contains(table.values(), all[c as int]);
        }
        let mut map: StringMap<String> = StringMap::new();
        let mut j: usize = 0;
        while j < n
            invariant
                table == matrix.deep_view(),
                n == table.order.len(),
                combo.deep_view().len() == n,
                j <= n,
                map.deep_view() == assignment(table.order, combo.deep_view(), j as int),
            decreases n - j,
        {
            map.insert(matrix.key_at(j).clone(), combo[j].clone());
            j = j + 1;
        }
        out.push(map);
        c = c + 1;
    }
    assert(out.deep_view() =~= combinations(table));
    out
}

/// What a combination adds to the name of a job: its values in the order of
/// their keys, joined by `-`.
pub open spec fn suffix(combo: Table<Seq<char>>) -> Seq<char> {
    let keys = order::sort_texts(combo.order);
    text::join(Seq::new(keys.len(), |i: int| combo.map[keys[i]]), "-"@)
}

/// What a combination adds to the name of a job.
pub fn build_matrix_suffix(combo: &StringMap<String>) -> (r: String)
    ensures
        r@ == suffix(combo.deep_view()),
{
    let ghost table = combo.deep_view();
    let n: usize = combo.len();
    let mut keys: Vec<String> = Vec::new();
    let mut i: usize = 0;
    while i < n
        invariant
            table == combo.deep_view(),
            n == table.order.len(),
            i <= n,
            keys@.len() == i,
            forall|k: int| 0 <= k < i ==> (#[trigger] keys@[k])@ == table.order[k],
        decreases n - i,
    {
        keys.push(combo.key_at(i).clone());
        i = i + 1;
    }
    assert(keys.deep_view() =~= table.order);
    let sorted = sort_strings(&keys);
    let ghost names = sorted.deep_view();
    let mut values: Vec<String> = Vec::new();
    let mut j: usize = 0;
    while j < sorted.len()
        invariant
            table == combo.deep_view(),
            table.wf(),
            names == sorted.deep_view(),
            names == order::sort_texts(table.order),
            j <= sorted@.len(),
            values@.len() == j,
            forall|k: int| 0 <= k < j ==> (#[trigger] values@[k])@ == table.map[names[k]],
        decreases sorted@.len() - j,
    {
        assert(names[j as int] == sorted@[j as int]@);
        proof {
            assert(names.contains(names[j as int]));
            order::lemma_sort_keeps(table.order, names[j as int]);
        }
        match combo.get(sorted[j].as_str()) {
            Some(v) => {
                values.push(v.clone());
            },
            None => {
                values.push(String::new());
            },
        }
        j = j + 1;
    }
    assert(values.deep_view() =~= Seq::new(names.len(), |i: int| table.map[names[i]]));
    join_strs(&values, "-")
}

/// A combination as text: `key=value` for each parameter.
pub open spec fn params_text(combo: Table<Seq<char>>) -> Seq<char> {
    text::join(
        Seq::new(combo.order.len(), |i: int| combo.order[i] + "="@ + combo.map[combo.order[i]]),
        " "@,
    )
}

fn params_string(combo: &StringMap<String>) -> (r: String)
    ensures
        r@ == params_text(combo.deep_view()),
{
    let ghost table = combo.deep_view();
    let n: usize = combo.len();
    let mut parts: Vec<String> = Vec::new();
    let mut i: usize = 0;
    while i < n
        invariant
            table == combo.deep_view(),
            n == table.order.len(),
            i <= n,
            parts@.len() == i,
            forall|k: int|
                0 <= k < i ==> (#[trigger] parts@[k])@ == table.order[k] + "="@ + table.map[table.order[k]],
        decreases n - i,
    {
        let mut part = combo.key_at(i).clone();
        append_str(&mut part, "=");
        append_str(&mut part, combo.value_at(i).as_str());
        parts.push(part);
        i = i + 1;
    }
    assert(parts.deep_view() =~= Seq::new(
        table.order.len(),
        |i: int| table.order[i] + "="@ + table.map[table.order[i]],
    ));
    join_strs(&parts, " ")
}

// ---------------------------------------------------------------------------
// Expansion

/// The environment of the job for one combination.
pub open spec fn variant_env(
    env: Table<Seq<char>>,
    combo: Table<Seq<char>>,
    index: nat,
    name: Seq<char>,
) -> Table<Seq<char>> {
    env.insert_all(combo).insert("MATRIX_JOB_INDEX"@, numbers::decimal(index)).insert(
        "MATRIX_COMBINATION"@,
        params_text(combo),
    ).insert("ORIGINAL_JOB_NAME"@, name)
}

/// The job for one combination. Its name shows the combination if there are
/// `many`.
pub open spec fn variant(job: JobModel, combo: Table<Seq<char>>, index: nat, many: bool) -> JobModel {
    JobModel {
        name: if many {
            job.name + "/"@ + suffix(combo)
        } else {
            job.name
        },
        env: variant_env(job.env, combo, index, job.name),
        matrix: None,
        ..job
    }
}

/// The jobs for which a job stands: itself if it has no parameter table, else
/// one for each combination.
pub open spec fn variants(job: JobModel) -> Seq<JobModel> {
    match job.matrix {
        Some(matrix) => {
            let combos = combinations(matrix);
            Seq::new(combos.len(), |i: int| variant(job, combos[i], i as nat, combos.len() > 1))
        },
        None => seq![job],
    }
}

/// The jobs for which the given jobs stand.
pub open spec fn expand(jobs: Seq<JobModel>) -> Seq<JobModel>
    decreases jobs.len(),
{
    if jobs.len() == 0 {
        Seq::empty()
    } else {
        expand(jobs.drop_last()) + variants(jobs.last())
    }
}

/// The dependencies of the jobs for which a job stands: those of the job.
pub fn expand_depends_on(deps: &Vec<String>, _current_matrix: &StringMap<Vec<String>>) -> (r: Vec<String>)
    ensures
        r.deep_view() == deps.deep_view(),
{
    deps.deep_clone()
}

fn make_variant(
    job: &Job,
    matrix: &StringMap<Vec<String>>,
    combo: &StringMap<String>,
    index: usize,
    many: bool,
) -> (r: Job)
    ensures
        r.deep_view() == variant(job.deep_view(), combo.deep_view(), index as nat, many),
{
    let mut new_job = job.deep_clone();
    if many {
        append_str(&mut new_job.name, "/");
        append_str(&mut new_job.name, build_matrix_suffix(combo).as_str());
    }
    new_job.depends_on = expand_depends_on(&job.depends_on, matrix);
    new_job.env.insert_all(combo);
    new_job.env.insert("MATRIX_JOB_INDEX".to_owned(), decimal_str(index as u128));
    new_job.env.insert("MATRIX_COMBINATION".to_owned(), params_string(combo));
    new_job.env.insert("ORIGINAL_JOB_NAME".to_owned(), job.name.clone());
    new_job.matrix = None;
    new_job
}

/// The jobs for which the given jobs stand: a job with a parameter table
/// becomes one job for each combination.
pub fn expand_matrix_jobs(jobs: Vec<Job>) -> (r: Vec<Job>)
    ensures
        r.deep_view() == expand(jobs.deep_view()),
{
    let ghost all = jobs.deep_view();
    let mut expanded: Vec<Job> = Vec::new();
    let mut i: usize = 0;
    assert(all.take(0) =~= Seq::<JobModel>::empty());
    assert(expanded.deep_view() =~= expand(all.take(0)));
    while i < jobs.len()
        invariant
            all == jobs.deep_view(),
            i <= jobs@.len(),
            expanded.deep_view() == expand(all.take(i as int)),
        decreases jobs@.len() - i,
    {
        let job = &jobs[i];
        let ghost before = expanded.deep_view();
        assert(all[i as int] == job.deep_view());
        assert(all.take(i + 1).drop_last() =~= all.take(i as int));
        match &job.matrix {
            Some(matrix) => {
                let combos = generate_combinations(matrix);
                let ghost tables = combos.deep_view();
                let ghost jobs_of = variants(job.deep_view());
                let mut k: usize = 0;
                assert(before + jobs_of.take(0) =~= before);
                while k < combos.len()
                    invariant
                        tables == combos.deep_view(),
                        job.matrix == Some(*matrix),
                        tables == combinations(matrix.deep_view()),
                        jobs_of == variants(job.deep_view()),
                        k <= combos@.len(),
                        expanded.deep_view() == before + jobs_of.take(k as int),
                    decreases combos@.len() - k,
                {
                    let ghost now = expanded.deep_view();
                    let new_job = make_variant(job, matrix, &combos[k], k, combos.len() > 1);
                    assert(tables[k as int] == combos@[k as int].deep_view());
                    assert(jobs_of[k as int] == new_job.deep_view());
                    expanded.push(new_job);
                    assert(expanded.deep_view() =~= now.push(new_job.deep_view()));
                    assert(expanded.deep_view() =~= before + jobs_of.take(k + 1));
                    k = k + 1;
                }
                assert(jobs_of.take(jobs_of.len() as int) =~= jobs_of);
            },
            None => {
                expanded.push(job.deep_clone());
                assert(expanded.deep_view() =~= before + seq![job.deep_view()]);
            },
        }
        i = i + 1;
    }
    assert(all.take(all.len() as int) =~= all);
    expanded
}

/// Whether the dependencies of an expanded job can be met: always.
pub fn matrix_dependencies_ok(_all_jobs: &[Job], _job: &Job, _original_jobs: &[Job]) -> (r: bool)
    ensures
        r,
{
    true
}

// ---------------------------------------------------------------------------
// Laws

/// A job with a parameter table stands for as many jobs as the numbers of
/// values multiplied.
pub proof fn lemma_variants_len(job: JobModel, matrix: Table<Seq<Seq<char>>>)
    requires
        job.matrix == Some(matrix),
    ensures
        variants(job).len() == product_len(matrix.values()),
{
    lemma_product_len(matrix.values());
}

proof fn lemma_variants_plain(job: JobModel, i: int)
    requires
        0 <= i < variants(job).len(),
    ensures
        variants(job)[i].matrix is None,
{
}

/// No job is left with a parameter table.
pub proof fn lemma_expanded_plain(jobs: Seq<JobModel>, i: int)
    requires
        0 <= i < expand(jobs).len(),
    ensures
        expand(jobs)[i].matrix is None,
    decreases jobs.len(),
{
    if jobs.len() > 0 {
        let head = expand(jobs.drop_last());
        if i < head.len() {
            lemma_expanded_plain(jobs.drop_last(), i);
        } else {
            lemma_variants_plain(jobs.last(), i - head.len());
        }
    }
}

proof fn lemma_expand_plain(jobs: Seq<JobModel>)
    requires
        forall|i: int| 0 <= i < jobs.len() ==> (#[trigger] jobs[i]).matrix is None,
    ensures
        expand(jobs) == jobs,
    decreases jobs.len(),
{
    if jobs.len() > 0 {
        lemma_expand_plain(jobs.drop_last());
        assert(jobs[jobs.len() - 1].matrix is None);
        assert(jobs.drop_last() + seq![jobs.last()] =~= jobs);
    } else {
        assert(expand(jobs) =~= jobs);
    }
}

/// Expanding twice is expanding once.
pub proof fn lemma_expand_twice(jobs: Seq<JobModel>)
    ensures
        expand(expand(jobs)) == expand(jobs),
{
    assert forall|i: int| 0 <= i < expand(jobs).len() implies (#[trigger] expand(jobs)[i]).matrix is None by {
        lemma_expanded_plain(jobs, i);
    }
    lemma_expand_plain(expand(jobs));
}

/// The environment of the job for a combination gives every parameter its
/// value, but for those with the three names that are set behind.
pub proof fn lemma_variant_env(
    env: Table<Seq<char>>,
    combo: Table<Seq<char>>,
    index: nat,
    name: Seq<char>,
    key: Seq<char>,
)
    requires
        combo.wf(),
        combo.map.contains_key(key),
        key != "MATRIX_JOB_INDEX"@,
        key != "MATRIX_COMBINATION"@,
        key != "ORIGINAL_JOB_NAME"@,
    ensures
        variant_env(env, combo, index, name).get(key) == Some(combo.map[key]),
{
    env.lemma_insert_all_get(combo, key);
}

/// Expanding a job changes only its name, its environment and its parameter
/// table: everything else of each job for which it stands is the job's own.
pub proof fn lemma_variants_keep(job: JobModel, i: int)
    requires
        0 <= i < variants(job).len(),
    ensures
        variants(job)[i].steps == job.steps,
        variants(job)[i].stage == job.stage,
        variants(job)[i].depends_on == job.depends_on,
        variants(job)[i].condition == job.condition,
        variants(job)[i].timeout == job.timeout,
        variants(job)[i].retry == job.retry,
        variants(job)[i].artifacts == job.artifacts,
        variants(job)[i].cache == job.cache,
        variants(job)[i].services == job.services,
        variants(job)[i].needs_artifacts == job.needs_artifacts,
        variants(job)[i].isolation == job.isolation,
        variants(job)[i].image == job.image,
        variants(job)[i].matrix is None,
{
}

/// A job without a parameter table stands for itself alone.
pub proof fn lemma_plain_job_stays(job: JobModel)
    requires
        job.matrix is None,
    ensures
        variants(job).len() == 1,
        variants(job)[0] == job,
{
}

/// Expanding jobs one list behind another is expanding the two lists together,
/// and a single job becomes the jobs for which it stands.
pub proof fn lemma_expand_in_order(a: Seq<JobModel>, b: Seq<JobModel>, job: JobModel)
    ensures
        expand(a + b) == expand(a) + expand(b),
        expand(seq![job]) == variants(job),
    decreases b.len(),
{
    assert(seq![job].drop_last() =~= Seq::<JobModel>::empty());
    assert(expand(Seq::<JobModel>::empty()) =~= Seq::<JobModel>::empty());
    assert(expand(seq![job]) =~= variants(job));
    if b.len() == 0 {
        assert(a + b =~= a);
        assert(expand(a) + expand(b) =~= expand(a));
    } else {
        lemma_expand_in_order(a, b.drop_last(), job);
        assert((a + b).drop_last() =~= a + b.drop_last());
        assert((a + b).last() == b.last());
        assert(expand(a + b) =~= expand(a) + expand(b));
    }
}

/// Each job that comes of expanding stems from one of the jobs, and has its
/// steps, dependencies and condition.
pub proof fn lemma_expanded_jobs_stem(jobs: Seq<JobModel>, i: int)
    requires
        0 <= i < expand(jobs).len(),
    ensures
        exists|j: int|
            0 <= j < jobs.len() && expand(jobs)[i].steps == (#[trigger] jobs[j]).steps
                && expand(jobs)[i].depends_on == jobs[j].depends_on && expand(jobs)[i].condition
                == jobs[j].condition && expand(jobs)[i].stage == jobs[j].stage,
    decreases jobs.len(),
{
    if jobs.len() > 0 {
        let d = jobs.drop_last();
        if i < expand(d).len() {
            lemma_expanded_jobs_stem(d, i);
            let j = choose|j: int|
                0 <= j < d.len() && expand(d)[i].steps == (#[trigger] d[j]).steps
                    && expand(d)[i].depends_on == d[j].depends_on && expand(d)[i].condition
                    == d[j].condition && expand(d)[i].stage == d[j].stage;
            assert(jobs[j] == d[j]);
            assert(expand(jobs)[i] == expand(d)[i]);
        } else {
            lemma_variants_keep(jobs.last(), i - expand(d).len());
            assert(jobs[jobs.len() - 1] == jobs.last());
        }
    }
}

proof fn lemma_assignment(keys: Seq<Seq<char>>, values: Seq<Seq<char>>, n: int, k: Seq<char>)
    requires
        0 <= n <= keys.len(),
        keys.no_duplicates(),
    ensures
        assignment(keys, values, n).map.contains_key(k) <==> exists|i: int|
            0 <= i < n && #[trigger] keys[i] == k,
        forall|i: int|
            0 <= i < n && #[trigger] keys[i] == k ==> assignment(keys, values, n).map[k] == values[i],
        assignment(keys, values, n).order == keys.take(n),
    decreases n,
{
    if n > 0 {
        lemma_assignment(keys, values, n - 1, k);
        lemma_assignment(keys, values, n - 1, keys[n - 1]);
        assert forall|i: int| 0 <= i < n - 1 implies #[trigger] keys[i] != keys[n - 1] by {}
        assert(keys.take(n - 1).push(keys[n - 1]) =~= keys.take(n));
    } else {
        assert(keys.take(0) =~= Seq::<Seq<char>>::empty());
    }
}

/// A combination gives every parameter one of its values, and holds nothing
/// else.
pub proof fn lemma_combination_is_valid(matrix: Table<Seq<Seq<char>>>, i: int, key: Seq<char>)
    requires
        matrix.wf(),
        0 <= i < combinations(matrix).len(),
    ensures
        combinations(matrix)[i].map.contains_key(key) <==> matrix.map.contains_key(key),
        matrix.map.contains_key(key) ==> matrix.map[key].contains(combinations(matrix)[i].map[key]),
{
    let combos = product(matrix.values());
    let n = matrix.order.len() as int;
    lemma_assignment(matrix.order, combos[i], n, key);
    assert(combos.contains(combos[i]));
    lemma_product_contains(matrix.values(), combos[i]);
    if matrix.map.contains_key(key) {
        let k = matrix.order.index_of(key);
        assert(matrix.order[k] == key);
        assert(matrix.values()[k].contains(combos[i][k]));
    } else {
        assert forall|k: int| 0 <= k < n implies #[trigger] matrix.order[k] != key by {
            assert(matrix.order.contains(matrix.order[k]));
        }
    }
}

/// Every way to give each parameter one of its values is a combination.
pub proof fn lemma_every_choice_is_there(matrix: Table<Seq<Seq<char>>>, choice: Map<Seq<char>, Seq<char>>)
    requires
        matrix.wf(),
        forall|k: Seq<char>| #[trigger]
            matrix.map.contains_key(k) ==> matrix.map[k].contains(choice[k]),
    ensures
        exists|i: int|
            0 <= i < combinations(matrix).len() && forall|k: Seq<char>| #[trigger]
                matrix.map.contains_key(k) ==> (#[trigger] combinations(matrix)[i]).map.contains_key(k)
                    && combinations(matrix)[i].map[k] == choice[k],
{
    let n = matrix.order.len() as int;
    let picked = Seq::new(matrix.order.len(), |k: int| choice[matrix.order[k]]);
    let lists = matrix.values();
    assert forall|k: int| 0 <= k < lists.len() implies (#[trigger] lists[k]).contains(picked[k]) by {
        assert(matrix.order.contains(matrix.order[k]));
        assert(matrix.map.contains_key(matrix.order[k]));
        assert(lists[k] == matrix.map[matrix.order[k]]);
    }
    lemma_product_contains(lists, picked);
    let i = product(lists).index_of(picked);
    assert(combinations(matrix)[i] == assignment(matrix.order, picked, n));
    assert forall|k: Seq<char>| #[trigger] matrix.map.contains_key(k) implies combinations(
        matrix,
    )[i].map.contains_key(k) && combinations(matrix)[i].map[k] == choice[k] by {
        lemma_assignment(matrix.order, picked, n, k);
        let a = matrix.order.index_of(k);
        assert(matrix.order[a] == k);
    }
}

/// Each job for which a job with a parameter table stands sees one of the
/// values of each parameter in its environment, the number and the name of its
/// combination and the job's own name; every other variable is as it was.
pub proof fn lemma_variant_environment(job: JobModel, matrix: Table<Seq<Seq<char>>>, i: int, key: Seq<char>)
    requires
        job.matrix == Some(matrix),
        matrix.wf(),
        0 <= i < variants(job).len(),
    ensures
        variants(job)[i].env.get("ORIGINAL_JOB_NAME"@) == Some(job.name),
        variants(job)[i].env.get("MATRIX_JOB_INDEX"@) == Some(numbers::decimal(i as nat)),
        key != "MATRIX_JOB_INDEX"@ && key != "MATRIX_COMBINATION"@ && key != "ORIGINAL_JOB_NAME"@ ==> (
        if matrix.map.contains_key(key) {
            variants(job)[i].env.map.contains_key(key) && matrix.map[key].contains(
                variants(job)[i].env.map[key],
            )
        } else {
            variants(job)[i].env.get(key) == job.env.get(key)
        }),
{
    reveal_strlit("MATRIX_JOB_INDEX");
    reveal_strlit("MATRIX_COMBINATION");
    reveal_strlit("ORIGINAL_JOB_NAME");
    assert("MATRIX_JOB_INDEX"@.len() == 16);
    assert("MATRIX_COMBINATION"@.len() == 18);
    assert("ORIGINAL_JOB_NAME"@.len() == 17);
    let combo = combinations(matrix)[i];
    lemma_combination_is_valid(matrix, i, key);
    lemma_assignment(
        matrix.order,
        product(matrix.values())[i],
        matrix.order.len() as int,
        key,
    );
    assert(combo.order =~= matrix.order);
    assert forall|k: Seq<char>| #[trigger] combo.map.contains_key(k) <==> combo.order.contains(k) by {
        lemma_combination_is_valid(matrix, i, k);
    }
    job.env.lemma_insert_all_get(combo, key);
}

/// A job whose parameter table leaves one combination keeps its name; else the
/// names begin with the job's name and a slash.
pub proof fn lemma_variant_names(job: JobModel, i: int)
    requires
        0 <= i < variants(job).len(),
    ensures
        variants(job).len() == 1 ==> variants(job)[i].name == job.name,
        variants(job).len() > 1 ==> variants(job)[i].name.len() > job.name.len()
            && variants(job)[i].name.take(job.name.len() as int + 1) == job.name.push('/'),
{
    reveal_strlit("/");
    if let Some(matrix) = job.matrix {
        let s = suffix(combinations(matrix)[i]);
        assert((job.name + "/"@ + s).take(job.name.len() as int + 1) =~= job.name.push('/'));
    }
}

/// With one parameter, the job for a value is named behind it and sees
/// `parameter=value` as its combination.
pub proof fn lemma_single_parameter(combo: Table<Seq<char>>, key: Seq<char>)
    requires
        combo.order == seq![key],
    ensures
        suffix(combo) == combo.map[key],
        params_text(combo) == key + "="@ + combo.map[key],
{
    order::lemma_sort_one(key);
    let keys = order::sort_texts(combo.order);
    let values = Seq::new(keys.len(), |i: int| combo.map[keys[i]]);
    assert(values =~= seq![combo.map[key]]);
    text::lemma_join_one(combo.map[key], "-"@);
    let parts = Seq::new(combo.order.len(), |i: int| combo.order[i] + "="@ + combo.map[combo.order[i]]);
    assert(parts =~= seq![key + "="@ + combo.map[key]]);
    text::lemma_join_one(key + "="@ + combo.map[key], " "@);
}

/// With two parameters, the values come in the order of the parameters' names
/// in the name of the job, and in the order of the table in its combination.
pub proof fn lemma_two_parameters(combo: Table<Seq<char>>, a: Seq<char>, b: Seq<char>)
    requires
        combo.order == seq![a, b] || combo.order == seq![b, a],
        a != b,
        order::lex_le(a, b),
    ensures
        suffix(combo) == combo.map[a] + "-"@ + combo.map[b],
        combo.order == seq![a, b] ==> params_text(combo) == a + "="@ + combo.map[a] + " "@ + (b + "="@
            + combo.map[b]),
{
    order::lemma_sort_two(a, b);
    let keys = order::sort_texts(combo.order);
    let values = Seq::new(keys.len(), |i: int| combo.map[keys[i]]);
    assert(values =~= seq![combo.map[a]].push(combo.map[b]));
    text::lemma_join_one(combo.map[a], "-"@);
    text::lemma_join_more(seq![combo.map[a]], combo.map[b], "-"@);
    if combo.order == seq![a, b] {
        let parts = Seq::new(
            combo.order.len(),
            |i: int| combo.order[i] + "="@ + combo.map[combo.order[i]],
        );
        let x = a + "="@ + combo.map[a];
        let y = b + "="@ + combo.map[b];
        assert(parts =~= seq![x].push(y));
        text::lemma_join_one(x, " "@);
        text::lemma_join_more(seq![x], y, " "@);
    }
}

proof fn lemma_prepend_each_at<A>(items: Seq<A>, rest: Seq<Seq<A>>, i: int, j: int)
    requires
        0 <= i < items.len(),
        0 <= j < rest.len(),
    ensures
        0 <= i * rest.len() + j < prepend_each(items, rest).len(),
        prepend_each(items, rest)[i * rest.len() + j] == seq![items[i]] + rest[j],
    decreases items.len(),
{
    let d = items.drop_last();
    let before = prepend_each(d, rest);
    lemma_prepend_each_len(items, rest);
    lemma_prepend_each_len(d, rest);
    let n = rest.len() as int;
    let m = items.len() as int;
    assert(i * n + n <= m * n) by (nonlinear_arith)
        requires
            i + 1 <= m,
            n >= 0,
    ;
    assert(i * n >= 0) by (nonlinear_arith)
        requires
            i >= 0,
            n >= 0,
    ;
    if i < m - 1 {
        assert(i * n + n <= (m - 1) * n) by (nonlinear_arith)
            requires
                i + 1 <= m - 1,
                n >= 0,
        ;
        lemma_prepend_each_at(d, rest, i, j);
    } else {
        assert(before.len() == i * n);
    }
}

/// Combinations come in the order of the values: the first parameter changes
/// last.
pub proof fn lemma_combinations_in_order<A>(lists: Seq<Seq<A>>, i: int, j: int)
    requires
        lists.len() > 0,
        0 <= i < lists[0].len(),
        0 <= j < product(lists.drop_first()).len(),
    ensures
        product(lists)[i * product(lists.drop_first()).len() + j] == seq![lists[0][i]] + product(
            lists.drop_first(),
        )[j],
{
    lemma_prepend_each_at(lists[0], product(lists.drop_first()), i, j);
}

} // verus!
