//! The graph of the dependencies between jobs.
use petgraph::graph::DiGraph;
use vstd::prelude::*;

use crate::digraph;
use crate::digraph::{graph_add_edge, graph_add_node, graph_neighbors, graph_new, graph_toposort};
use crate::models::{Job, JobModel, JobStatus};
use crate::string_map::{DeepClone, StringMap, Table};
use crate::pattern;
use crate::pattern::{glob_check, glob_matches};
use crate::text;
use crate::text::{append_str, replace_str};

verus! {

/// The number of the last node with a name.
pub open spec fn node_of(names: Seq<Seq<char>>, name: Seq<char>) -> Option<int>
    decreases names.len(),
{
    if names.len() == 0 {
        None
    } else if names.last() == name {
        Some(names.len() - 1)
    } else {
        node_of(names.drop_last(), name)
    }
}

/// The edges into `to` from the nodes named in `deps`; names without a node
/// are passed over.
pub open spec fn edges_into(names: Seq<Seq<char>>, deps: Seq<Seq<char>>, to: int) -> Seq<(int, int)>
    decreases deps.len(),
{
    if deps.len() == 0 {
        Seq::empty()
    } else {
        let before = edges_into(names, deps.drop_last(), to);
        match node_of(names, deps.last()) {
            Some(from) => before.push((from, to)),
            None => before,
        }
    }
}

/// The names of jobs.
pub open spec fn job_names(jobs: Seq<JobModel>) -> Seq<Seq<char>> {
    Seq::new(jobs.len(), |i: int| jobs[i].name)
}

/// The edges that the first `n` jobs bring: one from each dependency to the
/// node with the job's name.
pub open spec fn dep_edges(jobs: Seq<JobModel>, n: int) -> Seq<(int, int)>
    decreases n,
{
    if n <= 0 {
        Seq::empty()
    } else {
        let names = job_names(jobs);
        dep_edges(jobs, n - 1) + edges_into(
            names,
            jobs[n - 1].depends_on,
            node_of(names, jobs[n - 1].name)->0,
        )
    }
}

/// The jobs by name; of jobs with the same name the last one stays.
pub open spec fn job_table(jobs: Seq<JobModel>) -> Table<JobModel>
    decreases jobs.len(),
{
    if jobs.len() == 0 {
        Table::empty()
    } else {
        job_table(jobs.drop_last()).insert(jobs.last().name, jobs.last())
    }
}

/// What a dependency graph holds.
#[verifier::ext_equal]
pub struct DagModel {
    /// The names of the nodes.
    pub names: Seq<Seq<char>>,
    /// The edges, each from a dependency to the job that needs it.
    pub edges: Seq<(int, int)>,
    /// The jobs by name.
    pub jobs: Table<JobModel>,
}

impl DagModel {
    /// The graph of the given jobs.
    pub open spec fn of(jobs: Seq<JobModel>) -> DagModel {
        DagModel {
            names: job_names(jobs),
            edges: dep_edges(jobs, jobs.len() as int),
            jobs: job_table(jobs),
        }
    }

    /// Every edge joins nodes that stand for their names.
    pub open spec fn wf(self) -> bool {
        &&& forall|e: int|
            0 <= e < self.edges.len() ==> {
                let (a, b) = #[trigger] self.edges[e];
                self.stands(a) && self.stands(b)
            }
    }

    /// Whether `n` is the node that stands for its name.
    pub open spec fn stands(self, n: int) -> bool {
        0 <= n < self.names.len() && node_of(self.names, self.names[n]) == Some(n)
    }

    /// The names of the given nodes.
    pub open spec fn label(self, nodes: Seq<int>) -> Seq<Seq<char>> {
        Seq::new(nodes.len(), |i: int| self.names[nodes[i]])
    }

    /// Whether some jobs depend on each other in a circle.
    pub open spec fn cyclic(self) -> bool {
        digraph::has_cycle(self.edges)
    }

    /// The nodes in the order in which their jobs can run.
    pub open spec fn node_order(self) -> Seq<int> {
        digraph::toposort_order(self.names.len(), self.edges)
    }

    /// The names of the jobs in the order in which they can run.
    pub open spec fn order(self) -> Seq<Seq<char>> {
        self.label(self.node_order())
    }

    /// The names of the jobs on which a job depends, the last named first.
    pub open spec fn deps(self, name: Seq<char>) -> Seq<Seq<char>> {
        match node_of(self.names, name) {
            Some(n) => self.label(digraph::sources(self.edges, n)),
            None => Seq::empty(),
        }
    }

    /// The names of the jobs that depend on a job, the last one first.
    pub open spec fn dependents(self, name: Seq<char>) -> Seq<Seq<char>> {
        match node_of(self.names, name) {
            Some(n) => self.label(digraph::targets(self.edges, n)),
            None => Seq::empty(),
        }
    }

    /// Whether a walk along dependencies leads from the node that stands for
    /// the name of `n` to a job that was hit, where `hits` tells of each node
    /// whether its name was hit.
    pub open spec fn needed(self, hits: Seq<bool>, n: int) -> bool {
        match node_of(self.names, self.names[n]) {
            Some(c) => self.leads_to_hit(hits, c),
            None => false,
        }
    }

    /// Whether a walk along dependencies leads from `c` to a job that was hit.
    pub open spec fn leads_to_hit(self, hits: Seq<bool>, c: int) -> bool {
        exists|p: Seq<int>| #[trigger] self.hit_walk(hits, c, p)
    }

    /// Whether `p` is a walk along dependencies from `c` to a job that was hit.
    pub open spec fn hit_walk(self, hits: Seq<bool>, c: int, p: Seq<int>) -> bool {
        &&& p.len() >= 1
        &&& p[0] == c
        &&& digraph::is_walk(self.edges, p)
        &&& self.hit(hits, p.last())
    }

    /// Whether `n` stands for a name that was hit.
    pub open spec fn hit(self, hits: Seq<bool>, n: int) -> bool {
        exists|m: int|
            0 <= m < hits.len() && #[trigger] hits[m] && node_of(self.names, self.names[m]) == Some(n)
    }

    /// The nodes that are needed.
    pub open spec fn needed_nodes(self, hits: Seq<bool>) -> spec_fn(int) -> bool {
        |n: int| self.needed(hits, n)
    }

    /// The names of the jobs that were hit and of all that they need, in the
    /// order in which they can run.
    pub open spec fn kept(self, hits: Seq<bool>) -> Seq<Seq<char>> {
        self.label(self.node_order().filter(self.needed_nodes(hits)))
    }
}

/// Whether a job with this status holds back none of those that depend on it.
pub open spec fn lets_pass(s: JobStatus) -> bool {
    s == JobStatus::Success || s == JobStatus::Skipped
}

/// Whether every dependency has succeeded or was skipped.
pub open spec fn all_pass(deps: Seq<Seq<char>>, done: Table<JobStatus>) -> bool {
    forall|i: int|
        0 <= i < deps.len() ==> (done.get(#[trigger] deps[i]) matches Some(s) && lets_pass(s))
}

/// Whether every dependency has succeeded.
pub open spec fn all_succeeded(deps: Seq<Seq<char>>, done: Table<JobStatus>) -> bool {
    forall|i: int| 0 <= i < deps.len() ==> done.get(#[trigger] deps[i]) == Some(JobStatus::Success)
}

/// Whether some dependency has failed or was cancelled.
pub open spec fn some_broke(deps: Seq<Seq<char>>, done: Table<JobStatus>) -> bool {
    exists|i: int|
        0 <= i < deps.len() && (done.get(#[trigger] deps[i]) == Some(JobStatus::Failed) || done.get(
            deps[i],
        ) == Some(JobStatus::Cancelled))
}

/// A name as a node of a drawing: `/` and `-` become `_`.
pub open spec fn dot_name(s: Seq<char>) -> Seq<char> {
    text::replace(text::replace(s, '/', "_"@), '-', "_"@)
}

/// The lines that draw the nodes of the given jobs.
pub open spec fn dot_nodes(jobs: Seq<JobModel>) -> Seq<char>
    decreases jobs.len(),
{
    if jobs.len() == 0 {
        Seq::empty()
    } else {
        dot_nodes(jobs.drop_last()) + "  \""@ + dot_name(jobs.last().name) + "\" [label=\""@
            + text::replace(jobs.last().name, '"', "\\\""@) + "\"];\n"@
    }
}

/// The lines that draw the edges to `to` from the dependencies that are jobs.
pub open spec fn dot_edges_into(known: Table<JobModel>, deps: Seq<Seq<char>>, to: Seq<char>) -> Seq<char>
    decreases deps.len(),
{
    if deps.len() == 0 {
        Seq::empty()
    } else {
        let before = dot_edges_into(known, deps.drop_last(), to);
        match known.get(deps.last()) {
            Some(dep) => before + "  \""@ + dot_name(dep.name) + "\" -> \""@ + dot_name(to) + "\";\n"@,
            None => before,
        }
    }
}

/// The lines that draw the dependencies of the given jobs.
pub open spec fn dot_edges(known: Table<JobModel>, jobs: Seq<JobModel>) -> Seq<char>
    decreases jobs.len(),
{
    if jobs.len() == 0 {
        Seq::empty()
    } else {
        dot_edges(known, jobs.drop_last()) + dot_edges_into(
            known,
            jobs.last().depends_on,
            jobs.last().name,
        )
    }
}

/// The drawing of jobs and their dependencies, as Graphviz reads it.
pub open spec fn dot(known: Table<JobModel>) -> Seq<char> {
    "digraph pipeline {\n"@ + "  rankdir=LR;\n"@
        + "  node [shape=box, style=filled, fillcolor=lightblue];\n"@ + dot_nodes(known.values())
        + dot_edges(known, known.values()) + "}\n"@
}

/// Whether `hits` tells of each name whether it matches the pattern, as far as
/// the pattern and the name hold no backslash.
pub open spec fn pattern_hits(names: Seq<Seq<char>>, pattern: Seq<char>, hits: Seq<bool>) -> bool {
    &&& hits.len() == names.len()
    &&& forall|i: int|
        0 <= i < hits.len() && pattern::portable(pattern) && pattern::portable(names[i])
            ==> #[trigger] hits[i] == (pattern::glob_match(pattern, names[i]) == Some(true))
}

// ---------------------------------------------------------------------------
// Lemmas

pub(crate) proof fn lemma_node_of(names: Seq<Seq<char>>, name: Seq<char>)
    ensures
        match node_of(names, name) {
            Some(n) => 0 <= n < names.len() && names[n] == name,
            None => !names.contains(name),
        },
    decreases names.len(),
{
    if names.len() > 0 && names.last() != name {
        lemma_node_of(names.drop_last(), name);
        if names.contains(name) {
            let i = names.index_of(name);
            assert(names.drop_last()[i] == name);
        }
    }
}

proof fn lemma_edges_into(names: Seq<Seq<char>>, deps: Seq<Seq<char>>, to: int)
    ensures
        edges_into(names, deps, to).len() <= deps.len(),
        forall|e: int|
            0 <= e < edges_into(names, deps, to).len() ==> {
                let (a, b) = #[trigger] edges_into(names, deps, to)[e];
                0 <= a < names.len() && node_of(names, names[a]) == Some(a) && b == to
            },
    decreases deps.len(),
{
    if deps.len() > 0 {
        lemma_edges_into(names, deps.drop_last(), to);
        lemma_node_of(names, deps.last());
    }
}

proof fn lemma_dep_edges_wf(jobs: Seq<JobModel>, n: int)
    requires
        0 <= n <= jobs.len(),
    ensures
        forall|e: int|
            0 <= e < dep_edges(jobs, n).len() ==> {
                let (a, b) = #[trigger] dep_edges(jobs, n)[e];
                DagModel::of(jobs).stands(a) && DagModel::of(jobs).stands(b)
            },
    decreases n,
{
    if n > 0 {
        let names = job_names(jobs);
        lemma_dep_edges_wf(jobs, n - 1);
        assert(names[n - 1] == jobs[n - 1].name);
        lemma_node_of(names, jobs[n - 1].name);
        let to = node_of(names, jobs[n - 1].name)->0;
        let before = dep_edges(jobs, n - 1);
        let added = edges_into(names, jobs[n - 1].depends_on, to);
        lemma_edges_into(names, jobs[n - 1].depends_on, to);
        let model = DagModel::of(jobs);
        assert(names.contains(names[n - 1]));
        assert(model.stands(to));
        assert forall|e: int| 0 <= e < dep_edges(jobs, n).len() implies ({
            let (a, b) = #[trigger] dep_edges(jobs, n)[e];
            model.stands(a) && model.stands(b)
        }) by {
            if e < before.len() {
                assert(dep_edges(jobs, n)[e] == before[e]);
            } else {
                assert(dep_edges(jobs, n)[e] == added[e - before.len()]);
            }
        }
    }
}

proof fn lemma_dep_edges_grow(jobs: Seq<JobModel>, a: int, b: int)
    requires
        0 <= a <= b <= jobs.len(),
    ensures
        dep_edges(jobs, a).len() <= dep_edges(jobs, b).len(),
    decreases b,
{
    if a < b {
        lemma_dep_edges_grow(jobs, a, b - 1);
    }
}

proof fn lemma_edges_into_grow(names: Seq<Seq<char>>, deps: Seq<Seq<char>>, to: int, n: int)
    requires
        0 <= n <= deps.len(),
    ensures
        edges_into(names, deps.take(n), to).len() <= edges_into(names, deps, to).len(),
    decreases deps.len(),
{
    if n == deps.len() {
        assert(deps.take(n) =~= deps);
    } else {
        lemma_edges_into_grow(names, deps.drop_last(), to, n);
        assert(deps.drop_last().take(n) =~= deps.take(n));
    }
}

proof fn lemma_sources(edges: Seq<(int, int)>, n: int, x: int)
    ensures
        digraph::sources(edges, n).contains(x) <==> edges.contains((x, n)),
    decreases edges.len(),
{
    if edges.len() > 0 {
        let d = edges.drop_last();
        lemma_sources(d, n, x);
        let s = digraph::sources(d, n);
        let l = edges.last();
        if edges.contains((x, n)) {
            let i = edges.index_of((x, n));
            if i < d.len() {
                assert(d[i] == (x, n));
            }
        }
        if d.contains((x, n)) {
            let i = d.index_of((x, n));
            assert(edges[i] == (x, n));
        }
        if l.1 == n {
            let t = seq![l.0] + s;
            if s.contains(x) {
                let i = s.index_of(x);
                assert(t[i + 1] == x);
            }
            assert(t[0] == l.0);
            assert(edges[edges.len() - 1] == l);
            if t.contains(x) {
                let i = t.index_of(x);
                if i > 0 {
                    assert(s[i - 1] == x);
                }
            }
        }
    }
}

proof fn lemma_targets(edges: Seq<(int, int)>, n: int, x: int)
    ensures
        digraph::targets(edges, n).contains(x) <==> edges.contains((n, x)),
    decreases edges.len(),
{
    if edges.len() > 0 {
        let d = edges.drop_last();
        lemma_targets(d, n, x);
        let s = digraph::targets(d, n);
        let l = edges.last();
        if edges.contains((n, x)) {
            let i = edges.index_of((n, x));
            if i < d.len() {
                assert(d[i] == (n, x));
            }
        }
        if d.contains((n, x)) {
            let i = d.index_of((n, x));
            assert(edges[i] == (n, x));
        }
        if l.0 == n {
            let t = seq![l.1] + s;
            if s.contains(x) {
                let i = s.index_of(x);
                assert(t[i + 1] == x);
            }
            assert(t[0] == l.1);
            assert(edges[edges.len() - 1] == l);
            if t.contains(x) {
                let i = t.index_of(x);
                if i > 0 {
                    assert(s[i - 1] == x);
                }
            }
        }
    }
}

/// How many flags are not set.
spec fn unset(flags: Seq<bool>) -> nat
    decreases flags.len(),
{
    if flags.len() == 0 {
        0
    } else {
        unset(flags.drop_last()) + if flags.last() {
            0nat
        } else {
            1nat
        }
    }
}

proof fn lemma_set_one(flags: Seq<bool>, i: int)
    requires
        0 <= i < flags.len(),
        !flags[i],
    ensures
        unset(flags.update(i, true)) + 1 == unset(flags),
    decreases flags.len(),
{
    let f = flags.update(i, true);
    if i < flags.len() - 1 {
        lemma_set_one(flags.drop_last(), i);
        assert(f.drop_last() =~= flags.drop_last().update(i, true));
    } else {
        assert(f.drop_last() =~= flags.drop_last());
    }
}

spec fn on_stack(stack: Seq<usize>, c: int) -> bool {
    exists|k: int| 0 <= k < stack.len() && #[trigger] stack[k] == c
}

impl DagModel {
    /// Everything that is kept leads to a hit.
    spec fn keeps_only_needed(self, hits: Seq<bool>, keep: Seq<bool>) -> bool {
        forall|c: int| 0 <= c < keep.len() && #[trigger] keep[c] ==> self.leads_to_hit(hits, c)
    }

    /// The nodes that stand for the first `n` hits are kept.
    spec fn keeps_hits(self, hits: Seq<bool>, keep: Seq<bool>, n: int) -> bool {
        forall|m: int|
            0 <= m < n && #[trigger] hits[m] ==> {
                let c = node_of(self.names, self.names[m])->0;
                0 <= c < keep.len() && keep[c]
            }
    }

    /// The dependencies of every kept node but `open` and those on the stack
    /// are kept.
    #[verifier::opaque]
    spec fn closed_but(self, keep: Seq<bool>, stack: Seq<usize>, open: int) -> bool {
        forall|x: int, c: int|
            #[trigger] self.edges.contains((x, c)) && 0 <= c < keep.len() && keep[c] && c != open
                && !on_stack(stack, c) ==> 0 <= x < keep.len() && keep[x]
    }

    /// The state of the search: what is kept is needed, all hits are kept, and
    /// what is kept and still to be looked at is on the stack, but for `open`.
    #[verifier::opaque]
    spec fn searching(self, hits: Seq<bool>, keep: Seq<bool>, stack: Seq<usize>, open: int) -> bool {
        &&& keep.len() == hits.len() == self.names.len()
        &&& forall|k: int| 0 <= k < stack.len() ==> #[trigger] stack[k] < keep.len() && keep[stack[k] as int]
        &&& self.keeps_only_needed(hits, keep)
        &&& self.keeps_hits(hits, keep, hits.len() as int)
        &&& self.closed_but(keep, stack, open)
    }

    proof fn lemma_popped(self, hits: Seq<bool>, keep: Seq<bool>, stack: Seq<usize>)
        requires
            stack.len() > 0,
            self.searching(hits, keep, stack, -1),
        ensures
            self.searching(hits, keep, stack.drop_last(), stack.last() as int),
            stack.last() < keep.len(),
            keep[stack.last() as int],
            keep.len() == self.names.len(),
    {
        reveal(DagModel::searching);
        reveal(DagModel::closed_but);
        assert forall|x: int, c: int|
            #[trigger] self.edges.contains((x, c)) && 0 <= c < keep.len() && keep[c] && c
                != stack.last() && !on_stack(stack.drop_last(), c) implies 0 <= x < keep.len() && keep[x] by {
            if on_stack(stack, c) {
                let k = choose|k: int| 0 <= k < stack.len() && #[trigger] stack[k] == c;
                assert(stack.drop_last()[k] == c);
            }
        }
    }

    proof fn lemma_pushed(self, hits: Seq<bool>, keep: Seq<bool>, stack: Seq<usize>, open: int, d: usize)
        requires
            self.searching(hits, keep, stack, open),
            d < keep.len(),
            0 <= open < keep.len(),
            keep[open],
            self.edges.contains((d as int, open)),
        ensures
            self.searching(hits, keep.update(d as int, true), stack.push(d), open),
    {
        reveal(DagModel::searching);
        reveal(DagModel::closed_but);
        let now = stack.push(d);
        let kept = keep.update(d as int, true);
        self.lemma_walk_back(hits, d as int, open);
        assert forall|c: int| 0 <= c < kept.len() && #[trigger] kept[c] implies self.leads_to_hit(
            hits,
            c,
        ) by {
            if c != d {
                assert(keep[c]);
            }
        }
        assert forall|x: int, c: int|
            #[trigger] self.edges.contains((x, c)) && 0 <= c < keep.len() && kept[c] && c != open
                && !on_stack(now, c) implies 0 <= x < keep.len() && kept[x] by {
            assert(now[stack.len() as int] == d);
            if on_stack(stack, c) {
                let k = choose|k: int| 0 <= k < stack.len() && #[trigger] stack[k] == c;
                assert(now[k] == c);
            }
        }
    }

    proof fn lemma_finished(self, hits: Seq<bool>, keep: Seq<bool>, stack: Seq<usize>, cur: int)
        requires
            self.searching(hits, keep, stack, cur),
            forall|x: int|
                #[trigger] self.edges.contains((x, cur)) ==> 0 <= x < keep.len() && keep[x],
        ensures
            self.searching(hits, keep, stack, -1),
    {
        reveal(DagModel::searching);
        reveal(DagModel::closed_but);
    }

    proof fn lemma_started(self, hits: Seq<bool>, keep: Seq<bool>, stack: Seq<usize>)
        requires
            keep.len() == hits.len() == self.names.len(),
            forall|k: int| 0 <= k < stack.len() ==> #[trigger] stack[k] < keep.len() && keep[stack[k] as int],
            self.keeps_only_needed(hits, keep),
            self.keeps_hits(hits, keep, hits.len() as int),
            forall|c: int| 0 <= c < keep.len() && #[trigger] keep[c] ==> on_stack(stack, c),
        ensures
            self.searching(hits, keep, stack, -1),
    {
        reveal(DagModel::searching);
        reveal(DagModel::closed_but);
    }

    proof fn lemma_searched(self, hits: Seq<bool>, keep: Seq<bool>)
        requires
            self.searching(hits, keep, Seq::empty(), -1),
        ensures
            keep.len() == hits.len(),
            forall|c: int|
                0 <= c < keep.len() ==> #[trigger] keep[c] == self.leads_to_hit(hits, c),
    {
        reveal(DagModel::searching);
        assert forall|c: int| 0 <= c < keep.len() implies #[trigger] keep[c] == self.leads_to_hit(
            hits,
            c,
        ) by {
            if self.leads_to_hit(hits, c) {
                let p = choose|p: Seq<int>| #[trigger] self.hit_walk(hits, c, p);
                self.lemma_closed_keeps(hits, keep, p, 0);
            }
        }
    }

    proof fn lemma_walk_back(self, hits: Seq<bool>, x: int, c: int)
        requires
            self.edges.contains((x, c)),
            self.leads_to_hit(hits, c),
        ensures
            self.leads_to_hit(hits, x),
    {
        let p = choose|p: Seq<int>| #[trigger] self.hit_walk(hits, c, p);
        let q = seq![x] + p;
        assert forall|i: int| 0 <= i < q.len() - 1 implies #[trigger] digraph::is_step(
            self.edges,
            q,
            i,
        ) by {
            if i > 0 {
                assert(digraph::is_step(self.edges, p, i - 1));
                assert(q[i] == p[i - 1]);
                assert(q[i + 1] == p[i - 1 + 1]);
            }
        }
        assert(q.last() == p.last());
        assert(self.hit_walk(hits, x, q));
    }

    proof fn lemma_closed_keeps(self, hits: Seq<bool>, keep: Seq<bool>, p: Seq<int>, j: int)
        requires
            hits.len() == self.names.len(),
            self.keeps_hits(hits, keep, hits.len() as int),
            self.closed_but(keep, Seq::empty(), -1),
            p.len() >= 1,
            digraph::is_walk(self.edges, p),
            self.hit(hits, p.last()),
            0 <= j < p.len(),
        ensures
            0 <= p[j] < keep.len(),
            keep[p[j]],
        decreases p.len() - j,
    {
        if j < p.len() - 1 {
            reveal(DagModel::closed_but);
            self.lemma_closed_keeps(hits, keep, p, j + 1);
            assert(digraph::is_step(self.edges, p, j));
        } else {
            let m = choose|m: int|
                0 <= m < hits.len() && #[trigger] hits[m] && node_of(self.names, self.names[m]) == Some(
                    p.last(),
                );
            assert(hits[m]);
        }
    }
}

// ---------------------------------------------------------------------------
// The graph

/// Why jobs could not be put in order.
#[derive(Debug, Clone)]
pub enum DagError {
    /// Some jobs depend on each other in a circle.
    Cycle,
    /// The pattern was refused, with this message.
    Pattern(String),
}

impl DagError {
    /// The text of the error.
    pub fn message(&self) -> (r: String)
        ensures
            r@ == match *self {
                DagError::Cycle => "Cycle detected in DAG"@,
                DagError::Pattern(m) => "Invalid filter pattern: "@ + m@,
            },
    {
        match self {
            DagError::Cycle => "Cycle detected in DAG".to_owned(),
            DagError::Pattern(m) => {
                let mut s = "Invalid filter pattern: ".to_owned();
                append_str(&mut s, m.as_str());
                s
            },
        }
    }
}

/// The jobs of a pipeline with their dependencies.
pub struct Dag {
    graph: DiGraph<String, ()>,
    node_map: StringMap<usize>,
    rev_map: Vec<String>,
    job_map: StringMap<Job>,
}

spec fn nodes_known(node_map: Table<usize>, names: Seq<Seq<char>>) -> bool {
    forall|name: Seq<char>|
        match node_of(names, name) {
            Some(n) => (#[trigger] node_map.get(name)) matches Some(m) && m == n,
            None => node_map.get(name) is None,
        }
}

impl Dag {
    /// What the graph holds. The tables that lead from names to nodes and back
    /// follow from the names of the nodes.
    pub closed spec fn model(self) -> DagModel {
        DagModel {
            names: digraph::graph_nodes(self.graph),
            edges: digraph::graph_edges(self.graph),
            jobs: self.job_map.deep_view(),
        }
    }

    #[verifier::type_invariant]
    spec fn consistent(self) -> bool {
        &&& self.model().wf()
        &&& self.model().names.len() <= u32::MAX
        &&& self.rev_map.deep_view() == self.model().names
        &&& nodes_known(self.node_map.deep_view(), self.model().names)
    }

    /// The graph of the given jobs. It holds at most `u32::MAX` nodes and as
    /// many edges.
    pub fn build(jobs: &[Job]) -> (r: Result<Dag, DagError>)
        requires
            jobs@.len() <= u32::MAX,
            dep_edges(jobs.deep_view(), jobs@.len() as int).len() <= u32::MAX,
        ensures
            r matches Ok(dag) && dag.model() == DagModel::of(jobs.deep_view()) && dag.model().wf(),
    {
        let ghost all = jobs.deep_view();
        let ghost names = job_names(all);
        let mut graph = graph_new();
        let mut node_map: StringMap<usize> = StringMap::new();
        let mut rev_map: Vec<String> = Vec::new();
        let mut job_map: StringMap<Job> = StringMap::new();
        let n: usize = jobs.len();
        let mut i: usize = 0;
        assert(names.take(0) =~= Seq::<Seq<char>>::empty());
        assert(rev_map.deep_view() =~= names.take(0));
        assert(all.take(0) =~= Seq::<JobModel>::empty());
        while i < n
            invariant
                n == jobs@.len() <= u32::MAX,
                i <= n,
                all == jobs.deep_view(),
                names == job_names(all),
                digraph::graph_nodes(graph) == names.take(i as int),
                digraph::graph_edges(graph) == Seq::<(int, int)>::empty(),
                rev_map.deep_view() == names.take(i as int),
                nodes_known(node_map.deep_view(), names.take(i as int)),
                job_map.deep_view() == job_table(all.take(i as int)),
            decreases n - i,
        {
            let job = &jobs[i];
            let ghost before = names.take(i as int);
            assert(names.take(i + 1) =~= before.push(job.name@));
            assert(names.take(i + 1).drop_last() =~= before);
            assert(all.take(i + 1).drop_last() =~= all.take(i as int));
            let ghost known = node_map.deep_view();
            let idx = graph_add_node(&mut graph, job.name.clone());
            node_map.insert(job.name.clone(), idx);
            rev_map.push(job.name.clone());
            job_map.insert(job.name.clone(), job.deep_clone());
            assert(rev_map.deep_view() =~= names.take(i + 1));
            assert(nodes_known(node_map.deep_view(), names.take(i + 1))) by {
                let now = node_map.deep_view();
                assert forall|name: Seq<char>|
                    match node_of(names.take(i + 1), name) {
                        Some(n) => (#[trigger] now.get(name)) matches Some(m) && m == n,
                        None => now.get(name) is None,
                    } by {
                    assert(known.get(name) == known.get(name));
                }
            }
            i = i + 1;
        }
        assert(names.take(n as int) =~= names);
        assert(all.take(n as int) =~= all);
        let mut j: usize = 0;
        while j < n
            invariant
                n == jobs@.len() <= u32::MAX,
                j <= n,
                all == jobs.deep_view(),
                names == job_names(all),
                dep_edges(all, n as int).len() <= u32::MAX,
                digraph::graph_nodes(graph) == names,
                digraph::graph_edges(graph) == dep_edges(all, j as int),
                nodes_known(node_map.deep_view(), names),
            decreases n - j,
        {
            let job = &jobs[j];
            assert(names[j as int] == job.name@);
            proof {
                lemma_node_of(names, job.name@);
                assert(node_map.deep_view().get(job.name@) == node_map.deep_view().get(job.name@));
            }
            let ghost to = node_of(names, job.name@)->0;
            let ghost deps = job.depends_on.deep_view();
            let ghost base = dep_edges(all, j as int);
            match node_map.get(job.name.as_str()) {
                Some(to_idx) => {
                    let m: usize = job.depends_on.len();
                    let mut k: usize = 0;
                    assert(deps.take(0) =~= Seq::<Seq<char>>::empty());
                    assert(base + edges_into(names, deps.take(0), to) =~= base);
                    while k < m
                        invariant
                            n == jobs@.len() <= u32::MAX,
                            j < n,
                            all == jobs.deep_view(),
                            names == job_names(all),
                            *job == jobs@[j as int],
                            m == job.depends_on@.len(),
                            k <= m,
                            deps == job.depends_on.deep_view(),
                            node_of(names, job.name@) == Some(to),
                            *to_idx == to,
                            0 <= to < names.len(),
                            base == dep_edges(all, j as int),
                            dep_edges(all, n as int).len() <= u32::MAX,
                            digraph::graph_nodes(graph) == names,
                            digraph::graph_edges(graph) == base + edges_into(names, deps.take(k as int), to),
                            nodes_known(node_map.deep_view(), names),
                        decreases m - k,
                    {
                        let dep = &job.depends_on[k];
                        proof {
                            assert(deps[k as int] == dep@);
                            assert(deps.take(k + 1).drop_last() =~= deps.take(k as int));
                            assert(deps.take(k + 1).last() == dep@);
                            lemma_node_of(names, dep@);
                            lemma_edges_into_grow(names, deps, to, k + 1);
                            lemma_dep_edges_grow(all, j + 1, n as int);
                            assert(node_map.deep_view().get(dep@) == node_map.deep_view().get(dep@));
                        }
                        if let Some(from_idx) = node_map.get(dep.as_str()) {
                            let ghost e = edges_into(names, deps.take(k as int), to);
                            graph_add_edge(&mut graph, *from_idx, *to_idx);
                            assert(base + e.push((*from_idx as int, to)) =~= (base + e).push(
                                (*from_idx as int, to),
                            ));
                        }
                        k = k + 1;
                    }
                    assert(deps.take(m as int) =~= deps);
                },
                None => {},
            }
            j = j + 1;
        }
        proof {
            lemma_dep_edges_wf(all, n as int);
        }
        Ok(Dag { graph, node_map, rev_map, job_map })
    }

    /// The job of the given name.
    pub fn job(&self, name: &str) -> (r: Option<&Job>)
        ensures
            match r {
                Some(job) => self.model().jobs.get(name@) == Some(job.deep_view()),
                None => self.model().jobs.get(name@) is None,
            },
    {
        self.job_map.get(name)
    }

    fn labels(&self, nodes: &Vec<usize>) -> (r: Vec<String>)
        requires
            forall|i: int| 0 <= i < nodes@.len() ==> #[trigger] nodes@[i] < self.model().names.len(),
        ensures
            r.deep_view() == self.model().label(digraph::ints(nodes@)),
    {
        proof {
            use_type_invariant(self);
        }
        let mut out: Vec<String> = Vec::new();
        let mut i: usize = 0;
        while i < nodes.len()
            invariant
                self.rev_map.deep_view() == self.model().names,
                forall|k: int| 0 <= k < nodes@.len() ==> #[trigger] nodes@[k] < self.model().names.len(),
                i <= nodes@.len(),
                out@.len() == i,
                forall|k: int| 0 <= k < i ==> (#[trigger] out@[k])@ == self.model().names[nodes@[k] as int],
            decreases nodes@.len() - i,
        {
            assert(self.rev_map.deep_view()[nodes@[i as int] as int] == self.rev_map@[nodes@[i as int] as int]@);
            out.push(self.rev_map[nodes[i]].clone());
            i = i + 1;
        }
        assert(out.deep_view() =~= self.model().label(digraph::ints(nodes@)));
        out
    }

    /// The names of the jobs in an order in which they can run, unless some
    /// depend on each other in a circle.
    pub fn topological_order(&self) -> (r: Result<Vec<String>, DagError>)
        ensures
            match r {
                Ok(order) => {
                    &&& !self.model().cyclic()
                    &&& order.deep_view() == self.model().order()
                    &&& digraph::is_topological(
                        self.model().node_order(),
                        self.model().names.len(),
                        self.model().edges,
                    )
                },
                Err(e) => self.model().cyclic() && e is Cycle,
            },
    {
        match graph_toposort(&self.graph) {
            Some(order) => {
                proof {
                    let ids = digraph::ints(order@);
                    assert forall|i: int| 0 <= i < order@.len() implies #[trigger] order@[i]
                        < self.model().names.len() by {
                        assert(ids[i] == order@[i]);
                    }
                }
                Ok(self.labels(&order))
            },
            None => Err(DagError::Cycle),
        }
    }

    fn neighbours(&self, job_name: &str, incoming: bool) -> (r: Vec<String>)
        ensures
            r.deep_view() == (if incoming {
                self.model().deps(job_name@)
            } else {
                self.model().dependents(job_name@)
            }),
    {
        proof {
            use_type_invariant(self);
            lemma_node_of(self.model().names, job_name@);
            assert(self.node_map.deep_view().get(job_name@) == self.node_map.deep_view().get(job_name@));
        }
        match self.node_map.get(job_name) {
            Some(idx) => {
                let nodes = graph_neighbors(&self.graph, *idx, incoming);
                proof {
                    let ids = digraph::ints(nodes@);
                    let edges = self.model().edges;
                    assert forall|i: int| 0 <= i < nodes@.len() implies #[trigger] nodes@[i]
                        < self.model().names.len() by {
                        assert(ids[i] == nodes@[i]);
                        assert(ids.contains(ids[i]));
                        if incoming {
                            lemma_sources(edges, *idx as int, ids[i]);
                            let e = edges.index_of((ids[i], *idx as int));
                            assert(edges[e] == (ids[i], *idx as int));
                            assert(self.model().stands(ids[i]));
                        } else {
                            lemma_targets(edges, *idx as int, ids[i]);
                            let e = edges.index_of((*idx as int, ids[i]));
                            assert(edges[e] == (*idx as int, ids[i]));
                            assert(self.model().stands(ids[i]));
                        }
                    }
                }
                self.labels(&nodes)
            },
            None => {
                let out: Vec<String> = Vec::new();
                assert(out.deep_view() =~= Seq::<Seq<char>>::empty());
                out
            },
        }
    }

    /// The names of the jobs on which a job depends; none for an unknown job.
    pub fn dependencies_of(&self, job_name: &str) -> (r: Vec<String>)
        ensures
            r.deep_view() == self.model().deps(job_name@),
    {
        self.neighbours(job_name, true)
    }

    /// The names of the jobs that depend on a job; none for an unknown job.
    pub fn dependents_of(&self, job_name: &str) -> (r: Vec<String>)
        ensures
            r.deep_view() == self.model().dependents(job_name@),
    {
        self.neighbours(job_name, false)
    }

    /// Whether every dependency of a job has succeeded or was skipped.
    pub fn has_dependencies_met(&self, job_name: &str, completed: &StringMap<JobStatus>) -> (r: bool)
        ensures
            r == all_pass(self.model().deps(job_name@), completed.deep_view()),
    {
        let deps = self.dependencies_of(job_name);
        let ghost names = deps.deep_view();
        let mut i: usize = 0;
        while i < deps.len()
            invariant
                names == deps.deep_view(),
                names == self.model().deps(job_name@),
                i <= deps@.len(),
                forall|k: int|
                    0 <= k < i ==> (completed.deep_view().get(#[trigger] names[k]) matches Some(s)
                        && lets_pass(s)),
            decreases deps@.len() - i,
        {
            assert(names[i as int] == deps@[i as int]@);
            match completed.get(deps[i].as_str()) {
                Some(JobStatus::Success) => {},
                Some(JobStatus::Skipped) => {},
                _ => {
                    return false;
                },
            }
            i = i + 1;
        }
        true
    }

    /// Whether every dependency of a job has succeeded.
    pub fn all_deps_success(&self, job_name: &str, completed: &StringMap<JobStatus>) -> (r: bool)
        ensures
            r == all_succeeded(self.model().deps(job_name@), completed.deep_view()),
    {
        let deps = self.dependencies_of(job_name);
        let ghost names = deps.deep_view();
        let mut i: usize = 0;
        while i < deps.len()
            invariant
                names == deps.deep_view(),
                names == self.model().deps(job_name@),
                i <= deps@.len(),
                forall|k: int|
                    0 <= k < i ==> completed.deep_view().get(#[trigger] names[k]) == Some(
                        JobStatus::Success,
                    ),
            decreases deps@.len() - i,
        {
            assert(names[i as int] == deps@[i as int]@);
            match completed.get(deps[i].as_str()) {
                Some(JobStatus::Success) => {},
                _ => {
                    return false;
                },
            }
            i = i + 1;
        }
        true
    }

    /// Whether some dependency of a job has failed or was cancelled.
    pub fn any_dep_failed(&self, job_name: &str, completed: &StringMap<JobStatus>) -> (r: bool)
        ensures
            r == some_broke(self.model().deps(job_name@), completed.deep_view()),
    {
        let deps = self.dependencies_of(job_name);
        let ghost names = deps.deep_view();
        let mut i: usize = 0;
        while i < deps.len()
            invariant
                names == deps.deep_view(),
                names == self.model().deps(job_name@),
                i <= deps@.len(),
                forall|k: int|
                    0 <= k < i ==> !(completed.deep_view().get(#[trigger] names[k]) == Some(
                        JobStatus::Failed,
                    ) || completed.deep_view().get(names[k]) == Some(JobStatus::Cancelled)),
            decreases deps@.len() - i,
        {
            assert(names[i as int] == deps@[i as int]@);
            match completed.get(deps[i].as_str()) {
                Some(JobStatus::Failed) => {
                    return true;
                },
                Some(JobStatus::Cancelled) => {
                    return true;
                },
                _ => {},
            }
            i = i + 1;
        }
        false
    }

    fn standing_for(&self, m: usize) -> (r: usize)
        requires
            m < self.model().names.len(),
        ensures
            node_of(self.model().names, self.model().names[m as int]) == Some(r as int),
            r < self.model().names.len(),
    {
        proof {
            use_type_invariant(self);
            let names = self.model().names;
            lemma_node_of(names, names[m as int]);
            assert(names.contains(names[m as int]));
            assert(self.rev_map.deep_view()[m as int] == self.rev_map@[m as int]@);
            assert(self.node_map.deep_view().get(names[m as int]) == self.node_map.deep_view().get(
                names[m as int],
            ));
        }
        match self.node_map.get(self.rev_map[m].as_str()) {
            Some(c) => *c,
            None => m,
        }
    }

    fn needed_flags(&self, hits: &Vec<bool>) -> (keep: Vec<bool>)
        requires
            hits@.len() == self.model().names.len(),
        ensures
            keep@.len() == hits@.len(),
            forall|c: int|
                0 <= c < keep@.len() ==> #[trigger] keep@[c] == self.model().leads_to_hit(hits@, c),
    {
        proof {
            use_type_invariant(self);
        }
        let ghost model = self.model();
        let n: usize = hits.len();
        let mut keep: Vec<bool> = Vec::new();
        let mut i: usize = 0;
        while i < n
            invariant
                i <= n,
                keep@.len() == i,
                forall|c: int| 0 <= c < i ==> !#[trigger] keep@[c],
            decreases n - i,
        {
            keep.push(false);
            i = i + 1;
        }
        let mut stack: Vec<usize> = Vec::new();
        let mut m: usize = 0;
        while m < n
            invariant
                model == self.model(),
                n == hits@.len() == model.names.len(),
                m <= n,
                keep@.len() == n,
                forall|c: int| 0 <= c < n && #[trigger] keep@[c] ==> on_stack(stack@, c),
                forall|k: int| 0 <= k < stack@.len() ==> #[trigger] stack@[k] < n && keep@[stack@[k] as int],
                model.keeps_only_needed(hits@, keep@),
                model.keeps_hits(hits@, keep@, m as int),
            decreases n - m,
        {
            if hits[m] {
                let c = self.standing_for(m);
                proof {
                    assert(model.hit(hits@, c as int)) by {
                        assert(hits@[m as int]);
                    }
                    assert(model.hit_walk(hits@, c as int, seq![c as int]));
                }
                if !keep[c] {
                    let ghost before = stack@;
                    keep.set(c, true);
                    stack.push(c);
                    assert(stack@[before.len() as int] == c);
                    assert forall|d: int| 0 <= d < n && #[trigger] keep@[d] implies on_stack(
                        stack@,
                        d,
                    ) by {
                        if d != c {
                            let k = choose|k: int| 0 <= k < before.len() && #[trigger] before[k] == d;
                            assert(stack@[k] == d);
                        }
                    }
                }
            }
            m = m + 1;
        }
        proof {
            model.lemma_started(hits@, keep@, stack@);
        }
        while stack.len() > 0
            invariant
                model == self.model(),
                model.wf(),
                model.names.len() <= u32::MAX,
                keep@.len() == model.names.len(),
                model.searching(hits@, keep@, stack@, -1),
            decreases unset(keep@), stack@.len(),
        {
            let ghost before = stack@;
            let ghost kept_before = keep@;
            let cur: usize = match stack.pop() {
                Some(c) => c,
                None => 0,
            };
            assert(stack@ =~= before.drop_last());
            let ghost popped = stack@;
            proof {
                model.lemma_popped(hits@, keep@, before);
            }
            let deps = graph_neighbors(&self.graph, cur, true);
            let ghost ids = digraph::ints(deps@);
            let mut k: usize = 0;
            while k < deps.len()
                invariant
                    model == self.model(),
                    model.wf(),
                    keep@.len() == model.names.len(),
                    cur < keep@.len(),
                    keep@[cur as int],
                    k <= deps@.len(),
                    ids == digraph::ints(deps@),
                    ids == digraph::sources(model.edges, cur as int),
                    model.searching(hits@, keep@, stack@, cur as int),
                    forall|j: int| 0 <= j < k ==> 0 <= #[trigger] ids[j] < keep@.len() && keep@[ids[j]],
                    unset(keep@) <= unset(kept_before),
                    unset(keep@) == unset(kept_before) ==> stack@ == popped,
                decreases deps@.len() - k,
            {
                let dep = deps[k];
                proof {
                    assert(ids[k as int] == dep);
                    assert(ids.contains(dep as int));
                    lemma_sources(model.edges, cur as int, dep as int);
                    let e = model.edges.index_of((dep as int, cur as int));
                    assert(model.edges[e] == (dep as int, cur as int));
                    assert(model.stands(dep as int));
                }
                if !keep[dep] {
                    proof {
                        lemma_set_one(keep@, dep as int);
                        model.lemma_pushed(hits@, keep@, stack@, cur as int, dep);
                    }
                    keep.set(dep, true);
                    stack.push(dep);
                }
                k = k + 1;
            }
            proof {
                assert forall|x: int| #[trigger] model.edges.contains((x, cur as int)) implies 0 <= x
                    < keep@.len() && keep@[x] by {
                    lemma_sources(model.edges, cur as int, x);
                    let j = ids.index_of(x);
                    assert(ids[j] == x);
                }
                model.lemma_finished(hits@, keep@, stack@, cur as int);
            }
        }
        proof {
            assert(stack@ =~= Seq::<usize>::empty());
            model.lemma_searched(hits@, keep@);
        }
        keep
    }

    /// The jobs that were hit and all that they need, in an order in which
    /// they can run; `hits` tells of each node whether its job was hit.
    pub fn keep_needed(&self, hits: &Vec<bool>) -> (r: Result<Vec<String>, DagError>)
        requires
            hits@.len() == self.model().names.len(),
        ensures
            match r {
                Ok(names) => !self.model().cyclic() && names.deep_view() == self.model().kept(hits@),
                Err(e) => self.model().cyclic() && e is Cycle,
            },
    {
        let ghost model = self.model();
        match graph_toposort(&self.graph) {
            Some(order) => {
                let keep = self.needed_flags(hits);
                let ghost ids = digraph::ints(order@);
                let ghost pred = model.needed_nodes(hits@);
                let mut nodes: Vec<usize> = Vec::new();
                let mut i: usize = 0;
                assert(ids.take(0) =~= Seq::<int>::empty());
                assert(digraph::ints(nodes@) =~= ids.take(0).filter(pred)) by {
                    reveal(Seq::filter);
                }
                while i < order.len()
                    invariant
                        model == self.model(),
                        ids == digraph::ints(order@),
                        pred == model.needed_nodes(hits@),
                        i <= order@.len(),
                        keep@.len() == hits@.len() == model.names.len(),
                        forall|c: int|
                            0 <= c < keep@.len() ==> #[trigger] keep@[c] == model.leads_to_hit(hits@, c),
                        forall|k: int| 0 <= k < ids.len() ==> 0 <= #[trigger] ids[k] < model.names.len(),
                        digraph::ints(nodes@) == ids.take(i as int).filter(pred),
                        forall|k: int| 0 <= k < nodes@.len() ==> #[trigger] nodes@[k] < model.names.len(),
                    decreases order@.len() - i,
                {
                    let node = order[i];
                    assert(ids[i as int] == node);
                    let c = self.standing_for(node);
                    assert(ids.take(i + 1).drop_last() =~= ids.take(i as int));
                    assert(pred(node as int) == keep@[c as int]);
                    let ghost before = nodes@;
                    if keep[c] {
                        nodes.push(node);
                        assert(digraph::ints(nodes@) =~= digraph::ints(before).push(node as int));
                    }
                    assert(digraph::ints(nodes@) == ids.take(i + 1).filter(pred)) by {
                        reveal(Seq::filter);
                    }
                    i = i + 1;
                }
                assert(ids.take(order@.len() as int) =~= ids);
                Ok(self.labels(&nodes))
            },
            None => Err(DagError::Cycle),
        }
    }

    fn matching(&self, pattern: &str) -> (hits: Vec<bool>)
        ensures
            pattern_hits(self.model().names, pattern@, hits@),
    {
        proof {
            use_type_invariant(self);
        }
        let ghost names = self.model().names;
        let mut hits: Vec<bool> = Vec::new();
        let mut i: usize = 0;
        while i < self.rev_map.len()
            invariant
                names == self.rev_map.deep_view(),
                i <= self.rev_map@.len(),
                hits@.len() == i,
                forall|k: int|
                    0 <= k < i && pattern::portable(pattern@) && pattern::portable(names[k])
                        ==> #[trigger] hits@[k] == (pattern::glob_match(pattern@, names[k]) == Some(true)),
            decreases self.rev_map@.len() - i,
        {
            assert(names[i as int] == self.rev_map@[i as int]@);
            let hit = match glob_matches(pattern, self.rev_map[i].as_str()) {
                Some(b) => b,
                None => false,
            };
            hits.push(hit);
            i = i + 1;
        }
        hits
    }

    /// The jobs whose names match the pattern and all that they need, in an
    /// order in which they can run.
    pub fn filter_by_pattern(&self, pattern: &str) -> (r: Result<Vec<String>, DagError>)
        ensures
            match r {
                Ok(names) => {
                    &&& pattern::portable(pattern@) ==> pattern::glob_error(pattern@) is None
                    &&& !self.model().cyclic()
                    &&& exists|hits: Seq<bool>| #[trigger]
                        pattern_hits(self.model().names, pattern@, hits) && names.deep_view()
                            == self.model().kept(hits)
                },
                Err(DagError::Cycle) => {
                    &&& pattern::portable(pattern@) ==> pattern::glob_error(pattern@) is None
                    &&& self.model().cyclic()
                },
                Err(DagError::Pattern(m)) => pattern::portable(pattern@) ==> pattern::glob_error(
                    pattern@,
                ) == Some(m@),
            },
    {
        match glob_check(pattern) {
            Some(m) => Err(DagError::Pattern(m)),
            None => {
                let hits = self.matching(pattern);
                self.keep_needed(&hits)
            },
        }
    }

    /// The drawing of the jobs and their dependencies, as Graphviz reads it.
    pub fn as_dot(&self) -> (r: String)
        ensures
            r@ == dot(self.model().jobs),
    {
        let ghost known = self.model().jobs;
        let ghost jobs = known.values();
        let mut s = "digraph pipeline {\n".to_owned();
        append_str(&mut s, "  rankdir=LR;\n");
        append_str(&mut s, "  node [shape=box, style=filled, fillcolor=lightblue];\n");
        let ghost head = s@;
        let n: usize = self.job_map.len();
        let mut i: usize = 0;
        assert(jobs.take(0) =~= Seq::<JobModel>::empty());
        assert(head + dot_nodes(jobs.take(0)) =~= head);
        while i < n
            invariant
                known == self.job_map.deep_view(),
                jobs == known.values(),
                n == jobs.len(),
                i <= n,
                s@ == head + dot_nodes(jobs.take(i as int)),
            decreases n - i,
        {
            let job = self.job_map.value_at(i);
            assert(jobs[i as int] == job.deep_view());
            let a = replace_str(job.name.as_str(), '/', "_");
            let safe = replace_str(a.as_str(), '-', "_");
            let label = replace_str(job.name.as_str(), '"', "\\\"");
            append_str(&mut s, "  \"");
            append_str(&mut s, safe.as_str());
            append_str(&mut s, "\" [label=\"");
            append_str(&mut s, label.as_str());
            append_str(&mut s, "\"];\n");
            assert(jobs.take(i + 1).drop_last() =~= jobs.take(i as int));
            assert(s@ =~= head + dot_nodes(jobs.take(i + 1)));
            i = i + 1;
        }
        assert(jobs.take(n as int) =~= jobs);
        let ghost head2 = s@;
        let mut j: usize = 0;
        assert(head2 + dot_edges(known, jobs.take(0)) =~= head2);
        while j < n
            invariant
                known == self.job_map.deep_view(),
                jobs == known.values(),
                n == jobs.len(),
                j <= n,
                s@ == head2 + dot_edges(known, jobs.take(j as int)),
            decreases n - j,
        {
            let ghost before = s@;
            let job = self.job_map.value_at(j);
            assert(jobs[j as int] == job.deep_view());
            let a = replace_str(job.name.as_str(), '/', "_");
            let to = replace_str(a.as_str(), '-', "_");
            let ghost deps = job.depends_on.deep_view();
            let m: usize = job.depends_on.len();
            let mut k: usize = 0;
            assert(deps.take(0) =~= Seq::<Seq<char>>::empty());
            assert(before + dot_edges_into(known, deps.take(0), job.name@) =~= before);
            while k < m
                invariant
                    known == self.job_map.deep_view(),
                    deps == job.depends_on.deep_view(),
                    m == deps.len(),
                    k <= m,
                    to@ == dot_name(job.name@),
                    s@ == before + dot_edges_into(known, deps.take(k as int), job.name@),
                decreases m - k,
            {
                let dep = &job.depends_on[k];
                assert(deps.take(k + 1).drop_last() =~= deps.take(k as int));
                assert(deps.take(k + 1).last() == dep@);
                if let Some(dep_job) = self.job_map.get(dep.as_str()) {
                    let b = replace_str(dep_job.name.as_str(), '/', "_");
                    let from = replace_str(b.as_str(), '-', "_");
                    append_str(&mut s, "  \"");
                    append_str(&mut s, from.as_str());
                    append_str(&mut s, "\" -> \"");
                    append_str(&mut s, to.as_str());
                    append_str(&mut s, "\";\n");
                    assert(s@ =~= before + dot_edges_into(known, deps.take(k + 1), job.name@));
                }
                k = k + 1;
            }
            assert(deps.take(m as int) =~= deps);
            assert(jobs.take(j + 1).drop_last() =~= jobs.take(j as int));
            assert(s@ =~= head2 + dot_edges(known, jobs.take(j + 1)));
            j = j + 1;
        }
        append_str(&mut s, "}\n");
        s
    }
}

// ---------------------------------------------------------------------------
// Laws

/// A job with a failed or cancelled dependency never has its dependencies met.
pub proof fn lemma_broken_dependency_holds(deps: Seq<Seq<char>>, done: Table<JobStatus>)
    requires
        some_broke(deps, done),
    ensures
        !all_pass(deps, done),
{
    let i = choose|i: int|
        0 <= i < deps.len() && (done.get(#[trigger] deps[i]) == Some(JobStatus::Failed) || done.get(
            deps[i],
        ) == Some(JobStatus::Cancelled));
    assert(!(done.get(deps[i]) matches Some(s) && lets_pass(s)));
}

/// A job all of whose dependencies have succeeded has its dependencies met.
pub proof fn lemma_success_is_enough(deps: Seq<Seq<char>>, done: Table<JobStatus>)
    requires
        all_succeeded(deps, done),
    ensures
        all_pass(deps, done),
        !some_broke(deps, done),
{
    assert forall|i: int| 0 <= i < deps.len() implies (done.get(#[trigger] deps[i]) matches Some(s)
        && lets_pass(s)) by {
        assert(done.get(deps[i]) == Some(JobStatus::Success));
    }
    if some_broke(deps, done) {
        lemma_broken_dependency_holds(deps, done);
    }
}

proof fn lemma_edges_into_contains(names: Seq<Seq<char>>, deps: Seq<Seq<char>>, to: int, a: int, b: int)
    ensures
        edges_into(names, deps, to).contains((a, b)) <==> b == to && exists|k: int|
            0 <= k < deps.len() && node_of(names, #[trigger] deps[k]) == Some(a),
    decreases deps.len(),
{
    let e = edges_into(names, deps, to);
    if deps.len() > 0 {
        let d = deps.drop_last();
        let before = edges_into(names, d, to);
        lemma_edges_into_contains(names, d, to, a, b);
        if before.contains((a, b)) {
            let i = before.index_of((a, b));
            assert(e[i] == (a, b));
            let k = choose|k: int| 0 <= k < d.len() && node_of(names, #[trigger] d[k]) == Some(a);
            assert(deps[k] == d[k]);
        }
        if node_of(names, deps.last()) is Some {
            assert(e.last() == (node_of(names, deps.last())->0, to));
            assert(e[e.len() - 1] == e.last());
        }
        if e.contains((a, b)) && !before.contains((a, b)) {
            let i = e.index_of((a, b));
            if i < before.len() {
                assert(before[i] == (a, b));
            }
            assert(node_of(names, deps[deps.len() - 1]) == Some(a));
        }
        if b == to && exists|k: int| 0 <= k < deps.len() && node_of(names, #[trigger] deps[k]) == Some(a) {
            let k = choose|k: int| 0 <= k < deps.len() && node_of(names, #[trigger] deps[k]) == Some(a);
            if k < d.len() {
                assert(node_of(names, d[k]) == Some(a));
            }
        }
    }
}

proof fn lemma_dep_edges_contains(jobs: Seq<JobModel>, n: int, a: int, b: int)
    requires
        0 <= n <= jobs.len(),
    ensures
        dep_edges(jobs, n).contains((a, b)) <==> exists|j: int|
            0 <= j < n && node_of(job_names(jobs), (#[trigger] jobs[j]).name) == Some(b)
                && edges_into(job_names(jobs), jobs[j].depends_on, b).contains((a, b)),
    decreases n,
{
    if n > 0 {
        let names = job_names(jobs);
        let before = dep_edges(jobs, n - 1);
        let job = jobs[n - 1];
        assert(names[n - 1] == job.name);
        lemma_node_of(names, job.name);
        assert(names.contains(names[n - 1]));
        let to = node_of(names, job.name)->0;
        let added = edges_into(names, job.depends_on, to);
        let e = dep_edges(jobs, n);
        lemma_dep_edges_contains(jobs, n - 1, a, b);
        lemma_edges_into_contains(names, job.depends_on, to, a, b);
        if before.contains((a, b)) {
            let i = before.index_of((a, b));
            assert(e[i] == (a, b));
        }
        if added.contains((a, b)) {
            let i = added.index_of((a, b));
            assert(e[before.len() + i] == (a, b));
        }
        if e.contains((a, b)) {
            let i = e.index_of((a, b));
            if i < before.len() {
                assert(before[i] == (a, b));
                let j = choose|j: int|
                    0 <= j < n - 1 && node_of(names, (#[trigger] jobs[j]).name) == Some(b) && edges_into(
                        names,
                        jobs[j].depends_on,
                        b,
                    ).contains((a, b));
                assert(0 <= j < n);
            } else {
                assert(added[i - before.len()] == (a, b));
                assert(node_of(names, jobs[n - 1].name) == Some(b));
            }
        }
    } else {
        assert(!dep_edges(jobs, n).contains((a, b)));
    }
}

/// Among jobs with different names, the dependencies of a job in the graph are
/// those that it declares and that exist.
pub proof fn lemma_deps_are_declared(jobs: Seq<JobModel>, i: int, dep: Seq<char>)
    requires
        job_names(jobs).no_duplicates(),
        0 <= i < jobs.len(),
    ensures
        DagModel::of(jobs).deps(jobs[i].name).contains(dep) <==> jobs[i].depends_on.contains(dep)
            && job_names(jobs).contains(dep),
{
    let model = DagModel::of(jobs);
    let names = job_names(jobs);
    let job = jobs[i];
    assert(names[i] == job.name);
    lemma_node_of(names, job.name);
    assert(names.contains(names[i]));
    assert(node_of(names, job.name) == Some(i));
    let from = digraph::sources(model.edges, i);
    let deps = model.label(from);
    lemma_dep_edges_wf(jobs, jobs.len() as int);
    if deps.contains(dep) {
        let k = deps.index_of(dep);
        let a = from[k];
        assert(from.contains(a));
        lemma_sources(model.edges, i, a);
        let e = model.edges.index_of((a, i));
        assert(model.edges[e] == (a, i));
        assert(model.stands(a));
        lemma_dep_edges_contains(jobs, jobs.len() as int, a, i);
        let j = choose|j: int|
            0 <= j < jobs.len() && node_of(names, (#[trigger] jobs[j]).name) == Some(i) && edges_into(
                names,
                jobs[j].depends_on,
                i,
            ).contains((a, i));
        lemma_node_of(names, jobs[j].name);
        assert(names[j] == jobs[j].name);
        assert(j == i);
        lemma_edges_into_contains(names, job.depends_on, i, a, i);
        let m = choose|m: int|
            0 <= m < job.depends_on.len() && node_of(names, #[trigger] job.depends_on[m]) == Some(a);
        lemma_node_of(names, job.depends_on[m]);
        assert(names[a] == job.depends_on[m]);
        assert(dep == names[a]);
        assert(job.depends_on.contains(job.depends_on[m]));
        assert(names.contains(names[a]));
    }
    if job.depends_on.contains(dep) && names.contains(dep) {
        let m = job.depends_on.index_of(dep);
        lemma_node_of(names, dep);
        let a = node_of(names, dep)->0;
        assert(node_of(names, job.depends_on[m]) == Some(a));
        lemma_edges_into_contains(names, job.depends_on, i, a, i);
        lemma_dep_edges_contains(jobs, jobs.len() as int, a, i);
        assert(node_of(names, jobs[i].name) == Some(i));
        lemma_sources(model.edges, i, a);
        let k = from.index_of(a);
        assert(deps[k] == dep);
    }
}

/// A job depends on another exactly if the other has it among its dependents.
pub proof fn lemma_dependents_mirror(model: DagModel, a: Seq<char>, b: Seq<char>)
    requires
        model.wf(),
    ensures
        model.deps(b).contains(a) <==> model.dependents(a).contains(b),
{
    lemma_node_of(model.names, a);
    lemma_node_of(model.names, b);
    if model.deps(b).contains(a) {
        let n = node_of(model.names, b)->0;
        let from = digraph::sources(model.edges, n);
        let k = model.deps(b).index_of(a);
        let m = from[k];
        assert(from.contains(m));
        lemma_sources(model.edges, n, m);
        let e = model.edges.index_of((m, n));
        assert(model.edges[e] == (m, n));
        assert(model.stands(m) && model.stands(n));
        assert(model.names.contains(a));
        lemma_targets(model.edges, m, n);
        let to = digraph::targets(model.edges, m);
        let j = to.index_of(n);
        assert(model.dependents(a)[j] == b);
    }
    if model.dependents(a).contains(b) {
        let m = node_of(model.names, a)->0;
        let to = digraph::targets(model.edges, m);
        let k = model.dependents(a).index_of(b);
        let n = to[k];
        assert(to.contains(n));
        lemma_targets(model.edges, m, n);
        let e = model.edges.index_of((m, n));
        assert(model.edges[e] == (m, n));
        assert(model.stands(m) && model.stands(n));
        assert(model.names.contains(b));
        lemma_sources(model.edges, n, m);
        let from = digraph::sources(model.edges, n);
        let j = from.index_of(m);
        assert(model.deps(b)[j] == a);
    }
}

/// Among jobs with different names, every job comes behind all on which it
/// depends.
pub proof fn lemma_order_respects_deps(model: DagModel, i: int, j: int)
    requires
        model.wf(),
        model.names.no_duplicates(),
        digraph::is_topological(model.node_order(), model.names.len(), model.edges),
        0 <= i < model.order().len(),
        0 <= j < model.order().len(),
        model.deps(model.order()[j]).contains(model.order()[i]),
    ensures
        i < j,
{
    let order = model.node_order();
    let b = order[j];
    let name = model.names[b];
    lemma_node_of(model.names, name);
    assert(model.names.contains(name));
    assert(node_of(model.names, name) == Some(b));
    let from = digraph::sources(model.edges, b);
    let k = model.deps(name).index_of(model.names[order[i]]);
    let a = from[k];
    assert(from.contains(a));
    lemma_sources(model.edges, b, a);
    let e = model.edges.index_of((a, b));
    assert(model.edges[e] == (a, b));
    assert(model.stands(a));
    assert(model.names[a] == model.names[order[i]]);
    assert(a == order[i]);
    assert(model.edges[e] == (order[i], order[j]));
}

proof fn lemma_all_listed(order: Seq<int>, n: nat, x: int)
    requires
        order.len() == n,
        order.no_duplicates(),
        forall|i: int| 0 <= i < order.len() ==> 0 <= #[trigger] order[i] < n,
        0 <= x < n,
    ensures
        order.contains(x),
{
    let all = vstd::set_lib::set_int_range(0, n as int);
    vstd::set_lib::lemma_int_range(0, n as int);
    order.unique_seq_to_set();
    assert(order.to_set().subset_of(all)) by {
        assert forall|v: int| order.to_set().contains(v) implies #[trigger] all.contains(v) by {
            let i = order.index_of(v);
            assert(order[i] == v);
        }
    }
    vstd::set_lib::lemma_subset_equality(order.to_set(), all);
    assert(order.to_set().contains(x));
}

/// The order holds as many names as there are jobs, and exactly theirs.
pub proof fn lemma_order_lists_jobs(model: DagModel, name: Seq<char>)
    requires
        digraph::is_topological(model.node_order(), model.names.len(), model.edges),
    ensures
        model.order().len() == model.names.len(),
        model.order().contains(name) <==> model.names.contains(name),
{
    let order = model.node_order();
    if model.order().contains(name) {
        let i = model.order().index_of(name);
        assert(model.names[order[i]] == name);
    }
    if model.names.contains(name) {
        let x = model.names.index_of(name);
        lemma_all_listed(order, model.names.len(), x);
        let i = order.index_of(x);
        assert(model.order()[i] == name);
    }
}

proof fn lemma_filter_keeps(order: Seq<int>, pred: spec_fn(int) -> bool, x: int)
    ensures
        order.filter(pred).contains(x) <==> order.contains(x) && pred(x),
{
    order.filter_lemma(pred);
    if order.contains(x) && pred(x) {
        let i = order.index_of(x);
        assert(order.filter(pred).contains(order[i]));
    }
    if order.filter(pred).contains(x) {
        let i = order.filter(pred).index_of(x);
        assert(pred(order.filter(pred)[i]));
        order.lemma_filter_contains_rev(pred, x);
    }
}

/// Selecting jobs keeps every job that was hit, and with every job that it
/// keeps all on which that depends.
pub proof fn lemma_kept_is_closed(model: DagModel, hits: Seq<bool>, name: Seq<char>)
    requires
        model.wf(),
        hits.len() == model.names.len(),
        digraph::is_topological(model.node_order(), model.names.len(), model.edges),
    ensures
        forall|m: int|
            0 <= m < hits.len() && #[trigger] hits[m] ==> model.kept(hits).contains(model.names[m]),
        model.kept(hits).contains(name) ==> forall|k: int|
            0 <= k < model.deps(name).len() ==> model.kept(hits).contains(
                #[trigger] model.deps(name)[k],
            ),
{
    let order = model.node_order();
    let pred = model.needed_nodes(hits);
    let nodes = order.filter(pred);
    let kept = model.kept(hits);
    assert forall|m: int| 0 <= m < hits.len() && #[trigger] hits[m] implies kept.contains(
        model.names[m],
    ) by {
        lemma_node_of(model.names, model.names[m]);
        assert(model.names.contains(model.names[m]));
        let c = node_of(model.names, model.names[m])->0;
        assert(model.hit(hits, c));
        assert(model.hit_walk(hits, c, seq![c]));
        lemma_all_listed(order, model.names.len(), m);
        assert(pred(m));
        lemma_filter_keeps(order, pred, m);
        let i = nodes.index_of(m);
        assert(kept[i] == model.names[m]);
    }
    if kept.contains(name) {
        let i = kept.index_of(name);
        let x = nodes[i];
        assert(nodes.contains(x));
        lemma_filter_keeps(order, pred, x);
        assert(model.needed(hits, x));
        let c = node_of(model.names, name)->0;
        let from = digraph::sources(model.edges, c);
        assert forall|k: int| 0 <= k < model.deps(name).len() implies kept.contains(
            #[trigger] model.deps(name)[k],
        ) by {
            let a = from[k];
            assert(from.contains(a));
            lemma_sources(model.edges, c, a);
            let e = model.edges.index_of((a, c));
            assert(model.edges[e] == (a, c));
            assert(model.stands(a));
            model.lemma_walk_back(hits, a, c);
            assert(pred(a));
            lemma_all_listed(order, model.names.len(), a);
            lemma_filter_keeps(order, pred, a);
            let j = nodes.index_of(a);
            assert(kept[j] == model.names[a]);
        }
    }
}

proof fn lemma_walk_held(model: DagModel, hits: Seq<bool>, names: Seq<Seq<char>>, c: int, p: Seq<int>)
    requires
        model.wf(),
        model.hit_walk(hits, c, p),
        hits.len() == model.names.len(),
        forall|m: int| 0 <= m < hits.len() && #[trigger] hits[m] ==> names.contains(model.names[m]),
        forall|x: Seq<char>, k: int|
            names.contains(x) && 0 <= k < model.deps(x).len() ==> names.contains(
                #[trigger] model.deps(x)[k],
            ),
    ensures
        names.contains(model.names[c]),
    decreases p.len(),
{
    if p.len() == 1 {
        let m = choose|m: int|
            0 <= m < hits.len() && #[trigger] hits[m] && node_of(model.names, model.names[m]) == Some(c);
        lemma_node_of(model.names, model.names[m]);
        assert(model.names[c] == model.names[m]);
    } else {
        let rest = p.drop_first();
        let b = p[1];
        assert forall|i: int| 0 <= i < rest.len() - 1 implies #[trigger] digraph::is_step(
            model.edges,
            rest,
            i,
        ) by {
            assert(digraph::is_step(model.edges, p, i + 1));
        }
        assert(rest.last() == p.last());
        assert(model.hit_walk(hits, b, rest));
        lemma_walk_held(model, hits, names, b, rest);
        assert(digraph::is_step(model.edges, p, 0));
        let e = model.edges.index_of((c, b));
        assert(model.edges[e] == (c, b));
        assert(model.stands(c) && model.stands(b));
        lemma_sources(model.edges, b, c);
        let from = digraph::sources(model.edges, b);
        let k = from.index_of(c);
        assert(model.deps(model.names[b])[k] == model.names[c]);
    }
}

/// Selecting jobs keeps no more than it must: names among which are all that
/// were hit and, with every name, all on which it depends, hold every name that
/// is kept.
pub proof fn lemma_kept_is_least(
    model: DagModel,
    hits: Seq<bool>,
    names: Seq<Seq<char>>,
    name: Seq<char>,
)
    requires
        model.wf(),
        hits.len() == model.names.len(),
        digraph::is_topological(model.node_order(), model.names.len(), model.edges),
        forall|m: int| 0 <= m < hits.len() && #[trigger] hits[m] ==> names.contains(model.names[m]),
        forall|x: Seq<char>, k: int|
            names.contains(x) && 0 <= k < model.deps(x).len() ==> names.contains(
                #[trigger] model.deps(x)[k],
            ),
        model.kept(hits).contains(name),
    ensures
        names.contains(name),
{
    let pred = model.needed_nodes(hits);
    let nodes = model.node_order().filter(pred);
    let i = model.kept(hits).index_of(name);
    let x = nodes[i];
    assert(nodes.contains(x));
    lemma_filter_keeps(model.node_order(), pred, x);
    let k = model.node_order().index_of(x);
    assert(model.node_order()[k] == x);
    lemma_node_of(model.names, name);
    let c = node_of(model.names, name)->0;
    assert(model.leads_to_hit(hits, c));
    let p = choose|p: Seq<int>| #[trigger] model.hit_walk(hits, c, p);
    lemma_walk_held(model, hits, names, c, p);
}

/// Where nothing is hit, nothing is kept.
pub proof fn lemma_nothing_hit(model: DagModel, hits: Seq<bool>)
    requires
        !hits.contains(true),
    ensures
        model.kept(hits).len() == 0,
{
    let pred = model.needed_nodes(hits);
    let nodes = model.node_order().filter(pred);
    if nodes.len() > 0 {
        let x = nodes[0];
        assert(nodes.contains(x));
        lemma_filter_keeps(model.node_order(), pred, x);
        let c = node_of(model.names, model.names[x])->0;
        let p = choose|p: Seq<int>| #[trigger] model.hit_walk(hits, c, p);
        let m = choose|m: int|
            0 <= m < hits.len() && #[trigger] hits[m] && node_of(model.names, model.names[m]) == Some(
                p.last(),
            );
        assert(hits.contains(hits[m]));
    }
}

/// Whether `at` tells where the members of a part stand in the whole, one
/// behind the other.
pub open spec fn stand_at(part: Seq<Seq<char>>, whole: Seq<Seq<char>>, at: Seq<int>) -> bool {
    &&& at.len() == part.len()
    &&& forall|i: int| 0 <= i < at.len() ==> 0 <= #[trigger] at[i] < whole.len()
    &&& forall|i: int| 0 <= i < at.len() ==> whole[#[trigger] at[i]] == part[i]
    &&& forall|i: int, j: int| 0 <= i < j < at.len() ==> #[trigger] at[i] < #[trigger] at[j]
}

proof fn lemma_filter_in_order(s: Seq<int>, pred: spec_fn(int) -> bool) -> (at: Seq<int>)
    ensures
        at.len() == s.filter(pred).len(),
        forall|i: int| 0 <= i < at.len() ==> 0 <= #[trigger] at[i] < s.len(),
        forall|i: int| 0 <= i < at.len() ==> s[#[trigger] at[i]] == s.filter(pred)[i],
        forall|i: int, j: int| 0 <= i < j < at.len() ==> #[trigger] at[i] < #[trigger] at[j],
    decreases s.len(),
{
    reveal(Seq::filter);
    if s.len() == 0 {
        Seq::empty()
    } else {
        let before = lemma_filter_in_order(s.drop_last(), pred);
        if pred(s.last()) {
            before.push(s.len() - 1)
        } else {
            before
        }
    }
}

/// The jobs that are kept come in the order of all.
pub proof fn lemma_kept_in_order(model: DagModel, hits: Seq<bool>)
    ensures
        exists|at: Seq<int>| #[trigger] stand_at(model.kept(hits), model.order(), at),
{
    let pred = model.needed_nodes(hits);
    let at = lemma_filter_in_order(model.node_order(), pred);
    assert(stand_at(model.kept(hits), model.order(), at));
}

/// Dependencies are met exactly if each of them has a result that is success or
/// being skipped; one without a result, or one that waits, runs, failed or was
/// cancelled, is enough that they are not.
pub proof fn lemma_met_means_all_done(deps: Seq<Seq<char>>, done: Table<JobStatus>)
    ensures
        all_pass(deps, done) <==> !exists|i: int|
            0 <= i < deps.len() && (!done.map.contains_key(#[trigger] deps[i]) || done.map[deps[i]]
                == JobStatus::Pending || done.map[deps[i]] == JobStatus::Running || done.map[deps[i]]
                == JobStatus::Failed || done.map[deps[i]] == JobStatus::Cancelled),
        some_broke(deps, done) <==> exists|i: int|
            0 <= i < deps.len() && done.map.contains_key(#[trigger] deps[i]) && (done.map[deps[i]]
                == JobStatus::Failed || done.map[deps[i]] == JobStatus::Cancelled),
        all_succeeded(deps, done) <==> forall|i: int|
            0 <= i < deps.len() ==> done.map.contains_key(#[trigger] deps[i]) && done.map[deps[i]]
                == JobStatus::Success,
{
    if !all_pass(deps, done) {
        let i = choose|i: int|
            0 <= i < deps.len() && !(done.get(#[trigger] deps[i]) matches Some(s) && lets_pass(s));
        assert(0 <= i < deps.len() && (!done.map.contains_key(deps[i]) || done.map[deps[i]]
            == JobStatus::Pending || done.map[deps[i]] == JobStatus::Running || done.map[deps[i]]
            == JobStatus::Failed || done.map[deps[i]] == JobStatus::Cancelled));
    } else {
        assert forall|i: int| 0 <= i < deps.len() implies done.map.contains_key(#[trigger] deps[i])
            && (done.map[deps[i]] == JobStatus::Success || done.map[deps[i]] == JobStatus::Skipped) by {
            assert(done.get(deps[i]) matches Some(s) && lets_pass(s));
        }
    }
    if some_broke(deps, done) {
        let i = choose|i: int|
            0 <= i < deps.len() && (done.get(#[trigger] deps[i]) == Some(JobStatus::Failed)
                || done.get(deps[i]) == Some(JobStatus::Cancelled));
        assert(done.map.contains_key(deps[i]));
    }
    if exists|i: int|
        0 <= i < deps.len() && done.map.contains_key(#[trigger] deps[i]) && (done.map[deps[i]]
            == JobStatus::Failed || done.map[deps[i]] == JobStatus::Cancelled) {
        let i = choose|i: int|
            0 <= i < deps.len() && done.map.contains_key(#[trigger] deps[i]) && (done.map[deps[i]]
                == JobStatus::Failed || done.map[deps[i]] == JobStatus::Cancelled);
        assert(done.get(deps[i]) == Some(JobStatus::Failed) || done.get(deps[i]) == Some(
            JobStatus::Cancelled,
        ));
    }
    if all_succeeded(deps, done) {
        assert forall|i: int| 0 <= i < deps.len() implies done.map.contains_key(#[trigger] deps[i])
            && done.map[deps[i]] == JobStatus::Success by {
            assert(done.get(deps[i]) == Some(JobStatus::Success));
        }
    }
}

/// A job without dependencies has them met.
pub proof fn lemma_no_dependencies_met(done: Table<JobStatus>)
    ensures
        all_pass(Seq::empty(), done),
        all_succeeded(Seq::empty(), done),
        !some_broke(Seq::empty(), done),
{
}

/// A name stands for the last job that has it, and for none if no job has it.
pub proof fn lemma_last_job_stands(jobs: Seq<JobModel>, i: int, name: Seq<char>)
    requires
        0 <= i < jobs.len(),
        forall|j: int| i < j < jobs.len() ==> (#[trigger] jobs[j]).name != jobs[i].name,
    ensures
        DagModel::of(jobs).jobs.get(jobs[i].name) == Some(jobs[i]),
        (forall|j: int| 0 <= j < jobs.len() ==> (#[trigger] jobs[j]).name != name) ==> DagModel::of(
            jobs,
        ).jobs.get(name) is None,
{
    lemma_table_last(jobs, i);
    if forall|j: int| 0 <= j < jobs.len() ==> (#[trigger] jobs[j]).name != name {
        lemma_table_none(jobs, name);
    }
}

proof fn lemma_table_last(jobs: Seq<JobModel>, i: int)
    requires
        0 <= i < jobs.len(),
        forall|j: int| i < j < jobs.len() ==> (#[trigger] jobs[j]).name != jobs[i].name,
    ensures
        job_table(jobs).get(jobs[i].name) == Some(jobs[i]),
    decreases jobs.len(),
{
    if i < jobs.len() - 1 {
        let d = jobs.drop_last();
        assert(jobs[jobs.len() - 1].name != jobs[i].name);
        assert forall|j: int| i < j < d.len() implies (#[trigger] d[j]).name != d[i].name by {
            assert(jobs[j].name != jobs[i].name);
        }
        lemma_table_last(d, i);
    }
}

proof fn lemma_table_none(jobs: Seq<JobModel>, name: Seq<char>)
    requires
        forall|j: int| 0 <= j < jobs.len() ==> (#[trigger] jobs[j]).name != name,
    ensures
        job_table(jobs).get(name) is None,
    decreases jobs.len(),
{
    if jobs.len() > 0 {
        assert(jobs[jobs.len() - 1].name != name);
        let d = jobs.drop_last();
        assert forall|j: int| 0 <= j < d.len() implies (#[trigger] d[j]).name != name by {
            assert(jobs[j].name != name);
        }
        lemma_table_none(d, name);
    }
}

/// A name without a job has no dependencies and no dependents.
pub proof fn lemma_unknown_name(jobs: Seq<JobModel>, name: Seq<char>)
    requires
        forall|j: int| 0 <= j < jobs.len() ==> (#[trigger] jobs[j]).name != name,
    ensures
        DagModel::of(jobs).deps(name).len() == 0,
        DagModel::of(jobs).dependents(name).len() == 0,
{
    lemma_node_of(job_names(jobs), name);
    if let Some(n) = node_of(job_names(jobs), name) {
        assert(jobs[n].name == name);
    }
}

/// Among jobs with different names, those that depend on a job are those that
/// name it.
pub proof fn lemma_dependents_declare(jobs: Seq<JobModel>, i: int, j: int)
    requires
        job_names(jobs).no_duplicates(),
        0 <= i < jobs.len(),
        0 <= j < jobs.len(),
    ensures
        DagModel::of(jobs).dependents(jobs[i].name).contains(jobs[j].name)
            <==> jobs[j].depends_on.contains(jobs[i].name),
{
    lemma_dep_edges_wf(jobs, jobs.len() as int);
    lemma_deps_are_declared(jobs, j, jobs[i].name);
    lemma_dependents_mirror(DagModel::of(jobs), jobs[i].name, jobs[j].name);
    assert(job_names(jobs)[i] == jobs[i].name);
}

/// The name of a node in a drawing has `_` wherever the name has a slash or a
/// dash, and is the name everywhere else.
pub proof fn lemma_dot_name(s: Seq<char>)
    ensures
        dot_name(s).len() == s.len(),
        forall|i: int|
            0 <= i < s.len() ==> #[trigger] dot_name(s)[i] == (if s[i] == '/' || s[i] == '-' {
                '_'
            } else {
                s[i]
            }),
{
    reveal_strlit("_");
    assert("_"@ =~= seq!['_']);
    text::lemma_replace_char(s, '/', '_');
    text::lemma_replace_char(text::replace(s, '/', "_"@), '-', '_');
}

/// The place of a text in a longer one that has it between two others.
proof fn lemma_stands_between(a: Seq<char>, x: Seq<char>, b: Seq<char>)
    ensures
        exists|k: int| #[trigger] text::occurs_at(a + x + b, x, k),
{
    let k = a.len() as int;
    assert((a + x + b).subrange(k, k + x.len()) =~= x);
    assert(text::occurs_at(a + x + b, x, k));
}

proof fn lemma_nodes_drawn(jobs: Seq<JobModel>, i: int) -> (r: (Seq<char>, Seq<char>))
    requires
        0 <= i < jobs.len(),
    ensures
        dot_nodes(jobs) == r.0 + node_line(jobs[i].name) + r.1,
    decreases jobs.len(),
{
    let d = dot_nodes(jobs.drop_last());
    if i == jobs.len() - 1 {
        assert(dot_nodes(jobs) =~= d + node_line(jobs[i].name) + Seq::<char>::empty());
        (d, Seq::empty())
    } else {
        let (a, b) = lemma_nodes_drawn(jobs.drop_last(), i);
        let more = node_line(jobs.last().name);
        assert(dot_nodes(jobs) =~= d + more);
        assert(dot_nodes(jobs) =~= a + node_line(jobs[i].name) + (b + more));
        (a, b + more)
    }
}

/// The line that draws a job: its node, with its name, in which quotes are
/// escaped, as its label.
pub open spec fn node_line(name: Seq<char>) -> Seq<char> {
    "  \""@ + dot_name(name) + "\" [label=\""@ + text::replace(name, '"', "\\\""@) + "\"];\n"@
}

/// The line that draws a dependency: from the node of the one to that of the
/// other.
pub open spec fn edge_line(from: Seq<char>, to: Seq<char>) -> Seq<char> {
    "  \""@ + dot_name(from) + "\" -> \""@ + dot_name(to) + "\";\n"@
}

proof fn lemma_edges_into_drawn(known: Table<JobModel>, deps: Seq<Seq<char>>, to: Seq<char>, k: int) -> (r: (
    Seq<char>,
    Seq<char>,
))
    requires
        0 <= k < deps.len(),
        known.map.contains_key(deps[k]),
    ensures
        dot_edges_into(known, deps, to) == r.0 + edge_line(known.map[deps[k]].name, to) + r.1,
    decreases deps.len(),
{
    let d = dot_edges_into(known, deps.drop_last(), to);
    let all = dot_edges_into(known, deps, to);
    if k == deps.len() - 1 {
        assert(all =~= d + edge_line(known.map[deps[k]].name, to) + Seq::<char>::empty());
        (d, Seq::empty())
    } else {
        let (a, b) = lemma_edges_into_drawn(known, deps.drop_last(), to, k);
        let more = if known.map.contains_key(deps.last()) {
            edge_line(known.map[deps.last()].name, to)
        } else {
            Seq::empty()
        };
        assert(all =~= d + more);
        assert(all =~= a + edge_line(known.map[deps[k]].name, to) + (b + more));
        (a, b + more)
    }
}

proof fn lemma_edges_drawn(known: Table<JobModel>, jobs: Seq<JobModel>, i: int, k: int) -> (r: (
    Seq<char>,
    Seq<char>,
))
    requires
        0 <= i < jobs.len(),
        0 <= k < jobs[i].depends_on.len(),
        known.map.contains_key(jobs[i].depends_on[k]),
    ensures
        dot_edges(known, jobs) == r.0 + edge_line(
            known.map[jobs[i].depends_on[k]].name,
            jobs[i].name,
        ) + r.1,
    decreases jobs.len(),
{
    let d = dot_edges(known, jobs.drop_last());
    let line = edge_line(known.map[jobs[i].depends_on[k]].name, jobs[i].name);
    if i == jobs.len() - 1 {
        let (a, b) = lemma_edges_into_drawn(known, jobs[i].depends_on, jobs[i].name, k);
        assert(dot_edges(known, jobs) =~= (d + a) + line + b);
        (d + a, b)
    } else {
        let (a, b) = lemma_edges_drawn(known, jobs.drop_last(), i, k);
        let more = dot_edges_into(known, jobs.last().depends_on, jobs.last().name);
        assert(dot_edges(known, jobs) =~= a + line + (b + more));
        (a, b + more)
    }
}

/// A drawing shows every job, and an arrow to every job from each of its
/// dependencies that exist.
pub proof fn lemma_drawing_shows_all(known: Table<JobModel>, i: int, k: int)
    requires
        0 <= i < known.order.len(),
    ensures
        exists|p: int| #[trigger]
            text::occurs_at(dot(known), node_line(known.map[known.order[i]].name), p),
        0 <= k < known.map[known.order[i]].depends_on.len() && known.map.contains_key(
            known.map[known.order[i]].depends_on[k],
        ) ==> exists|p: int| #[trigger]
            text::occurs_at(
                dot(known),
                edge_line(
                    known.map[known.map[known.order[i]].depends_on[k]].name,
                    known.map[known.order[i]].name,
                ),
                p,
            ),
{
    let jobs = known.values();
    let head = "digraph pipeline {\n"@ + "  rankdir=LR;\n"@
        + "  node [shape=box, style=filled, fillcolor=lightblue];\n"@;
    let nodes = dot_nodes(jobs);
    let edges = dot_edges(known, jobs);
    let line = node_line(jobs[i].name);
    let (a, b) = lemma_nodes_drawn(jobs, i);
    assert(dot(known) =~= (head + a) + line + (b + edges + "}\n"@));
    lemma_stands_between(head + a, line, b + edges + "}\n"@);
    if 0 <= k < jobs[i].depends_on.len() && known.map.contains_key(jobs[i].depends_on[k]) {
        let arrow = edge_line(known.map[jobs[i].depends_on[k]].name, jobs[i].name);
        let (c, d) = lemma_edges_drawn(known, jobs, i, k);
        assert(dot(known) =~= (head + nodes + c) + arrow + (d + "}\n"@));
        lemma_stands_between(head + nodes + c, arrow, d + "}\n"@);
    }
}

proof fn lemma_sources_parts(a: Seq<(int, int)>, b: Seq<(int, int)>, n: int)
    ensures
        digraph::sources(a + b, n) == digraph::sources(b, n) + digraph::sources(a, n),
    decreases b.len(),
{
    let none = Seq::<int>::empty();
    if b.len() == 0 {
        assert(a + b =~= a);
        assert(digraph::sources(b, n) + digraph::sources(a, n) =~= digraph::sources(a, n));
    } else {
        lemma_sources_parts(a, b.drop_last(), n);
        assert((a + b).drop_last() =~= a + b.drop_last());
        assert((a + b).last() == b.last());
        assert(digraph::sources(a + b, n) =~= digraph::sources(b, n) + digraph::sources(a, n));
    }
}

proof fn lemma_sources_elsewhere(names: Seq<Seq<char>>, deps: Seq<Seq<char>>, to: int, n: int)
    requires
        to != n,
    ensures
        digraph::sources(edges_into(names, deps, to), n) == Seq::<int>::empty(),
    decreases deps.len(),
{
    if deps.len() > 0 {
        lemma_sources_elsewhere(names, deps.drop_last(), to, n);
        let before = edges_into(names, deps.drop_last(), to);
        if node_of(names, deps.last()) is Some {
            let e = edges_into(names, deps, to);
            assert(e.drop_last() =~= before);
        }
    }
}

proof fn lemma_sources_reversed(names: Seq<Seq<char>>, deps: Seq<Seq<char>>, to: int)
    requires
        forall|k: int| 0 <= k < deps.len() ==> names.contains(#[trigger] deps[k]),
    ensures
        digraph::sources(edges_into(names, deps, to), to).len() == deps.len(),
        forall|k: int|
            0 <= k < deps.len() ==> node_of(names, deps[deps.len() - 1 - k]) == Some(
                #[trigger] digraph::sources(edges_into(names, deps, to), to)[k],
            ),
    decreases deps.len(),
{
    if deps.len() > 0 {
        let d = deps.drop_last();
        assert forall|k: int| 0 <= k < d.len() implies names.contains(#[trigger] d[k]) by {
            assert(deps[k] == d[k]);
        }
        lemma_sources_reversed(names, d, to);
        assert(names.contains(deps[deps.len() - 1]));
        lemma_node_of(names, deps.last());
        let before = edges_into(names, d, to);
        let all = edges_into(names, deps, to);
        assert(all.drop_last() =~= before);
        let s = digraph::sources(all, to);
        let r = digraph::sources(before, to);
        let a = node_of(names, deps.last())->0;
        assert(s == seq![a] + r);
        assert forall|k: int| 0 <= k < deps.len() implies node_of(names, deps[deps.len() - 1 - k])
            == Some(#[trigger] s[k]) by {
            if k > 0 {
                assert(s[k] == r[k - 1]);
                assert(node_of(names, d[d.len() - 1 - (k - 1)]) == Some(r[k - 1]));
            }
        }
    }
}

proof fn lemma_sources_of_job(jobs: Seq<JobModel>, n: int, i: int)
    requires
        job_names(jobs).no_duplicates(),
        0 <= n <= jobs.len(),
        0 <= i < jobs.len(),
    ensures
        digraph::sources(dep_edges(jobs, n), i) == (if i < n {
            digraph::sources(edges_into(job_names(jobs), jobs[i].depends_on, i), i)
        } else {
            Seq::<int>::empty()
        }),
    decreases n,
{
    let names = job_names(jobs);
    if n > 0 {
        lemma_sources_of_job(jobs, n - 1, i);
        let job = jobs[n - 1];
        assert(names[n - 1] == job.name);
        lemma_node_of(names, job.name);
        assert(names.contains(names[n - 1]));
        let to = node_of(names, job.name)->0;
        assert(to == n - 1);
        let a = dep_edges(jobs, n - 1);
        let b = edges_into(names, job.depends_on, to);
        lemma_sources_parts(a, b, i);
        let none = Seq::<int>::empty();
        if i == n - 1 {
            assert(digraph::sources(b, i) + none =~= digraph::sources(b, i));
        } else {
            lemma_sources_elsewhere(names, job.depends_on, to, i);
            assert(none + digraph::sources(a, i) =~= digraph::sources(a, i));
        }
    }
}

/// Among jobs with different names, a job that names only jobs that exist
/// depends on exactly those, as often as it names them, the last named first.
pub proof fn lemma_deps_last_named_first(jobs: Seq<JobModel>, i: int)
    requires
        job_names(jobs).no_duplicates(),
        0 <= i < jobs.len(),
        forall|k: int|
            0 <= k < jobs[i].depends_on.len() ==> job_names(jobs).contains(
                #[trigger] jobs[i].depends_on[k],
            ),
    ensures
        DagModel::of(jobs).deps(jobs[i].name) == jobs[i].depends_on.reverse(),
{
    let names = job_names(jobs);
    let model = DagModel::of(jobs);
    assert(names[i] == jobs[i].name);
    lemma_node_of(names, jobs[i].name);
    assert(names.contains(names[i]));
    assert(node_of(names, jobs[i].name) == Some(i));
    lemma_sources_of_job(jobs, jobs.len() as int, i);
    lemma_sources_reversed(names, jobs[i].depends_on, i);
    let s = digraph::sources(model.edges, i);
    let deps = jobs[i].depends_on;
    assert forall|k: int| 0 <= k < deps.len() implies #[trigger] model.deps(jobs[i].name)[k]
        == deps.reverse()[k] by {
        assert(node_of(names, deps[deps.len() - 1 - k]) == Some(s[k]));
        lemma_node_of(names, deps[deps.len() - 1 - k]);
    }
    assert(model.deps(jobs[i].name) =~= deps.reverse());
}

} // verus!
