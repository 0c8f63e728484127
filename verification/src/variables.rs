//! Variables: references of the form `${{ name }}`, and what they stand for.
use vstd::prelude::*;
use vstd::slice::slice_subrange;

use crate::models::Pipeline;
use crate::string_map::{DeepClone, StringMap, Table};
use crate::text;
use crate::text::{
    append_str, find_chars, from_chars, starts_with_str, str_eq, to_chars,
    trim_chars,
};

verus! {

/// How many times references are replaced before resolution gives up.
pub const MAX_PASSES: u32 = 220;

// ---------------------------------------------------------------------------
// References

/// The first position at or after `i` that holds a brace, or the end.
pub open spec fn brace_from(s: Seq<char>, i: int) -> int
    decreases s.len() - i,
{
    if i < 0 || i >= s.len() || s[i] == '{' || s[i] == '}' {
        i
    } else {
        brace_from(s, i + 1)
    }
}

/// Where a reference that begins at `i` ends: `${{`, one or more characters
/// that are not braces, `}}`.
pub open spec fn reference_end(s: Seq<char>, i: int) -> Option<int> {
    let j = brace_from(s, i + 3);
    if i + 3 <= s.len() && s[i] == '$' && s[i + 1] == '{' && s[i + 2] == '{' && j > i + 3 && j + 2
        <= s.len() && s[j] == '}' && s[j + 1] == '}' {
        Some(j + 2)
    } else {
        None
    }
}

/// Whether `s` holds a reference.
pub open spec fn has_reference(s: Seq<char>) -> bool {
    exists|i: int| 0 <= i < s.len() && #[trigger] reference_end(s, i) is Some
}

/// The name between the braces of a reference from `i` to `end`.
pub open spec fn reference_name(s: Seq<char>, i: int, end: int) -> Seq<char> {
    text::trim(s.subrange(i + 3, end - 2))
}

/// Why a value could not be resolved.
pub enum ResolveFailure {
    TooDeep,
    OutputNotFound(Seq<char>, Seq<char>),
    InvalidJobReference(Seq<char>),
    VariableNotFound(Seq<char>),
}

/// What references can stand for.
pub struct Scope {
    pub globals: Table<Seq<char>>,
    pub outputs: Table<Table<Seq<char>>>,
    pub system: Table<Seq<char>>,
    pub job: Table<Seq<char>>,
    pub step: Table<Seq<char>>,
}

/// The parts of `s` before and after the first `c`.
pub open spec fn cut(s: Seq<char>, c: char) -> Option<(Seq<char>, Seq<char>)> {
    match text::find_from(s, seq![c], 0) {
        Some(i) => Some((s.take(i), s.skip(i + 1))),
        None => None,
    }
}

/// The job and the key of a name of the form `jobs.<job>.outputs.<key>`.
pub open spec fn job_output(name: Seq<char>) -> Option<(Seq<char>, Seq<char>)> {
    match cut(name.skip(5), '.') {
        Some((job, rest)) => match cut(rest, '.') {
            Some((word, key)) => if word == "outputs"@ {
                Some((job, key))
            } else {
                None
            },
            None => None,
        },
        None => None,
    }
}

impl Scope {
    /// The value of an output of a job.
    pub open spec fn output(self, job: Seq<char>, key: Seq<char>) -> Option<Seq<char>> {
        match self.outputs.get(job) {
            Some(t) => t.get(key),
            None => None,
        }
    }

    /// What a name stands for. A name that begins with `jobs.` is an output of
    /// a job; any other is looked up in the step, the job, the pipeline and
    /// the system, in that order.
    pub open spec fn lookup(self, name: Seq<char>) -> Result<Seq<char>, ResolveFailure> {
        if text::starts_with(name, "jobs."@) {
            match job_output(name) {
                Some((job, key)) => match self.output(job, key) {
                    Some(v) => Ok(v),
                    None => Err(ResolveFailure::OutputNotFound(job, key)),
                },
                None => Err(ResolveFailure::InvalidJobReference(name)),
            }
        } else if self.step.map.contains_key(name) {
            Ok(self.step.map[name])
        } else if self.job.map.contains_key(name) {
            Ok(self.job.map[name])
        } else if self.globals.map.contains_key(name) {
            Ok(self.globals.map[name])
        } else if self.system.map.contains_key(name) {
            Ok(self.system.map[name])
        } else {
            Err(ResolveFailure::VariableNotFound(name))
        }
    }

    /// `s` from `from` on with every reference replaced once. If references
    /// fail, the last of them tells why.
    pub open spec fn pass(self, s: Seq<char>, from: int) -> Result<Seq<char>, ResolveFailure>
        decreases s.len() - from,
    {
        if from < 0 || from >= s.len() {
            Ok(Seq::empty())
        } else {
            match reference_end(s, from) {
                Some(end) => match self.pass(s, end) {
                    Ok(t) => match self.lookup(reference_name(s, from, end)) {
                        Ok(v) => Ok(v + t),
                        Err(e) => Err(e),
                    },
                    Err(e) => Err(e),
                },
                None => match self.pass(s, from + 1) {
                    Ok(t) => Ok(seq![s[from]] + t),
                    Err(e) => Err(e),
                },
            }
        }
    }

    /// `s` with references replaced until none is left, at most `passes` times.
    pub open spec fn resolve(self, s: Seq<char>, passes: nat) -> Result<Seq<char>, ResolveFailure>
        decreases passes,
    {
        if !has_reference(s) {
            Ok(s)
        } else if passes == 0 {
            Err(ResolveFailure::TooDeep)
        } else {
            match self.pass(s, 0) {
                Ok(t) => self.resolve(t, (passes - 1) as nat),
                Err(e) => Err(e),
            }
        }
    }

    /// The value of `s`: references replaced until none is left.
    pub open spec fn value(self, s: Seq<char>) -> Result<Seq<char>, ResolveFailure> {
        self.resolve(s, MAX_PASSES as nat)
    }

    /// The value of `s`, or `s` itself if it has none.
    pub open spec fn value_or_self(self, s: Seq<char>) -> Seq<char> {
        match self.value(s) {
            Ok(v) => v,
            Err(_) => s,
        }
    }

    /// The environment that a command sees: system, pipeline, job and step,
    /// where a later one overrides an earlier one.
    pub open spec fn merged(self) -> Table<Seq<char>> {
        self.system.insert_all(self.globals).insert_all(self.job).insert_all(self.step)
    }
}

// ---------------------------------------------------------------------------
// Finding references

fn brace_from_chars(s: &[char], i: usize) -> (r: usize)
    requires
        i <= s@.len(),
    ensures
        r == brace_from(s@, i as int),
        i <= r <= s@.len(),
{
    let mut j: usize = i;
    while j < s.len() && s[j] != '{' && s[j] != '}'
        invariant
            i <= j <= s@.len(),
            brace_from(s@, i as int) == brace_from(s@, j as int),
        decreases s@.len() - j,
    {
        j = j + 1;
    }
    j
}

fn reference_end_chars(s: &[char], i: usize) -> (r: Option<usize>)
    requires
        i < s@.len(),
    ensures
        match r {
            Some(e) => reference_end(s@, i as int) == Some(e as int) && i + 5 < e <= s@.len(),
            None => reference_end(s@, i as int) is None,
        },
{
    if s.len() - i < 3 || s[i] != '$' || s[i + 1] != '{' || s[i + 2] != '{' {
        return None;
    }
    let j: usize = brace_from_chars(s, i + 3);
    if j > i + 3 && s.len() - j >= 2 && s[j] == '}' && s[j + 1] == '}' {
        Some(j + 2)
    } else {
        None
    }
}

/// No reference begins between `from` and `to`.
spec fn free(s: Seq<char>, from: int, to: int) -> bool {
    forall|i: int| from <= i < to ==> #[trigger] reference_end(s, i) is None
}

/// `spans` holds references of `s`, from left to right, with none between
/// them.
spec fn are_references(s: Seq<char>, spans: Seq<(usize, usize)>) -> bool {
    &&& forall|j: int|
        0 <= j < spans.len() ==> {
            &&& reference_end(s, (#[trigger] spans[j]).0 as int) == Some(spans[j].1 as int)
            &&& spans[j].0 < spans[j].1 <= s.len()
            &&& end_before(spans, j) <= spans[j].0
            &&& free(s, end_before(spans, j), spans[j].0 as int)
        }
}

/// Where the reference before the `j`th ends.
spec fn end_before(spans: Seq<(usize, usize)>, j: int) -> int {
    if j <= 0 {
        0
    } else {
        spans[j - 1].1 as int
    }
}

fn find_references(s: &[char]) -> (r: Vec<(usize, usize)>)
    ensures
        are_references(s@, r@),
        end_before(r@, r@.len() as int) <= s@.len(),
        free(s@, end_before(r@, r@.len() as int), s@.len() as int),
        (r@.len() > 0) == has_reference(s@),
{
    let mut spans: Vec<(usize, usize)> = Vec::new();
    let mut i: usize = 0;
    while i < s.len()
        invariant
            i <= s@.len(),
            are_references(s@, spans@),
            end_before(spans@, spans@.len() as int) <= i,
            free(s@, end_before(spans@, spans@.len() as int), i as int),
        decreases s@.len() - i,
    {
        match reference_end_chars(s, i) {
            Some(e) => {
                let ghost before = spans@;
                spans.push((i, e));
                assert forall|j: int| 0 <= j < spans@.len() implies {
                    &&& reference_end(s@, (#[trigger] spans@[j]).0 as int) == Some(
                        spans@[j].1 as int,
                    )
                    &&& spans@[j].0 < spans@[j].1 <= s@.len()
                    &&& end_before(spans@, j) <= spans@[j].0
                    &&& free(s@, end_before(spans@, j), spans@[j].0 as int)
                } by {
                    assert(end_before(spans@, j) == end_before(before, j));
                    if j < before.len() {
                        assert(spans@[j] == before[j]);
                    }
                }
                i = e;
            },
            None => {
                i = i + 1;
            },
        }
    }
    proof {
        if spans@.len() > 0 {
            assert(reference_end(s@, spans@[0].0 as int) is Some);
        }
    }
    spans
}

impl Scope {
    proof fn lemma_pass_free(self, s: Seq<char>, from: int, to: int)
        requires
            0 <= from <= to <= s.len(),
            free(s, from, to),
        ensures
            self.pass(s, from) == (match self.pass(s, to) {
                Ok(t) => Ok::<Seq<char>, ResolveFailure>(s.subrange(from, to) + t),
                Err(e) => Err(e),
            }),
        decreases to - from,
    {
        if from < to {
            assert(reference_end(s, from) is None);
            self.lemma_pass_free(s, from + 1, to);
            if let Ok(t) = self.pass(s, to) {
                assert(seq![s[from]] + (s.subrange(from + 1, to) + t) =~= s.subrange(from, to) + t);
            }
        } else {
            if let Ok(t) = self.pass(s, to) {
                assert(s.subrange(from, to) + t =~= t);
            }
        }
    }

    proof fn lemma_pass_fails(self, s: Seq<char>, spans: Seq<(usize, usize)>, j: int)
        requires
            are_references(s, spans),
            0 <= j < spans.len(),
            self.pass(s, spans[j].0 as int) is Err,
        ensures
            self.pass(s, 0) == self.pass(s, spans[j].0 as int),
        decreases j,
    {
        let from = end_before(spans, j);
        assert(0 <= from) by {
            if j > 0 {
                assert(spans[j - 1].1 <= s.len());
            }
        }
        self.lemma_pass_free(s, from, spans[j].0 as int);
        if j > 0 {
            assert(reference_end(s, spans[j - 1].0 as int) == Some(spans[j - 1].1 as int));
            self.lemma_pass_fails(s, spans, j - 1);
        }
    }
}

// ---------------------------------------------------------------------------
// The resolver

/// Why a value could not be resolved.
#[derive(Debug, Clone)]
pub enum ResolveError {
    /// References were still left after the last pass.
    TooDeep,
    /// The job has no such output.
    OutputNotFound { job: String, key: String },
    /// A name begins with `jobs.` and does not go on `<job>.outputs.<key>`.
    InvalidJobReference(String),
    /// No scope holds the name.
    VariableNotFound(String),
}

impl DeepView for ResolveError {
    type V = ResolveFailure;

    open spec fn deep_view(&self) -> ResolveFailure {
        match self {
            ResolveError::TooDeep => ResolveFailure::TooDeep,
            ResolveError::OutputNotFound { job, key } => ResolveFailure::OutputNotFound(job@, key@),
            ResolveError::InvalidJobReference(n) => ResolveFailure::InvalidJobReference(n@),
            ResolveError::VariableNotFound(n) => ResolveFailure::VariableNotFound(n@),
        }
    }
}

/// The message for a failure.
pub open spec fn failure_message(e: ResolveFailure) -> Seq<char> {
    match e {
        ResolveFailure::TooDeep => "Variable resolution exceeded max nesting depth"@,
        ResolveFailure::OutputNotFound(job, key) => "Cannot resolve output: jobs."@ + job
            + ".outputs."@ + key + " - job output not found"@,
        ResolveFailure::InvalidJobReference(n) => "Invalid job reference: "@ + n,
        ResolveFailure::VariableNotFound(n) => "Variable '"@ + n + "' not found"@,
    }
}

impl ResolveError {
    /// The message for the error.
    pub fn message(&self) -> (r: String)
        ensures
            r@ == failure_message(self.deep_view()),
    {
        match self {
            ResolveError::TooDeep => "Variable resolution exceeded max nesting depth".to_owned(),
            ResolveError::OutputNotFound { job, key } => {
                let mut m = "Cannot resolve output: jobs.".to_owned();
                append_str(&mut m, job.as_str());
                append_str(&mut m, ".outputs.");
                append_str(&mut m, key.as_str());
                append_str(&mut m, " - job output not found");
                m
            },
            ResolveError::InvalidJobReference(n) => {
                let mut m = "Invalid job reference: ".to_owned();
                append_str(&mut m, n.as_str());
                m
            },
            ResolveError::VariableNotFound(n) => {
                let mut m = "Variable '".to_owned();
                append_str(&mut m, n.as_str());
                append_str(&mut m, "' not found");
                m
            },
        }
    }
}

/// A resolution as the contracts speak of it.
pub open spec fn result_model(r: Result<String, ResolveError>) -> Result<Seq<char>, ResolveFailure> {
    match r {
        Ok(v) => Ok(v@),
        Err(e) => Err(e.deep_view()),
    }
}

fn cut_chars(s: &[char], c: char) -> (r: Option<(&[char], &[char])>)
    ensures
        match r {
            Some((a, b)) => cut(s@, c) == Some((a@, b@)),
            None => cut(s@, c) is None,
        },
{
    let mut p: Vec<char> = Vec::new();
    p.push(c);
    assert(p@ =~= seq![c]);
    let n: usize = s.len();
    match find_chars(s, p.as_slice()) {
        Some(i) => {
            let a = slice_subrange(s, 0, i);
            let b = slice_subrange(s, i + 1, n);
            assert(a@ =~= s@.take(i as int));
            assert(b@ =~= s@.skip(i + 1));
            Some((a, b))
        },
        None => None,
    }
}

/// The outputs of jobs with one set.
pub open spec fn with_output(
    outputs: Table<Table<Seq<char>>>,
    job: Seq<char>,
    key: Seq<char>,
    value: Seq<char>,
) -> Table<Table<Seq<char>>> {
    outputs.insert(
        job,
        (match outputs.get(job) {
            Some(t) => t,
            None => Table::<Seq<char>>::empty(),
        }).insert(key, value),
    )
}

/// Resolves references to variables and job outputs.
#[derive(Debug, Clone)]
pub struct VariableResolver {
    pub global_vars: StringMap<String>,
    job_outputs: StringMap<StringMap<String>>,
    system_env: StringMap<String>,
}

impl VariableResolver {
    /// The variables of the pipeline.
    pub closed spec fn globals(self) -> Table<Seq<char>> {
        self.global_vars.deep_view()
    }

    /// The outputs of jobs that are known.
    pub closed spec fn outputs(self) -> Table<Table<Seq<char>>> {
        self.job_outputs.deep_view()
    }

    /// The environment of the system.
    pub closed spec fn system(self) -> Table<Seq<char>> {
        self.system_env.deep_view()
    }

    /// What references stand for within a step of a job.
    pub open spec fn scope(self, job_env: Table<Seq<char>>, step_env: Table<Seq<char>>) -> Scope {
        Scope {
            globals: self.globals(),
            outputs: self.outputs(),
            system: self.system(),
            job: job_env,
            step: step_env,
        }
    }

    /// A resolver for a pipeline, in the given system environment.
    pub fn new(pipeline: &Pipeline, system_env: StringMap<String>) -> (r: Self)
        ensures
            r.globals() == pipeline.variables.deep_view(),
            r.outputs() == Table::<Table<Seq<char>>>::empty(),
            r.system() == system_env.deep_view(),
    {
        VariableResolver {
            global_vars: pipeline.variables.deep_clone(),
            job_outputs: StringMap::new(),
            system_env,
        }
    }

    /// The outputs of jobs that are known.
    pub fn get_job_outputs(&self) -> (r: &StringMap<StringMap<String>>)
        ensures
            r.deep_view() == self.outputs(),
    {
        &self.job_outputs
    }

    /// The environment of the system.
    pub fn system_env(&self) -> (r: &StringMap<String>)
        ensures
            r.deep_view() == self.system(),
    {
        &self.system_env
    }

    /// Sets one output of a job.
    pub fn set_job_output(&mut self, job_name: &str, key: &str, value: &str)
        ensures
            final(self).outputs() == with_output(old(self).outputs(), job_name@, key@, value@),
            final(self).globals() == old(self).globals(),
            final(self).system() == old(self).system(),
    {
        let mut outputs = match self.job_outputs.get(job_name) {
            Some(m) => m.deep_clone(),
            None => StringMap::new(),
        };
        outputs.insert(key.to_owned(), value.to_owned());
        self.job_outputs.insert(job_name.to_owned(), outputs);
    }

    /// Sets all outputs of a job; those it had before are forgotten.
    pub fn set_job_outputs(&mut self, job_name: &str, outputs: StringMap<String>)
        ensures
            final(self).outputs() == old(self).outputs().insert(job_name@, outputs.deep_view()),
            final(self).globals() == old(self).globals(),
            final(self).system() == old(self).system(),
    {
        self.job_outputs.insert(job_name.to_owned(), outputs);
    }

    /// What a name stands for.
    pub fn resolve_single_var(
        &self,
        name: &str,
        job_env: &StringMap<String>,
        step_env: &StringMap<String>,
    ) -> (r: Result<String, ResolveError>)
        ensures
            result_model(r) == self.scope(job_env.deep_view(), step_env.deep_view()).lookup(name@),
    {
        if starts_with_str(name, "jobs.") {
            let v = to_chars(name);
            proof {
                reveal_strlit("jobs.");
            }
            let rest = slice_subrange(v.as_slice(), 5, v.len());
            assert(rest@ =~= name@.skip(5));
            if let Some((job, more)) = cut_chars(rest, '.') {
                if let Some((word, key)) = cut_chars(more, '.') {
                    let w = from_chars(word);
                    if str_eq(w.as_str(), "outputs") {
                        let job_name = from_chars(job);
                        let key_name = from_chars(key);
                        if let Some(outputs) = self.job_outputs.get(job_name.as_str()) {
                            if let Some(val) = outputs.get(key_name.as_str()) {
                                return Ok(val.clone());
                            }
                        }
                        return Err(ResolveError::OutputNotFound { job: job_name, key: key_name });
                    }
                }
            }
            return Err(ResolveError::InvalidJobReference(name.to_owned()));
        }
        if let Some(val) = step_env.get(name) {
            return Ok(val.clone());
        }
        if let Some(val) = job_env.get(name) {
            return Ok(val.clone());
        }
        if let Some(val) = self.global_vars.get(name) {
            return Ok(val.clone());
        }
        if let Some(val) = self.system_env.get(name) {
            return Ok(val.clone());
        }
        Err(ResolveError::VariableNotFound(name.to_owned()))
    }

    /// Replaces every reference of `s` once; `spans` says where they are.
    fn replace_references(
        &self,
        s: &[char],
        spans: &Vec<(usize, usize)>,
        job_env: &StringMap<String>,
        step_env: &StringMap<String>,
    ) -> (r: Result<String, ResolveError>)
        requires
            are_references(s@, spans@),
            end_before(spans@, spans@.len() as int) <= s@.len(),
            free(s@, end_before(spans@, spans@.len() as int), s@.len() as int),
        ensures
            result_model(r) == self.scope(job_env.deep_view(), step_env.deep_view()).pass(s@, 0),
    {
        let ghost scope = self.scope(job_env.deep_view(), step_env.deep_view());
        let mut j: usize = spans.len();
        let start: usize = if j > 0 {
            spans[j - 1].1
        } else {
            0
        };
        let mut tail = from_chars(slice_subrange(s, start, s.len()));
        proof {
            scope.lemma_pass_free(s@, start as int, s@.len() as int);
            assert(s@.subrange(start as int, s@.len() as int) + Seq::<char>::empty() =~= tail@);
        }
        while j > 0
            invariant
                j <= spans@.len(),
                are_references(s@, spans@),
                scope == self.scope(job_env.deep_view(), step_env.deep_view()),
                scope.pass(s@, end_before(spans@, j as int)) == Ok::<Seq<char>, ResolveFailure>(
                    tail@,
                ),
            decreases j,
        {
            j = j - 1;
            let (a, e) = spans[j];
            let from: usize = if j > 0 {
                spans[j - 1].1
            } else {
                0
            };
            assert(spans@[j as int] == (a, e));
            assert(reference_end(s@, a as int) == Some(e as int));
            let name = from_chars(trim_chars(slice_subrange(s, a + 3, e - 2)));
            assert(name@ == reference_name(s@, a as int, e as int));
            match self.resolve_single_var(name.as_str(), job_env, step_env) {
                Ok(value) => {
                    let mut head = from_chars(slice_subrange(s, from, a));
                    append_str(&mut head, value.as_str());
                    append_str(&mut head, tail.as_str());
                    proof {
                        scope.lemma_pass_free(s@, from as int, a as int);
                        assert(head@ =~= s@.subrange(from as int, a as int) + (value@ + tail@));
                    }
                    tail = head;
                },
                Err(err) => {
                    proof {
                        scope.lemma_pass_fails(s@, spans@, j as int);
                    }
                    return Err(err);
                },
            }
        }
        Ok(tail)
    }

    /// The value of a text: its references replaced until none is left.
    pub fn resolve_value(
        &self,
        value: &str,
        job_env: &StringMap<String>,
        step_env: &StringMap<String>,
    ) -> (r: Result<String, ResolveError>)
        ensures
            result_model(r) == self.scope(job_env.deep_view(), step_env.deep_view()).value(value@),
    {
        let ghost scope = self.scope(job_env.deep_view(), step_env.deep_view());
        let mut current = value.to_owned();
        let mut passes: u32 = MAX_PASSES;
        loop
            invariant
                scope == self.scope(job_env.deep_view(), step_env.deep_view()),
                scope.value(value@) == scope.resolve(current@, passes as nat),
            decreases passes,
        {
            let chars = to_chars(current.as_str());
            let spans = find_references(chars.as_slice());
            if spans.len() == 0 {
                return Ok(current);
            }
            if passes == 0 {
                return Err(ResolveError::TooDeep);
            }
            match self.replace_references(chars.as_slice(), &spans, job_env, step_env) {
                Ok(next) => {
                    current = next;
                },
                Err(e) => {
                    return Err(e);
                },
            }
            passes = passes - 1;
        }
    }

    /// The environment that a step of a job sees, before its references are
    /// resolved.
    pub fn merged_env(&self, job_env: &StringMap<String>, step_env: &StringMap<String>) -> (r: StringMap<
        String,
    >)
        ensures
            r.deep_view() == self.scope(job_env.deep_view(), step_env.deep_view()).merged(),
    {
        build_merged_env(&self.system_env, &self.global_vars, job_env, step_env)
    }

    /// The value of a text, or the text itself if it has none.
    pub fn try_resolve_value(
        &self,
        value: &str,
        job_env: &StringMap<String>,
        step_env: &StringMap<String>,
    ) -> (r: String)
        ensures
            r@ == self.scope(job_env.deep_view(), step_env.deep_view()).value_or_self(value@),
    {
        match self.resolve_value(value, job_env, step_env) {
            Ok(v) => v,
            Err(_) => value.to_owned(),
        }
    }
}

/// The environment that a command sees: the system's, with the variables of
/// the pipeline, the job and the step set in that order.
pub fn build_merged_env(
    system_env: &StringMap<String>,
    global_vars: &StringMap<String>,
    job_env: &StringMap<String>,
    step_env: &StringMap<String>,
) -> (r: StringMap<String>)
    ensures
        r.deep_view() == system_env.deep_view().insert_all(global_vars.deep_view()).insert_all(
            job_env.deep_view(),
        ).insert_all(step_env.deep_view()),
{
    let mut merged = system_env.deep_clone();
    merged.insert_all(global_vars);
    merged.insert_all(job_env);
    merged.insert_all(step_env);
    merged
}

// ---------------------------------------------------------------------------
// Laws

/// Text without references stands for itself.
pub proof fn lemma_plain_text(scope: Scope, s: Seq<char>)
    requires
        !has_reference(s),
    ensures
        scope.value(s) == Ok::<Seq<char>, ResolveFailure>(s),
{
}

/// Text without a dollar sign holds no reference.
pub proof fn lemma_no_dollar(s: Seq<char>)
    requires
        !s.contains('$'),
    ensures
        !has_reference(s),
{
}

/// No reference is left in a value.
pub proof fn lemma_value_is_plain(scope: Scope, s: Seq<char>)
    ensures
        scope.value(s) matches Ok(v) ==> !has_reference(v),
{
    lemma_resolve_is_plain(scope, s, MAX_PASSES as nat);
}

proof fn lemma_resolve_is_plain(scope: Scope, s: Seq<char>, passes: nat)
    ensures
        scope.resolve(s, passes) matches Ok(v) ==> !has_reference(v),
    decreases passes,
{
    if has_reference(s) && passes > 0 {
        if let Ok(t) = scope.pass(s, 0) {
            lemma_resolve_is_plain(scope, t, (passes - 1) as nat);
        }
    }
}

/// Resolving a value again changes nothing.
pub proof fn lemma_value_twice(scope: Scope, s: Seq<char>)
    ensures
        scope.value(s) matches Ok(v) ==> scope.value(v) == Ok::<Seq<char>, ResolveFailure>(v),
{
    lemma_value_is_plain(scope, s);
}

/// A reference to an output reads back what was set, if the name of the job
/// has no dot in it.
pub proof fn lemma_output_reads_back(scope: Scope, job: Seq<char>, key: Seq<char>, value: Seq<char>)
    requires
        !job.contains('.'),
    ensures
        (Scope { outputs: with_output(scope.outputs, job, key, value), ..scope }).lookup(
            "jobs."@ + job + ".outputs."@ + key,
        ) == Ok::<Seq<char>, ResolveFailure>(value),
{
    reveal_strlit("jobs.");
    reveal_strlit(".outputs.");
    reveal_strlit("outputs");
    let name = "jobs."@ + job + ".outputs."@ + key;
    assert(name.take(5) =~= "jobs."@);
    let rest = "outputs."@ + key;
    reveal_strlit("outputs.");
    assert(name.skip(5) =~= job + seq!['.'] + rest);
    text::lemma_find_behind(job, '.', rest);
    let after = job + seq!['.'] + rest;
    assert(after.take(job.len() as int) =~= job);
    assert(after.skip(job.len() as int + 1) =~= rest);
    assert(rest =~= "outputs"@ + seq!['.'] + key);
    assert(!"outputs"@.contains('.'));
    text::lemma_find_behind("outputs"@, '.', key);
    assert(rest.take(7) =~= "outputs"@);
    assert(rest.skip(8) =~= key);
}

/// A name that is no output of a job stands for its value in the environment
/// that commands see.
pub proof fn lemma_lookup_is_merged(scope: Scope, name: Seq<char>)
    requires
        !text::starts_with(name, "jobs."@),
        scope.globals.wf(),
        scope.job.wf(),
        scope.step.wf(),
    ensures
        scope.lookup(name) == (match scope.merged().get(name) {
            Some(v) => Ok(v),
            None => Err(ResolveFailure::VariableNotFound(name)),
        }),
{
    let a = scope.system.insert_all(scope.globals);
    let b = a.insert_all(scope.job);
    scope.system.lemma_insert_all_get(scope.globals, name);
    a.lemma_insert_all_get(scope.job, name);
    b.lemma_insert_all_get(scope.step, name);
}

/// A name that does not begin with `jobs.` stands for the variable of the step,
/// else of the job, else of the pipeline, else of the system; one that none of
/// them has is not found.
pub proof fn lemma_lookup_priority(scope: Scope, name: Seq<char>)
    requires
        !(name.len() >= 5 && name.take(5) == "jobs."@),
    ensures
        scope.lookup(name) == (if let Some(v) = scope.step.get(name) {
            Ok(v)
        } else if let Some(v) = scope.job.get(name) {
            Ok(v)
        } else if let Some(v) = scope.globals.get(name) {
            Ok(v)
        } else if let Some(v) = scope.system.get(name) {
            Ok(v)
        } else {
            Err(ResolveFailure::VariableNotFound(name))
        }),
{
    reveal_strlit("jobs.");
}

/// Setting an output changes that output, and no other output of any job.
pub proof fn lemma_output_set(
    outputs: Table<Table<Seq<char>>>,
    job: Seq<char>,
    key: Seq<char>,
    value: Seq<char>,
    x: Seq<char>,
    y: Seq<char>,
)
    ensures
        ({
            let after = with_output(outputs, job, key, value);
            if x == job && y == key {
                after.map.contains_key(x) && after.map[x].get(y) == Some(value)
            } else {
                (after.map.contains_key(x) && after.map[x].map.contains_key(y)) <==> (
                outputs.map.contains_key(x) && outputs.map[x].map.contains_key(y))
            }
        }),
        (x != job || y != key) && outputs.map.contains_key(x) && outputs.map[x].map.contains_key(y)
            ==> with_output(outputs, job, key, value).map[x].map[y] == outputs.map[x].map[y],
{
}

/// Text without a dollar sign is copied.
proof fn lemma_pass_plain(scope: Scope, a: Seq<char>, rest: Seq<char>, i: int)
    requires
        0 <= i <= a.len(),
        !a.contains('$'),
    ensures
        scope.pass(a + rest, i) == (match scope.pass(a + rest, a.len() as int) {
            Ok(t) => Ok(a.skip(i) + t),
            Err(e) => Err(e),
        }),
    decreases a.len() - i,
{
    let s = a + rest;
    if i < a.len() {
        assert(s[i] == a[i]);
        assert(a.contains(a[i]));
        lemma_pass_plain(scope, a, rest, i + 1);
        if let Ok(t) = scope.pass(s, a.len() as int) {
            assert(seq![s[i]] + (a.skip(i + 1) + t) =~= a.skip(i) + t);
        }
    } else {
        if let Ok(t) = scope.pass(s, a.len() as int) {
            assert(a.skip(i) + t =~= t);
        }
    }
}

proof fn lemma_no_brace(s: Seq<char>, i: int, j: int)
    requires
        0 <= i <= j < s.len(),
        s[j] == '}',
        forall|k: int| i <= k < j ==> #[trigger] s[k] != '{' && s[k] != '}',
    ensures
        brace_from(s, i) == j,
    decreases j - i,
{
    if i < j {
        assert(s[i] != '{' && s[i] != '}');
        lemma_no_brace(s, i + 1, j);
    }
}

/// What comes of text with one reference in it, in one go.
proof fn lemma_pass_reference(scope: Scope, a: Seq<char>, name: Seq<char>, b: Seq<char>)
    requires
        !a.contains('$'),
        !b.contains('$'),
        name.len() > 0,
        !name.contains('{'),
        !name.contains('}'),
    ensures
        has_reference(a + "${{"@ + name + "}}"@ + b),
        scope.pass(a + "${{"@ + name + "}}"@ + b, 0) == (match scope.lookup(text::trim(name)) {
            Ok(v) => Ok(a + v + b),
            Err(e) => Err(e),
        }),
{
    reveal_strlit("${{");
    reveal_strlit("}}");
    let s = a + "${{"@ + name + "}}"@ + b;
    let rest = "${{"@ + name + "}}"@ + b;
    assert(s =~= a + rest);
    let i = a.len() as int;
    let j = i + 3 + name.len() as int;
    assert(s[i] == '$' && s[i + 1] == '{' && s[i + 2] == '{' && s[j] == '}' && s[j + 1] == '}');
    assert forall|k: int| i + 3 <= k < j implies #[trigger] s[k] != '{' && s[k] != '}' by {
        assert(s[k] == name[k - i - 3]);
        assert(name.contains(name[k - i - 3]));
    }
    lemma_no_brace(s, i + 3, j);
    assert(reference_end(s, i) == Some(j + 2));
    assert(s.subrange(i + 3, j) =~= name);
    lemma_pass_plain(scope, a, rest, 0);
    let front = a + "${{"@ + name + "}}"@;
    assert(s =~= front + b);
    lemma_pass_rest(scope, front, b, front.len() as int);
    assert(b.skip(0) =~= b);
    assert(front.len() == j + 2);
    assert(scope.pass(s, j + 2) == Ok::<Seq<char>, ResolveFailure>(b));
    assert(reference_name(s, i, j + 2) == text::trim(name));
    assert(a.skip(0) =~= a);
    if let Ok(v) = scope.lookup(text::trim(name)) {
        assert(a + (v + b) =~= a + v + b);
    }
}

proof fn lemma_pass_rest(scope: Scope, front: Seq<char>, b: Seq<char>, i: int)
    requires
        front.len() <= i <= front.len() + b.len(),
        !b.contains('$'),
    ensures
        scope.pass(front + b, i) == Ok::<Seq<char>, ResolveFailure>(b.skip(i - front.len())),
    decreases front.len() + b.len() - i,
{
    let s = front + b;
    if i < s.len() {
        assert(s[i] == b[i - front.len()]);
        assert(b.contains(b[i - front.len()]));
        lemma_pass_rest(scope, front, b, i + 1);
        assert(seq![s[i]] + b.skip(i + 1 - front.len()) =~= b.skip(i - front.len()));
    } else {
        assert(b.skip(i - front.len()) =~= Seq::<char>::empty());
    }
}

/// A reference stands for its value, in the middle of other text: where the
/// name is known and its value plain, the value takes the place of the
/// reference; where it is not known, the whole text has no value, and is left
/// as it is where that is asked for.
pub proof fn lemma_reference_is_replaced(scope: Scope, a: Seq<char>, name: Seq<char>, b: Seq<char>)
    requires
        !a.contains('$'),
        !b.contains('$'),
        name.len() > 0,
        !name.contains('{'),
        !name.contains('}'),
    ensures
        ({
            let s = a + "${{"@ + name + "}}"@ + b;
            match scope.lookup(text::trim(name)) {
                Ok(v) => !v.contains('$') ==> scope.value(s) == Ok::<Seq<char>, ResolveFailure>(
                    a + v + b,
                ) && scope.value_or_self(s) == a + v + b,
                Err(e) => scope.value(s) == Err::<Seq<char>, ResolveFailure>(e)
                    && scope.value_or_self(s) == s,
            }
        }),
{
    let s = a + "${{"@ + name + "}}"@ + b;
    lemma_pass_reference(scope, a, name, b);
    if let Ok(v) = scope.lookup(text::trim(name)) {
        if !v.contains('$') {
            let t = a + v + b;
            assert(!t.contains('$')) by {
                if t.contains('$') {
                    let k = t.index_of('$');
                    if k < a.len() {
                        assert(a.contains(a[k]));
                    } else if k < a.len() + v.len() {
                        assert(v.contains(v[k - a.len()]));
                    } else {
                        assert(b.contains(b[k - a.len() - v.len()]));
                    }
                }
            }
            lemma_no_dollar(t);
            assert(scope.resolve(t, (MAX_PASSES - 1) as nat) == Ok::<Seq<char>, ResolveFailure>(t));
        }
    }
}

/// Replacing goes on until no reference is left: of a text that has become
/// plain after at most 220 rounds, the value is what it has become; one that
/// still holds references then is nested too deeply.
pub proof fn lemma_resolves_in_rounds(scope: Scope, steps: Seq<Seq<char>>)
    requires
        1 <= steps.len() <= 221,
        forall|i: int|
            0 <= i < steps.len() - 1 ==> has_reference(#[trigger] steps[i]) && scope.pass(steps[i], 0)
                == Ok::<Seq<char>, ResolveFailure>(steps[i + 1]),
    ensures
        !has_reference(steps.last()) ==> scope.value(steps[0]) == Ok::<Seq<char>, ResolveFailure>(
            steps.last(),
        ),
        has_reference(steps.last()) && steps.len() == 221 ==> scope.value(steps[0])
            == Err::<Seq<char>, ResolveFailure>(ResolveFailure::TooDeep),
{
    lemma_resolve_steps(scope, steps, 0, MAX_PASSES as nat);
}

proof fn lemma_resolve_steps(scope: Scope, steps: Seq<Seq<char>>, i: int, passes: nat)
    requires
        0 <= i < steps.len(),
        steps.len() - 1 - i <= passes,
        forall|k: int|
            0 <= k < steps.len() - 1 ==> has_reference(#[trigger] steps[k]) && scope.pass(steps[k], 0)
                == Ok::<Seq<char>, ResolveFailure>(steps[k + 1]),
    ensures
        !has_reference(steps.last()) ==> scope.resolve(steps[i], passes) == Ok::<
            Seq<char>,
            ResolveFailure,
        >(steps.last()),
        has_reference(steps.last()) && steps.len() - 1 - i == passes ==> scope.resolve(
            steps[i],
            passes,
        ) == Err::<Seq<char>, ResolveFailure>(ResolveFailure::TooDeep),
    decreases steps.len() - i,
{
    if i < steps.len() - 1 {
        assert(has_reference(steps[i]));
        lemma_resolve_steps(scope, steps, i + 1, (passes - 1) as nat);
    }
}

/// A variable that stands for a reference to itself has no value.
pub proof fn lemma_self_reference_fails(scope: Scope, name: Seq<char>)
    requires
        name.len() > 0,
        !name.contains('{'),
        !name.contains('}'),
        scope.lookup(text::trim(name)) == Ok::<Seq<char>, ResolveFailure>("${{"@ + name + "}}"@),
    ensures
        scope.value("${{"@ + name + "}}"@) == Err::<Seq<char>, ResolveFailure>(
            ResolveFailure::TooDeep,
        ),
{
    let s = "${{"@ + name + "}}"@;
    let e = Seq::<char>::empty();
    lemma_pass_reference(scope, e, name, e);
    assert(e + "${{"@ + name + "}}"@ + e =~= s);
    assert(e + s + e =~= s);
    lemma_resolve_loops(scope, s, MAX_PASSES as nat);
}

proof fn lemma_resolve_loops(scope: Scope, s: Seq<char>, passes: nat)
    requires
        has_reference(s),
        scope.pass(s, 0) == Ok::<Seq<char>, ResolveFailure>(s),
    ensures
        scope.resolve(s, passes) == Err::<Seq<char>, ResolveFailure>(ResolveFailure::TooDeep),
    decreases passes,
{
    if passes > 0 {
        lemma_resolve_loops(scope, s, (passes - 1) as nat);
    }
}

/// A reference to an output of a job that has none of that name fails, naming
/// both.
pub proof fn lemma_missing_output(scope: Scope, job: Seq<char>, key: Seq<char>)
    requires
        !job.contains('.'),
        !(scope.outputs.map.contains_key(job) && scope.outputs.map[job].map.contains_key(key)),
    ensures
        scope.lookup("jobs."@ + job + ".outputs."@ + key) == Err::<Seq<char>, ResolveFailure>(
            ResolveFailure::OutputNotFound(job, key),
        ),
{
    let name = "jobs."@ + job + ".outputs."@ + key;
    reveal_strlit("jobs.");
    assert(name.take(5) =~= "jobs."@);
    lemma_job_output_reads(job, key);
}

/// The name of an output of a job is read as the job and the key.
proof fn lemma_job_output_reads(job: Seq<char>, key: Seq<char>)
    requires
        !job.contains('.'),
    ensures
        job_output("jobs."@ + job + ".outputs."@ + key) == Some((job, key)),
{
    reveal_strlit("jobs.");
    reveal_strlit(".outputs.");
    reveal_strlit("outputs");
    reveal_strlit("outputs.");
    let name = "jobs."@ + job + ".outputs."@ + key;
    let rest = "outputs."@ + key;
    assert(name.skip(5) =~= job + seq!['.'] + rest);
    text::lemma_find_behind(job, '.', rest);
    let after = job + seq!['.'] + rest;
    assert(after.take(job.len() as int) =~= job);
    assert(after.skip(job.len() as int + 1) =~= rest);
    assert(rest =~= "outputs"@ + seq!['.'] + key);
    assert(!"outputs"@.contains('.'));
    text::lemma_find_behind("outputs"@, '.', key);
    assert(rest.take(7) =~= "outputs"@);
    assert(rest.skip(8) =~= key);
}

/// A name that begins with `jobs.` is never looked up as a variable.
pub proof fn lemma_job_names_are_outputs(scope: Scope, rest: Seq<char>)
    ensures
        match scope.lookup("jobs."@ + rest) {
            Ok(v) => exists|job: Seq<char>, key: Seq<char>|
                #![trigger scope.outputs.map[job].map[key]]
                scope.outputs.map.contains_key(job) && scope.outputs.map[job].map.contains_key(key)
                    && scope.outputs.map[job].map[key] == v,
            Err(e) => !(e is VariableNotFound) && !(e is TooDeep),
        },
{
    reveal_strlit("jobs.");
    let name = "jobs."@ + rest;
    assert(name.take(5) =~= "jobs."@);
    if let Some((job, key)) = job_output(name) {
        if scope.output(job, key) is Some {
            assert(scope.outputs.map[job].map[key] == scope.output(job, key)->0);
        }
    }
}

/// Braces with nothing between them are no reference, and neither is text whose
/// braces are not doubled or not closed.
pub proof fn lemma_no_reference(scope: Scope, name: Seq<char>)
    requires
        !name.contains('$'),
        !name.contains('{'),
        !name.contains('}'),
    ensures
        scope.value("${{"@ + "}}"@) == Ok::<Seq<char>, ResolveFailure>("${{"@ + "}}"@),
        scope.value("${"@ + name + "}"@) == Ok::<Seq<char>, ResolveFailure>("${"@ + name + "}"@),
        scope.value("${{"@ + name) == Ok::<Seq<char>, ResolveFailure>("${{"@ + name),
        scope.value("${{"@ + name + "}"@) == Ok::<Seq<char>, ResolveFailure>("${{"@ + name + "}"@),
{
    reveal_strlit("${{");
    reveal_strlit("}}");
    reveal_strlit("${");
    reveal_strlit("}");
    let a = "${{"@ + "}}"@;
    let b = "${"@ + name + "}"@;
    let c = "${{"@ + name;
    let d = "${{"@ + name + "}"@;
    assert forall|i: int| 0 <= i < a.len() implies #[trigger] reference_end(a, i) is None by {
        if i == 0 {
            assert(a[3] == '}');
            assert(brace_from(a, 3) == 3);
        }
    }
    assert forall|i: int| 0 <= i < b.len() implies #[trigger] reference_end(b, i) is None by {
        if i == 0 {
            if name.len() > 0 {
                assert(b[2] == name[0]);
                assert(name.contains(name[0]));
            }
        } else if i >= 2 && i < 2 + name.len() {
            assert(b[i] == name[i - 2]);
            assert(name.contains(name[i - 2]));
        }
    }
    assert forall|i: int| 0 <= i < c.len() implies #[trigger] reference_end(c, i) is None by {
        if i == 0 {
            lemma_brace_end(c, 3);
            assert forall|k: int| 3 <= k < c.len() implies #[trigger] c[k] != '}' by {
                assert(c[k] == name[k - 3]);
                assert(name.contains(name[k - 3]));
            }
        } else if i >= 3 {
            assert(c[i] == name[i - 3]);
            assert(name.contains(name[i - 3]));
        }
    }
    assert forall|i: int| 0 <= i < d.len() implies #[trigger] reference_end(d, i) is None by {
        if i == 0 {
            let n = d.len() - 1;
            assert forall|k: int| 3 <= k < n implies #[trigger] d[k] != '{' && d[k] != '}' by {
                assert(d[k] == name[k - 3]);
                assert(name.contains(name[k - 3]));
            }
            lemma_no_brace(d, 3, n);
        } else if 3 <= i < d.len() - 1 {
            assert(d[i] == name[i - 3]);
            assert(name.contains(name[i - 3]));
        }
    }
    lemma_plain_text(scope, a);
    lemma_plain_text(scope, b);
    lemma_plain_text(scope, c);
    lemma_plain_text(scope, d);
}

proof fn lemma_brace_end(s: Seq<char>, i: int)
    requires
        0 <= i <= s.len(),
    ensures
        i <= brace_from(s, i) <= s.len(),
    decreases s.len() - i,
{
    if i < s.len() && s[i] != '{' && s[i] != '}' {
        lemma_brace_end(s, i + 1);
    }
}

/// Of two references that fail, the last tells why; a reference that fails
/// spoils one that does not.
pub proof fn lemma_last_failure_tells(scope: Scope, x: Seq<char>, b: Seq<char>, y: Seq<char>, e: ResolveFailure)
    requires
        !b.contains('$'),
        x.len() > 0,
        !x.contains('{'),
        !x.contains('}'),
        y.len() > 0,
        !y.contains('{'),
        !y.contains('}'),
        scope.lookup(text::trim(y)) == Err::<Seq<char>, ResolveFailure>(e) || (scope.lookup(
            text::trim(y),
        ) is Ok && scope.lookup(text::trim(x)) == Err::<Seq<char>, ResolveFailure>(e)),
    ensures
        scope.value("${{"@ + x + "}}"@ + (b + "${{"@ + y + "}}"@)) == Err::<Seq<char>, ResolveFailure>(
            e,
        ),
{
    reveal_strlit("${{");
    reveal_strlit("}}");
    let none = Seq::<char>::empty();
    let first = "${{"@ + x + "}}"@;
    let second = b + "${{"@ + y + "}}"@;
    let s = first + second;
    let n = 3 + x.len() as int;
    assert(s[0] == '$' && s[1] == '{' && s[2] == '{' && s[n] == '}' && s[n + 1] == '}');
    assert forall|k: int| 3 <= k < n implies #[trigger] s[k] != '{' && s[k] != '}' by {
        assert(s[k] == x[k - 3]);
        assert(x.contains(x[k - 3]));
    }
    lemma_no_brace(s, 3, n);
    assert(reference_end(s, 0) == Some(n + 2));
    assert(s.subrange(3, n) =~= x);
    lemma_pass_reference(scope, b, y, none);
    assert(b + "${{"@ + y + "}}"@ + none =~= second);
    lemma_pass_shifted(scope, first, second, 0);
    assert(scope.pass(s, n + 2) == scope.pass(second, 0));
}

proof fn lemma_brace_shifted(front: Seq<char>, s: Seq<char>, i: int)
    requires
        0 <= i <= s.len(),
    ensures
        brace_from(front + s, front.len() + i) == front.len() + brace_from(s, i),
    decreases s.len() - i,
{
    let t = front + s;
    if i < s.len() {
        assert(t[front.len() + i] == s[i]);
        if s[i] != '{' && s[i] != '}' {
            lemma_brace_shifted(front, s, i + 1);
        }
    }
}

proof fn lemma_pass_shifted(scope: Scope, front: Seq<char>, s: Seq<char>, i: int)
    requires
        0 <= i <= s.len(),
    ensures
        scope.pass(front + s, front.len() + i) == scope.pass(s, i),
    decreases s.len() - i,
{
    let t = front + s;
    let f = front.len() as int;
    if i < s.len() {
        assert(t[f + i] == s[i]);
        if i + 3 <= s.len() {
            assert(t[f + i + 1] == s[i + 1] && t[f + i + 2] == s[i + 2]);
            lemma_brace_shifted(front, s, i + 3);
            lemma_brace_end(s, i + 3);
            let j = brace_from(s, i + 3);
            if j + 2 <= s.len() {
                assert(t[f + j] == s[j] && t[f + j + 1] == s[j + 1]);
            }
        }
        match reference_end(s, i) {
            Some(end) => {
                assert(reference_end(t, f + i) == Some(f + end));
                assert(t.subrange(f + i + 3, f + end - 2) =~= s.subrange(i + 3, end - 2));
                lemma_pass_shifted(scope, front, s, end);
            },
            None => {
                assert(reference_end(t, f + i) is None);
                lemma_pass_shifted(scope, front, s, i + 1);
            },
        }
    }
}

/// What is said of a failure names what was not found.
pub proof fn lemma_failures_name_causes(job: Seq<char>, key: Seq<char>, name: Seq<char>)
    ensures
        failure_message(ResolveFailure::VariableNotFound(name)) == "Variable '"@ + name
            + "' not found"@,
        failure_message(ResolveFailure::InvalidJobReference(name)) == "Invalid job reference: "@ + name,
        text::starts_with(
            failure_message(ResolveFailure::OutputNotFound(job, key)),
            "Cannot resolve output: jobs."@ + job + ".outputs."@ + key,
        ),
        failure_message(ResolveFailure::TooDeep) == "Variable resolution exceeded max nesting depth"@,
{
    let p = "Cannot resolve output: jobs."@ + job + ".outputs."@ + key;
    let m = failure_message(ResolveFailure::OutputNotFound(job, key));
    assert(m.take(p.len() as int) =~= p);
}

} // verus!
