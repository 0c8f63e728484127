//! Condition expressions: which jobs run, given how others ended.
use vstd::prelude::*;
use vstd::slice::slice_subrange;
use vstd::utf8::encode_utf8;

use crate::models::JobStatus;
use crate::order;
use crate::order::str_le;
use crate::string_map::{StringMap, Table};
use crate::text;
use crate::variables::VariableResolver;
use crate::text::{chars_eq, from_chars, occurs_at_chars, str_eq, to_chars, trim_chars};

verus! {

// ---------------------------------------------------------------------------
// Byte positions

/// The number of bytes of a character in UTF-8.
pub open spec fn utf8_width(c: char) -> nat {
    if (c as u32) < 0x80 {
        1
    } else if (c as u32) < 0x800 {
        2
    } else if (c as u32) < 0x10000 {
        3
    } else {
        4
    }
}

/// The number of bytes of a character in UTF-8.
pub fn char_width(c: char) -> (r: usize)
    ensures
        r == utf8_width(c),
{
    let u: u32 = c as u32;
    if u < 0x80 {
        1
    } else if u < 0x800 {
        2
    } else if u < 0x10000 {
        3
    } else {
        4
    }
}

/// How many leading characters of `s` take exactly `n` bytes; `None` if byte
/// `n` is not where a character begins or the text ends.
pub open spec fn chars_in_bytes(s: Seq<char>, n: int) -> Option<nat>
    decreases s.len(),
{
    if n == 0 {
        Some(0)
    } else if n < 0 || s.len() == 0 {
        None
    } else {
        match chars_in_bytes(s.drop_first(), n - utf8_width(s[0])) {
            Some(k) => Some(k + 1),
            None => None,
        }
    }
}

/// The part of `s` before byte `n`.
pub open spec fn before_byte(s: Seq<char>, n: int) -> Option<Seq<char>> {
    match chars_in_bytes(s, n) {
        Some(k) => Some(s.take(k as int)),
        None => None,
    }
}

/// The part of `s` from byte `n` on.
pub open spec fn from_byte(s: Seq<char>, n: int) -> Option<Seq<char>> {
    match chars_in_bytes(s, n) {
        Some(k) => Some(s.skip(k as int)),
        None => None,
    }
}

/// Characters take at least one byte each.
pub proof fn lemma_chars_in_bytes(s: Seq<char>, n: int)
    ensures
        match chars_in_bytes(s, n) {
            Some(k) => k <= n && k <= s.len() && (n > 0 ==> k > 0),
            None => true,
        },
    decreases s.len(),
{
    if n > 0 && s.len() > 0 {
        lemma_chars_in_bytes(s.drop_first(), n - utf8_width(s[0]));
    }
}

/// In text whose first `n` characters are ASCII, byte positions up to `n` are
/// character positions.
pub proof fn lemma_ascii_bytes(s: Seq<char>, n: int)
    requires
        0 <= n <= s.len(),
        forall|i: int| 0 <= i < n ==> (#[trigger] s[i] as u32) < 0x80,
    ensures
        chars_in_bytes(s, n) == Some(n as nat),
    decreases n,
{
    if n > 0 {
        assert forall|i: int| 0 <= i < n - 1 implies (#[trigger] s.drop_first()[i] as u32) < 0x80 by {
            assert(s.drop_first()[i] == s[i + 1]);
        }
        assert((s[0] as u32) < 0x80);
        lemma_ascii_bytes(s.drop_first(), n - 1);
    }
}

/// How many leading characters of a slice take exactly `n` bytes.
pub fn chars_in_bytes_of(s: &[char], n: usize) -> (r: Option<usize>)
    ensures
        match r {
            Some(k) => chars_in_bytes(s@, n as int) == Some(k as nat) && k <= s@.len(),
            None => chars_in_bytes(s@, n as int) is None,
        },
{
    let mut k: usize = 0;
    let mut left: usize = n;
    assert(s@.skip(0) =~= s@);
    assert(chars_in_bytes(s@.skip(0), n as int) is Some ==> chars_in_bytes(
        s@,
        n as int,
    )->0 == chars_in_bytes(s@.skip(0), n as int)->0 + 0);
    while left > 0
        invariant
            k <= s@.len(),
            match chars_in_bytes(s@.skip(k as int), left as int) {
                Some(m) => chars_in_bytes(s@, n as int) == Some((m + k) as nat),
                None => chars_in_bytes(s@, n as int) is None,
            },
        decreases left,
    {
        if k == s.len() {
            return None;
        }
        let w: usize = char_width(s[k]);
        assert(s@.skip(k as int)[0] == s@[k as int]);
        assert(s@.skip(k as int).drop_first() =~= s@.skip(k + 1));
        if w > left {
            assert(chars_in_bytes(s@.skip(k + 1), left - w) is None);
            return None;
        }
        left = left - w;
        k = k + 1;
    }
    Some(k)
}

// ---------------------------------------------------------------------------
// Operators

/// The first position, from `i` on, where `op` stands outside quotes at
/// nesting depth zero, given the depth and the open quote before `i`.
///
/// A closing parenthesis counts before the position is looked at; an opening
/// one too.
pub open spec fn find_op(s: Seq<char>, op: Seq<char>, i: int, depth: int, quote: Option<char>) -> Option<int>
    decreases s.len() - i,
{
    if i < 0 || i >= s.len() {
        None
    } else if quote is None && (s[i] == '"' || s[i] == '\'') {
        find_op(s, op, i + 1, depth, Some(s[i]))
    } else if quote == Some(s[i]) {
        find_op(s, op, i + 1, depth, None)
    } else if quote is None {
        let d = if s[i] == '(' {
            depth + 1
        } else if s[i] == ')' {
            depth - 1
        } else {
            depth
        };
        if d == 0 && text::occurs_at(s, op, i) {
            Some(i)
        } else {
            find_op(s, op, i + 1, d, None)
        }
    } else {
        find_op(s, op, i + 1, depth, quote)
    }
}

/// The position of the first `op` outside quotes and parentheses.
pub open spec fn operator_at(s: Seq<char>, op: Seq<char>) -> Option<int> {
    find_op(s, op, 0, 0, None)
}

/// Where an operator is found, it stands.
pub proof fn lemma_find_op(s: Seq<char>, op: Seq<char>, i: int, depth: int, quote: Option<char>)
    ensures
        match find_op(s, op, i, depth, quote) {
            Some(k) => i <= k < s.len() && text::occurs_at(s, op, k),
            None => true,
        },
    decreases s.len() - i,
{
    if 0 <= i < s.len() {
        let d = if s[i] == '(' {
            depth + 1
        } else if s[i] == ')' {
            depth - 1
        } else {
            depth
        };
        lemma_find_op(s, op, i + 1, depth, Some(s[i]));
        lemma_find_op(s, op, i + 1, depth, None);
        lemma_find_op(s, op, i + 1, d, None);
        lemma_find_op(s, op, i + 1, depth, quote);
    }
}

/// The position of the first `op` outside quotes and parentheses.
pub fn find_operator(expr: &[char], op: &[char]) -> (r: Option<usize>)
    ensures
        match r {
            Some(i) => operator_at(expr@, op@) == Some(i as int) && i + op@.len() <= expr@.len() && i
                < expr@.len(),
            None => operator_at(expr@, op@) is None,
        },
{
    let mut depth: i128 = 0;
    let mut quote: Option<char> = None;
    let mut i: usize = 0;
    while i < expr.len()
        invariant
            i <= expr@.len(),
            -(i as int) <= depth <= i,
            operator_at(expr@, op@) == find_op(expr@, op@, i as int, depth as int, quote),
        decreases expr@.len() - i,
    {
        let c: char = expr[i];
        match quote {
            None => {
                if c == '"' || c == '\'' {
                    quote = Some(c);
                } else {
                    if c == '(' {
                        depth = depth + 1;
                    } else if c == ')' {
                        depth = depth - 1;
                    }
                    if depth == 0 && occurs_at_chars(expr, op, i) {
                        return Some(i);
                    }
                }
            },
            Some(q) => {
                if c == q {
                    quote = None;
                }
            },
        }
        i = i + 1;
    }
    None
}

/// `s` trimmed and without a pair of quotes around it.
pub open spec fn unquote(s: Seq<char>) -> Seq<char> {
    let t = text::trim(s);
    if t.len() >= 2 && ((t[0] == '"' && t.last() == '"') || (t[0] == '\'' && t.last() == '\'')) {
        t.subrange(1, t.len() - 1)
    } else {
        t
    }
}

/// Text trimmed and without a pair of quotes around it.
pub fn unquote_string(s: &[char]) -> (r: String)
    ensures
        r@ == unquote(s@),
{
    let t = trim_chars(s);
    if t.len() >= 2 {
        let first: char = t[0];
        let last: char = t[t.len() - 1];
        if (first == '"' && last == '"') || (first == '\'' && last == '\'') {
            return from_chars(slice_subrange(t, 1, t.len() - 1));
        }
    }
    from_chars(t)
}

// ---------------------------------------------------------------------------
// Evaluation

/// What stands on the two sides of an operator.
pub enum Operands {
    /// The operator does not occur.
    Absent,
    /// A side would have to begin or end inside a character.
    Broken,
    /// The two sides, unquoted.
    Pair(Seq<char>, Seq<char>),
}

/// The two sides of the first `op` in `s`. The position of the operator is
/// counted in characters and taken as a position in bytes.
pub open spec fn operands(s: Seq<char>, op: Seq<char>) -> Operands {
    match operator_at(s, op) {
        None => Operands::Absent,
        Some(i) => match (before_byte(s, i), from_byte(s, i + op.len())) {
            (Some(l), Some(r)) => Operands::Pair(unquote(text::trim(l)), unquote(text::trim(r))),
            _ => Operands::Broken,
        },
    }
}

/// Whether no job failed, was cancelled or still runs.
pub open spec fn all_fine(statuses: Seq<JobStatus>) -> bool {
    forall|i: int|
        0 <= i < statuses.len() ==> {
            ||| (#[trigger] statuses[i]) == JobStatus::Success
            ||| statuses[i] == JobStatus::Skipped
            ||| statuses[i] == JobStatus::Pending
        }
}

/// Whether some job failed.
pub open spec fn some_failed(statuses: Seq<JobStatus>) -> bool {
    exists|i: int| 0 <= i < statuses.len() && #[trigger] statuses[i] == JobStatus::Failed
}

/// The value of a comparison: the first operator of `==`, `!=`, `>=`, `<=`,
/// `>`, `<` that occurs decides. Without one, the text `true` is true and any
/// other is false.
pub open spec fn compare_value(s: Seq<char>) -> Option<bool> {
    match operands(s, "=="@) {
        Operands::Broken => None,
        Operands::Pair(l, r) => Some(l == r),
        Operands::Absent => match operands(s, "!="@) {
            Operands::Broken => None,
            Operands::Pair(l, r) => Some(l != r),
            Operands::Absent => match operands(s, ">="@) {
                Operands::Broken => None,
                Operands::Pair(l, r) => Some(order::lex_le(r, l)),
                Operands::Absent => match operands(s, "<="@) {
                    Operands::Broken => None,
                    Operands::Pair(l, r) => Some(order::lex_le(l, r)),
                    Operands::Absent => match operands(s, ">"@) {
                        Operands::Broken => None,
                        Operands::Pair(l, r) => Some(!order::lex_le(l, r)),
                        Operands::Absent => match operands(s, "<"@) {
                            Operands::Broken => None,
                            Operands::Pair(l, r) => Some(!order::lex_le(r, l)),
                            Operands::Absent => Some(unquote(s) == "true"@),
                        },
                    },
                },
            },
        },
    }
}

/// The value of a condition, given the statuses of the jobs. `None` if a side
/// of an operator would begin or end inside a character: an operator behind
/// text that is not ASCII is looked up in the wrong place.
pub open spec fn eval(statuses: Seq<JobStatus>, expr: Seq<char>) -> Option<bool>
    decreases expr.len(),
{
    let s = text::trim(expr);
    proof {
        text::lemma_trim_len(expr);
        lemma_find_op(s, "||"@, 0, 0, None);
        lemma_find_op(s, "&&"@, 0, 0, None);
        if let Some(i) = operator_at(s, "||"@) {
            lemma_chars_in_bytes(s, i);
            lemma_chars_in_bytes(s, i + 2);
        }
        if let Some(i) = operator_at(s, "&&"@) {
            lemma_chars_in_bytes(s, i);
            lemma_chars_in_bytes(s, i + 2);
        }
        if s.len() > 0 {
            text::lemma_trim_len(s.drop_first());
        }
    }
    if s == "success()"@ {
        Some(all_fine(statuses))
    } else if s == "failure()"@ {
        Some(some_failed(statuses))
    } else if s == "always()"@ {
        Some(true)
    } else if s == "true"@ {
        Some(true)
    } else if s == "false"@ {
        Some(false)
    } else if s.len() > 0 && s[0] == '(' && s.last() == ')' {
        eval(statuses, s.subrange(1, s.len() - 1))
    } else if s.len() > 0 && s[0] == '!' {
        match eval(statuses, text::trim(s.drop_first())) {
            Some(b) => Some(!b),
            None => None,
        }
    } else if let Some(i) = operator_at(s, "||"@) {
        match before_byte(s, i) {
            Some(l) => match eval(statuses, l) {
                Some(false) => match from_byte(s, i + 2) {
                    Some(r) => eval(statuses, r),
                    None => None,
                },
                other => other,
            },
            None => None,
        }
    } else if let Some(i) = operator_at(s, "&&"@) {
        match before_byte(s, i) {
            Some(l) => match eval(statuses, l) {
                Some(true) => match from_byte(s, i + 2) {
                    Some(r) => eval(statuses, r),
                    None => None,
                },
                other => other,
            },
            None => None,
        }
    } else {
        compare_value(s)
    }
}

enum Sides {
    Absent,
    Broken,
    Pair(String, String),
}

spec fn sides_model(s: Sides) -> Operands {
    match s {
        Sides::Absent => Operands::Absent,
        Sides::Broken => Operands::Broken,
        Sides::Pair(l, r) => Operands::Pair(l@, r@),
    }
}

fn sides(s: &[char], op: &str) -> (r: Sides)
    ensures
        sides_model(r) == operands(s@, op@),
{
    let op_chars = to_chars(op);
    let n: usize = s.len();
    match find_operator(s, op_chars.as_slice()) {
        None => Sides::Absent,
        Some(i) => match (chars_in_bytes_of(s, i), chars_in_bytes_of(s, i + op_chars.len())) {
            (Some(a), Some(b)) => {
                let left = slice_subrange(s, 0, a);
                let right = slice_subrange(s, b, n);
                assert(left@ =~= s@.take(a as int));
                assert(right@ =~= s@.skip(b as int));
                Sides::Pair(unquote_string(trim_chars(left)), unquote_string(trim_chars(right)))
            },
            _ => Sides::Broken,
        },
    }
}

fn chars_are(s: &[char], lit: &str) -> (r: bool)
    ensures
        r == (s@ == lit@),
{
    let l = to_chars(lit);
    chars_eq(s, l.as_slice())
}

fn compare_chars(s: &[char]) -> (r: Option<bool>)
    ensures
        r == compare_value(s@),
{
    match sides(s, "==") {
        Sides::Broken => return None,
        Sides::Pair(l, r) => return Some(str_eq(l.as_str(), r.as_str())),
        Sides::Absent => {},
    }
    match sides(s, "!=") {
        Sides::Broken => return None,
        Sides::Pair(l, r) => return Some(!str_eq(l.as_str(), r.as_str())),
        Sides::Absent => {},
    }
    match sides(s, ">=") {
        Sides::Broken => return None,
        Sides::Pair(l, r) => return Some(str_le(r.as_str(), l.as_str())),
        Sides::Absent => {},
    }
    match sides(s, "<=") {
        Sides::Broken => return None,
        Sides::Pair(l, r) => return Some(str_le(l.as_str(), r.as_str())),
        Sides::Absent => {},
    }
    match sides(s, ">") {
        Sides::Broken => return None,
        Sides::Pair(l, r) => return Some(!str_le(l.as_str(), r.as_str())),
        Sides::Absent => {},
    }
    match sides(s, "<") {
        Sides::Broken => return None,
        Sides::Pair(l, r) => return Some(!str_le(r.as_str(), l.as_str())),
        Sides::Absent => {},
    }
    let v = unquote_string(s);
    Some(str_eq(v.as_str(), "true"))
}

/// Evaluates conditions against the statuses of jobs.
pub struct ConditionEvaluator {
    job_statuses: StringMap<JobStatus>,
}

impl ConditionEvaluator {
    /// The statuses that conditions are evaluated against.
    pub closed spec fn statuses(self) -> Table<JobStatus> {
        self.job_statuses.deep_view()
    }

    /// An evaluator over the given statuses.
    pub fn new(job_statuses: StringMap<JobStatus>) -> (r: Self)
        ensures
            r.statuses() == job_statuses.deep_view(),
    {
        ConditionEvaluator { job_statuses }
    }

    fn all_statuses_fine(&self) -> (r: bool)
        ensures
            r == all_fine(self.statuses().values()),
    {
        let n: usize = self.job_statuses.len();
        let mut i: usize = 0;
        while i < n
            invariant
                n == self.job_statuses.deep_view().order.len(),
                i <= n,
                forall|k: int| 0 <= k < i ==> {
                    ||| (#[trigger] self.statuses().values()[k]) == JobStatus::Success
                    ||| self.statuses().values()[k] == JobStatus::Skipped
                    ||| self.statuses().values()[k] == JobStatus::Pending
                },
            decreases n - i,
        {
            let s: JobStatus = *self.job_statuses.value_at(i);
            assert(self.statuses().values()[i as int] == s);
            match s {
                JobStatus::Success | JobStatus::Skipped | JobStatus::Pending => {},
                _ => {
                    return false;
                },
            }
            i = i + 1;
        }
        true
    }

    fn some_status_failed(&self) -> (r: bool)
        ensures
            r == some_failed(self.statuses().values()),
    {
        let n: usize = self.job_statuses.len();
        let mut i: usize = 0;
        while i < n
            invariant
                n == self.job_statuses.deep_view().order.len(),
                i <= n,
                forall|k: int|
                    0 <= k < i ==> (#[trigger] self.statuses().values()[k]) != JobStatus::Failed,
            decreases n - i,
        {
            let s: JobStatus = *self.job_statuses.value_at(i);
            assert(self.statuses().values()[i as int] == s);
            if s == JobStatus::Failed {
                return true;
            }
            i = i + 1;
        }
        false
    }

    fn eval_chars(&self, expr: &[char]) -> (r: Option<bool>)
        ensures
            r == eval(self.statuses().values(), expr@),
        decreases expr@.len(),
    {
        proof {
            text::lemma_trim_len(expr@);
        }
        let s = trim_chars(expr);
        if chars_are(s, "success()") {
            return Some(self.all_statuses_fine());
        }
        if chars_are(s, "failure()") {
            return Some(self.some_status_failed());
        }
        if chars_are(s, "always()") {
            return Some(true);
        }
        if chars_are(s, "true") {
            return Some(true);
        }
        if chars_are(s, "false") {
            return Some(false);
        }
        if s.len() > 0 && s[0] == '(' && s[s.len() - 1] == ')' {
            return self.eval_chars(slice_subrange(s, 1, s.len() - 1));
        }
        if s.len() > 0 && s[0] == '!' {
            let rest = slice_subrange(s, 1, s.len());
            assert(rest@ =~= s@.drop_first());
            let inner = trim_chars(rest);
            return match self.eval_chars(inner) {
                Some(b) => Some(!b),
                None => None,
            };
        }
        let or = to_chars("||");
        if let Some(i) = find_operator(s, or.as_slice()) {
            proof {
                reveal_strlit("||");
                lemma_chars_in_bytes(s@, i as int);
                lemma_chars_in_bytes(s@, i + 2);
            }
            let a: usize = match chars_in_bytes_of(s, i) {
                Some(a) => a,
                None => return None,
            };
            let left = slice_subrange(s, 0, a);
            assert(left@ =~= s@.take(a as int));
            return match self.eval_chars(left) {
                Some(false) => match chars_in_bytes_of(s, i + 2) {
                    Some(b) => {
                        let right = slice_subrange(s, b, s.len());
                        assert(right@ =~= s@.skip(b as int));
                        self.eval_chars(right)
                    },
                    None => None,
                },
                other => other,
            };
        }
        let and = to_chars("&&");
        if let Some(i) = find_operator(s, and.as_slice()) {
            proof {
                reveal_strlit("&&");
                lemma_chars_in_bytes(s@, i as int);
                lemma_chars_in_bytes(s@, i + 2);
            }
            let a: usize = match chars_in_bytes_of(s, i) {
                Some(a) => a,
                None => return None,
            };
            let left = slice_subrange(s, 0, a);
            assert(left@ =~= s@.take(a as int));
            return match self.eval_chars(left) {
                Some(true) => match chars_in_bytes_of(s, i + 2) {
                    Some(b) => {
                        let right = slice_subrange(s, b, s.len());
                        assert(right@ =~= s@.skip(b as int));
                        self.eval_chars(right)
                    },
                    None => None,
                },
                other => other,
            };
        }
        compare_chars(s)
    }

    /// The value of a condition whose references are resolved.
    pub fn evaluate_inner(&self, expr: &str) -> (r: Result<bool, ConditionError>)
        requires
            eval(self.statuses().values(), expr@) is Some,
        ensures
            r == Ok::<bool, ConditionError>(eval(self.statuses().values(), expr@)->0),
    {
        let v = to_chars(expr);
        match self.eval_chars(v.as_slice()) {
            Some(b) => Ok(b),
            None => Ok(false),
        }
    }

    /// The value of a condition. References are resolved first; a condition
    /// with one that cannot be resolved is taken as it stands.
    pub fn evaluate(
        &self,
        expr: &str,
        resolver: &VariableResolver,
        job_env: &StringMap<String>,
        step_env: &StringMap<String>,
    ) -> (r: Result<bool, ConditionError>)
        requires
            condition_value(
                self.statuses(),
                resolver.scope(job_env.deep_view(), step_env.deep_view()),
                expr@,
            ) is Some,
        ensures
            r == Ok::<bool, ConditionError>(
                condition_value(
                    self.statuses(),
                    resolver.scope(job_env.deep_view(), step_env.deep_view()),
                    expr@,
                )->0,
            ),
    {
        let resolved = resolver.try_resolve_value(expr, job_env, step_env);
        self.evaluate_inner(resolved.as_str())
    }

    /// The value of a condition, or `None` if the condition has none because
    /// an operator stands behind text that is not ASCII.
    pub fn evaluate_checked(
        &self,
        expr: &str,
        resolver: &VariableResolver,
        job_env: &StringMap<String>,
        step_env: &StringMap<String>,
    ) -> (r: Option<bool>)
        ensures
            r == condition_value(
                self.statuses(),
                resolver.scope(job_env.deep_view(), step_env.deep_view()),
                expr@,
            ),
    {
        let resolved = resolver.try_resolve_value(expr, job_env, step_env);
        let v = to_chars(resolved.as_str());
        self.eval_chars(v.as_slice())
    }
}

/// Why a condition could not be evaluated.
#[derive(Debug, Clone)]
pub enum ConditionError {
    /// The operator is none that conditions know.
    UnknownOperator(String),
}

/// The value of a condition: references resolved in `scope`, then evaluated
/// against `statuses`.
pub open spec fn condition_value(statuses: Table<JobStatus>, scope: crate::variables::Scope, expr: Seq<char>) -> Option<bool> {
    eval(statuses.values(), scope.value_or_self(expr))
}

// ---------------------------------------------------------------------------
// Laws

/// White space around a condition does not matter.
pub proof fn lemma_eval_trim(statuses: Seq<JobStatus>, e: Seq<char>)
    ensures
        eval(statuses, text::trim(e)) == eval(statuses, e),
{
    text::lemma_trim_twice(e);
}

/// Parentheses around a condition do not change its value.
pub proof fn lemma_eval_parens(statuses: Seq<JobStatus>, e: Seq<char>)
    ensures
        eval(statuses, seq!['('] + e + seq![')']) == eval(statuses, e),
{
    let s = seq!['('] + e + seq![')'];
    assert(s[0] == '(' && s.last() == ')');
    text::lemma_trim_id(s);
    reveal_strlit("success()");
    reveal_strlit("failure()");
    reveal_strlit("always()");
    reveal_strlit("true");
    reveal_strlit("false");
    assert(s != "success()"@ && s != "failure()"@ && s != "always()"@ && s != "true"@ && s
        != "false"@) by {
        assert("success()"@[0] == 's' && "failure()"@[0] == 'f' && "always()"@[0] == 'a');
        assert("true"@[0] == 't' && "false"@[0] == 'f');
    }
    assert(s.subrange(1, s.len() - 1) =~= e);
}

/// An exclamation mark before a condition negates it.
pub proof fn lemma_eval_not(statuses: Seq<JobStatus>, e: Seq<char>)
    ensures
        eval(statuses, seq!['!'] + e) == (match eval(statuses, e) {
            Some(b) => Some(!b),
            None => None,
        }),
{
    text::lemma_trim_end_behind('!', e);
    let s = seq!['!'] + text::trim_end(e);
    assert(s[0] == '!');
    reveal_strlit("success()");
    reveal_strlit("failure()");
    reveal_strlit("always()");
    reveal_strlit("true");
    reveal_strlit("false");
    assert(s != "success()"@ && s != "failure()"@ && s != "always()"@ && s != "true"@ && s
        != "false"@) by {
        assert("success()"@[0] == 's' && "failure()"@[0] == 'f' && "always()"@[0] == 'a');
        assert("true"@[0] == 't' && "false"@[0] == 'f');
    }
    assert(s.drop_first() =~= text::trim_end(e));
    text::lemma_trim_after_end(e);
    lemma_eval_trim(statuses, e);
}

/// `success()` and `failure()` are never both true.
pub proof fn lemma_success_excludes_failure(statuses: Seq<JobStatus>)
    requires
        all_fine(statuses),
    ensures
        !some_failed(statuses),
{
}

/// Whether all characters of `s` are ASCII.
pub open spec fn is_ascii(s: Seq<char>) -> bool {
    forall|i: int| 0 <= i < s.len() ==> (#[trigger] s[i] as u32) < 0x80
}

/// Trimming ASCII text leaves ASCII text.
pub proof fn lemma_trim_ascii(s: Seq<char>)
    requires
        is_ascii(s),
    ensures
        is_ascii(text::trim(s)),
{
    lemma_trim_start_ascii(s);
    lemma_trim_end_ascii(text::trim_start(s));
}

proof fn lemma_trim_start_ascii(s: Seq<char>)
    requires
        is_ascii(s),
    ensures
        is_ascii(text::trim_start(s)),
    decreases s.len(),
{
    if s.len() > 0 && text::is_space(s[0]) {
        assert(forall|i: int| 0 <= i < s.drop_first().len() ==> #[trigger] s.drop_first()[i] == s[i + 1]);
        lemma_trim_start_ascii(s.drop_first());
    }
}

proof fn lemma_trim_end_ascii(s: Seq<char>)
    requires
        is_ascii(s),
    ensures
        is_ascii(text::trim_end(s)),
    decreases s.len(),
{
    if s.len() > 0 && text::is_space(s.last()) {
        lemma_trim_end_ascii(s.drop_last());
    }
}

proof fn lemma_operands_ascii(s: Seq<char>, op: Seq<char>)
    requires
        is_ascii(s),
    ensures
        operands(s, op) !is Broken,
{
    lemma_find_op(s, op, 0, 0, None);
    if let Some(i) = operator_at(s, op) {
        lemma_ascii_bytes(s, i);
        lemma_ascii_bytes(s, i + op.len());
    }
}

/// A condition of ASCII characters always has a value.
pub proof fn lemma_ascii_evaluates(statuses: Seq<JobStatus>, e: Seq<char>)
    requires
        is_ascii(e),
    ensures
        eval(statuses, e) is Some,
    decreases e.len(), 1int,
{
    let s = text::trim(e);
    lemma_trim_ascii(e);
    text::lemma_trim_len(e);
    if s.len() > 0 && s[0] == '(' && s.last() == ')' {
        assert(forall|i: int|
            0 <= i < s.len() - 2 ==> #[trigger] s.subrange(1, s.len() - 1)[i] == s[i + 1]);
        lemma_ascii_evaluates(statuses, s.subrange(1, s.len() - 1));
    } else if s.len() > 0 && s[0] == '!' {
        assert(forall|i: int| 0 <= i < s.len() - 1 ==> #[trigger] s.drop_first()[i] == s[i + 1]);
        lemma_trim_ascii(s.drop_first());
        text::lemma_trim_len(s.drop_first());
        lemma_ascii_evaluates(statuses, text::trim(s.drop_first()));
    } else {
        reveal_strlit("||");
        reveal_strlit("&&");
        lemma_find_op(s, "||"@, 0, 0, None);
        lemma_find_op(s, "&&"@, 0, 0, None);
        if let Some(i) = operator_at(s, "||"@) {
            lemma_ascii_sides(statuses, s, i);
        } else if let Some(i) = operator_at(s, "&&"@) {
            lemma_ascii_sides(statuses, s, i);
        } else {
            lemma_operands_ascii(s, "=="@);
            lemma_operands_ascii(s, "!="@);
            lemma_operands_ascii(s, ">="@);
            lemma_operands_ascii(s, "<="@);
            lemma_operands_ascii(s, ">"@);
            lemma_operands_ascii(s, "<"@);
        }
    }
}

proof fn lemma_ascii_sides(statuses: Seq<JobStatus>, s: Seq<char>, i: int)
    requires
        is_ascii(s),
        0 <= i,
        i + 2 <= s.len(),
    ensures
        before_byte(s, i) == Some(s.take(i)),
        from_byte(s, i + 2) == Some(s.skip(i + 2)),
        eval(statuses, s.take(i)) is Some,
        eval(statuses, s.skip(i + 2)) is Some,
    decreases s.len(), 0int,
{
    lemma_ascii_bytes(s, i);
    lemma_ascii_bytes(s, i + 2);
    assert(forall|k: int| 0 <= k < s.len() - i - 2 ==> #[trigger] s.skip(i + 2)[k] == s[k + i + 2]);
    lemma_ascii_evaluates(statuses, s.take(i));
    lemma_ascii_evaluates(statuses, s.skip(i + 2));
}

// ---------------------------------------------------------------------------
// Laws of comparisons

/// Whether text can stand as an operand without quotes: it is ASCII, is not
/// empty, has no white space around it, and holds no quote, no parenthesis and
/// no character of an operator.
pub open spec fn is_word(w: Seq<char>) -> bool {
    &&& w.len() > 0
    &&& !text::is_space(w[0])
    &&& !text::is_space(w.last())
    &&& forall|i: int|
        0 <= i < w.len() ==> {
            &&& (#[trigger] w[i] as u32) < 0x80
            &&& w[i] != '"' && w[i] != '\'' && w[i] != '(' && w[i] != ')'
            &&& w[i] != '=' && w[i] != '!' && w[i] != '<' && w[i] != '>' && w[i] != '&' && w[i] != '|'
        }
}

proof fn lemma_op_absent(s: Seq<char>, op: Seq<char>, i: int, depth: int, quote: Option<char>)
    requires
        0 <= i <= s.len(),
        forall|k: int| i <= k < s.len() ==> !#[trigger] text::occurs_at(s, op, k),
    ensures
        find_op(s, op, i, depth, quote) is None,
    decreases s.len() - i,
{
    if i < s.len() {
        assert(!text::occurs_at(s, op, i));
        let d = if s[i] == '(' {
            depth + 1
        } else if s[i] == ')' {
            depth - 1
        } else {
            depth
        };
        lemma_op_absent(s, op, i + 1, depth, Some(s[i]));
        lemma_op_absent(s, op, i + 1, depth, None);
        lemma_op_absent(s, op, i + 1, d, None);
        lemma_op_absent(s, op, i + 1, depth, quote);
    }
}

proof fn lemma_char_absent(s: Seq<char>, op: Seq<char>, c: char, depth: int, quote: Option<char>)
    requires
        op.len() > 0,
        op[0] == c,
        forall|k: int| 0 <= k < s.len() ==> #[trigger] s[k] != c,
    ensures
        find_op(s, op, 0, depth, quote) is None,
{
    assert forall|k: int| 0 <= k < s.len() implies !#[trigger] text::occurs_at(s, op, k) by {
        if text::occurs_at(s, op, k) {
            assert(s.subrange(k, k + op.len())[0] == s[k]);
        }
    }
    lemma_op_absent(s, op, 0, depth, quote);
}

/// Text that holds a character that none of them holds is none of the fixed
/// conditions.
proof fn lemma_no_fixed_condition(s: Seq<char>, n: int)
    requires
        0 <= n < s.len(),
        s[n] == '=' || s[n] == '!' || s[n] == '<' || s[n] == '>' || s[n] == '&' || s[n] == '|',
    ensures
        s != "success()"@,
        s != "failure()"@,
        s != "always()"@,
        s != "true"@,
        s != "false"@,
{
    reveal_strlit("success()");
    reveal_strlit("failure()");
    reveal_strlit("always()");
    reveal_strlit("true");
    reveal_strlit("false");
}

proof fn lemma_word_unquotes(a: Seq<char>, w: Seq<char>, b: Seq<char>)
    requires
        is_word(w),
        forall|i: int| 0 <= i < a.len() ==> text::is_space(#[trigger] a[i]),
        forall|i: int| 0 <= i < b.len() ==> text::is_space(#[trigger] b[i]),
    ensures
        unquote(text::trim(a + w + b)) == w,
        unquote(w) == w,
{
    text::lemma_trim_between(a, w, b);
    text::lemma_trim_id(w);
    assert(w[0] != '"' && w[0] != '\'');
}

/// Two texts compare as their operator says: equal or not, and before or
/// behind each other in the order of texts.
pub proof fn lemma_compare_words(statuses: Seq<JobStatus>, l: Seq<char>, r: Seq<char>)
    requires
        is_word(l),
        is_word(r),
    ensures
        eval(statuses, l + " == "@ + r) == Some(l == r),
        eval(statuses, l + " != "@ + r) == Some(l != r),
        eval(statuses, l + " <= "@ + r) == Some(order::lex_le(l, r)),
        eval(statuses, l + " >= "@ + r) == Some(order::lex_le(r, l)),
        eval(statuses, l + " < "@ + r) == Some(order::lex_le(l, r) && l != r),
        eval(statuses, l + " > "@ + r) == Some(order::lex_le(r, l) && l != r),
{
    reveal_strlit(" ");
    reveal_strlit("==");
    reveal_strlit("!=");
    reveal_strlit(">=");
    reveal_strlit("<=");
    reveal_strlit(">");
    reveal_strlit("<");
    reveal_strlit(" == ");
    reveal_strlit(" != ");
    reveal_strlit(" >= ");
    reveal_strlit(" <= ");
    reveal_strlit(" > ");
    reveal_strlit(" < ");
    assert(l + " == "@ + r =~= l + " "@ + "=="@ + " "@ + r);
    assert(l + " != "@ + r =~= l + " "@ + "!="@ + " "@ + r);
    assert(l + " >= "@ + r =~= l + " "@ + ">="@ + " "@ + r);
    assert(l + " <= "@ + r =~= l + " "@ + "<="@ + " "@ + r);
    assert(l + " > "@ + r =~= l + " "@ + ">"@ + " "@ + r);
    assert(l + " < "@ + r =~= l + " "@ + "<"@ + " "@ + r);
    lemma_compare_operands(statuses, l, None, " "@, " "@, r, None);
}

/// Each comparison of two texts is the negation of its opposite, and swapping
/// the texts turns each order around.
pub proof fn lemma_comparisons_oppose(statuses: Seq<JobStatus>, l: Seq<char>, r: Seq<char>)
    requires
        is_word(l),
        is_word(r),
    ensures
        eval(statuses, l + " != "@ + r) == Some(!(eval(statuses, l + " == "@ + r)->0)),
        eval(statuses, l + " > "@ + r) == Some(!(eval(statuses, l + " <= "@ + r)->0)),
        eval(statuses, l + " < "@ + r) == Some(!(eval(statuses, l + " >= "@ + r)->0)),
        eval(statuses, l + " > "@ + r) == eval(statuses, r + " < "@ + l),
        eval(statuses, l + " >= "@ + r) == eval(statuses, r + " <= "@ + l),
        eval(statuses, l + " == "@ + r) == eval(statuses, r + " == "@ + l),
        eval(statuses, l + " == "@ + l) == Some(true),
{
    lemma_compare_words(statuses, l, r);
    lemma_compare_words(statuses, r, l);
    lemma_compare_words(statuses, l, l);
    order::lemma_text_order_total();
    assert(order::text_order()(l, r) == order::lex_le(l, r));
    assert(order::text_order()(r, l) == order::lex_le(r, l));
    assert(order::text_order()(l, l) == order::lex_le(l, l));
}

// ---------------------------------------------------------------------------
// Laws of the other conditions

/// `success()` holds exactly if no job has failed, was cancelled or still runs,
/// `failure()` exactly if one has failed, and `always()` whatever happened.
pub proof fn lemma_eval_statuses(statuses: Seq<JobStatus>)
    ensures
        eval(statuses, "success()"@) == Some(
            !exists|i: int|
                0 <= i < statuses.len() && (#[trigger] statuses[i] == JobStatus::Failed || statuses[i]
                    == JobStatus::Cancelled || statuses[i] == JobStatus::Running),
        ),
        eval(statuses, "failure()"@) == Some(
            exists|i: int| 0 <= i < statuses.len() && #[trigger] statuses[i] == JobStatus::Failed,
        ),
        eval(statuses, "always()"@) == Some(true),
        eval(statuses, "true"@) == Some(true),
        eval(statuses, "false"@) == Some(false),
{
    reveal_strlit("success()");
    reveal_strlit("failure()");
    reveal_strlit("always()");
    reveal_strlit("true");
    reveal_strlit("false");
    text::lemma_trim_id("success()"@);
    text::lemma_trim_id("failure()"@);
    text::lemma_trim_id("always()"@);
    text::lemma_trim_id("true"@);
    text::lemma_trim_id("false"@);
    assert("success()"@[0] == 's' && "failure()"@[0] == 'f' && "always()"@[0] == 'a');
    assert("true"@[0] == 't' && "false"@[0] == 'f');
    assert("failure()"@.len() == 9 && "false"@.len() == 5);
    if !all_fine(statuses) {
        let i = choose|i: int|
            0 <= i < statuses.len() && !({
                ||| (#[trigger] statuses[i]) == JobStatus::Success
                ||| statuses[i] == JobStatus::Skipped
                ||| statuses[i] == JobStatus::Pending
            });
        assert(statuses[i] == JobStatus::Failed || statuses[i] == JobStatus::Cancelled || statuses[i]
            == JobStatus::Running);
    }
}

/// A text alone is true exactly if it is the word `true`.
pub proof fn lemma_eval_word(statuses: Seq<JobStatus>, w: Seq<char>)
    requires
        is_word(w),
    ensures
        eval(statuses, w) == Some(w == "true"@),
{
    reveal_strlit("success()");
    reveal_strlit("failure()");
    reveal_strlit("always()");
    reveal_strlit("true");
    reveal_strlit("false");
    reveal_strlit("==");
    reveal_strlit("!=");
    reveal_strlit(">=");
    reveal_strlit("<=");
    reveal_strlit(">");
    reveal_strlit("<");
    reveal_strlit("||");
    reveal_strlit("&&");
    text::lemma_trim_id(w);
    assert(w != "success()"@ && w != "failure()"@ && w != "always()"@) by {
        assert("success()"@[7] == '(' && "failure()"@[7] == '(' && "always()"@[6] == '(');
    }
    assert("true"@[0] == 't' && "false"@[0] == 'f');
    assert(w[0] != '(' && w[0] != '!');
    lemma_char_absent(w, "||"@, '|', 0, None);
    lemma_char_absent(w, "&&"@, '&', 0, None);
    lemma_char_absent(w, "=="@, '=', 0, None);
    lemma_char_absent(w, "!="@, '!', 0, None);
    lemma_char_absent(w, ">="@, '>', 0, None);
    lemma_char_absent(w, "<="@, '<', 0, None);
    lemma_char_absent(w, ">"@, '>', 0, None);
    lemma_char_absent(w, "<"@, '<', 0, None);
    lemma_word_unquotes(Seq::empty(), w, Seq::empty());
}

/// Whether text can stand before `&&` and `||`: it is ASCII, is not empty, has
/// no white space around it, holds no quote, no parenthesis, no `&` and no `|`,
/// and does not begin with an exclamation mark.
pub open spec fn is_clause(a: Seq<char>) -> bool {
    &&& a.len() > 0
    &&& !text::is_space(a[0])
    &&& !text::is_space(a.last())
    &&& a[0] != '!'
    &&& forall|i: int|
        0 <= i < a.len() ==> {
            &&& (#[trigger] a[i] as u32) < 0x80
            &&& a[i] != '"' && a[i] != '\'' && a[i] != '(' && a[i] != ')'
            &&& a[i] != '&' && a[i] != '|'
        }
}

/// Whether text can stand behind `&&` and `||`: it is ASCII, is not empty and
/// has no white space around it.
pub open spec fn is_rest(b: Seq<char>) -> bool {
    &&& b.len() > 0
    &&& !text::is_space(b[0])
    &&& !text::is_space(b.last())
    &&& forall|i: int| 0 <= i < b.len() ==> (#[trigger] b[i] as u32) < 0x80
}

proof fn lemma_sides_of_clause(statuses: Seq<JobStatus>, a: Seq<char>, op: Seq<char>, b: Seq<char>)
    requires
        is_clause(a),
        is_rest(b),
        op == "&&"@ || op == "||"@,
    ensures
        ({
            let s = a + " "@ + op + " "@ + b;
            let n = a.len() as int + 1;
            &&& text::trim(s) == s
            &&& operator_at(s, op) == Some(n)
            &&& before_byte(s, n) == Some(s.take(n))
            &&& from_byte(s, n + 2) == Some(s.skip(n + 2))
            &&& eval(statuses, s.take(n)) == eval(statuses, a)
            &&& eval(statuses, s.skip(n + 2)) == eval(statuses, b)
            &&& eval(statuses, a) is Some
            &&& eval(statuses, b) is Some
            &&& s[0] == a[0]
            &&& s != "success()"@ && s != "failure()"@ && s != "always()"@ && s != "true"@ && s
                != "false"@
        }),
{
    reveal_strlit(" ");
    reveal_strlit("||");
    reveal_strlit("&&");
    let s = a + " "@ + op + " "@ + b;
    let n = a.len() as int + 1;
    assert(s[0] == a[0]);
    assert(s.last() == b.last());
    text::lemma_trim_id(s);
    assert(is_ascii(s)) by {
        assert forall|k: int| 0 <= k < s.len() implies (#[trigger] s[k] as u32) < 0x80 by {
            if k < n - 1 {
                assert(s[k] == a[k]);
            } else if k > n + 2 {
                assert(s[k] == b[k - n - 3]);
            }
        }
    }
    assert forall|k: int| 0 <= k < n implies #[trigger] s[k] != '&' && s[k] != '|' && s[k] != '"'
        && s[k] != '\'' && s[k] != '(' && s[k] != ')' by {
        if k < n - 1 {
            assert(s[k] == a[k]);
        }
    }
    assert(s[n] == op[0]);
    assert(s.subrange(n, n + 2) =~= op);
    assert forall|k: int| 0 <= k < n implies !#[trigger] text::occurs_at(s, op, k) by {
        if text::occurs_at(s, op, k) {
            assert(s.subrange(k, k + op.len())[0] == s[k]);
        }
    }
    lemma_op_first_behind(s, op, 0, n);
    lemma_no_fixed_condition(s, n);
    lemma_ascii_bytes(s, n);
    lemma_ascii_bytes(s, n + 2);
    assert(s.take(n) =~= Seq::<char>::empty() + a + " "@);
    assert(s.skip(n + 2) =~= " "@ + b + Seq::<char>::empty());
    text::lemma_trim_between(Seq::empty(), a, " "@);
    text::lemma_trim_between(" "@, b, Seq::empty());
    lemma_eval_trim(statuses, s.take(n));
    lemma_eval_trim(statuses, s.skip(n + 2));
    lemma_ascii_evaluates(statuses, a);
    lemma_ascii_evaluates(statuses, b);
}

proof fn lemma_op_first_behind(s: Seq<char>, op: Seq<char>, i: int, n: int)
    requires
        0 <= i <= n < s.len(),
        forall|k: int|
            i <= k < n ==> #[trigger] s[k] != '"' && s[k] != '\'' && s[k] != '(' && s[k] != ')',
        s[n] != '"' && s[n] != '\'' && s[n] != '(' && s[n] != ')',
        text::occurs_at(s, op, n),
        forall|k: int| i <= k < n ==> !#[trigger] text::occurs_at(s, op, k),
    ensures
        find_op(s, op, i, 0, None) == Some(n),
    decreases n - i,
{
    if i < n {
        assert(s[i] != '"' && s[i] != '\'' && s[i] != '(' && s[i] != ')');
        assert(!text::occurs_at(s, op, i));
        lemma_op_first_behind(s, op, i + 1, n);
    }
}

/// `||` holds if one of its sides does; the right side may be any condition.
pub proof fn lemma_eval_or(statuses: Seq<JobStatus>, a: Seq<char>, b: Seq<char>)
    requires
        is_clause(a),
        is_rest(b),
    ensures
        eval(statuses, a) is Some,
        eval(statuses, b) is Some,
        eval(statuses, a + " || "@ + b) == Some(eval(statuses, a)->0 || eval(statuses, b)->0),
{
    reveal_strlit(" ");
    reveal_strlit("||");
    reveal_strlit(" || ");
    assert(a + " || "@ + b =~= a + " "@ + "||"@ + " "@ + b);
    assert(a[0] != '(');
    lemma_sides_of_clause(statuses, a, "||"@, b);
}

/// `&&` holds if both of its sides do; the right side may be any condition
/// without `|`, which would bind less tightly.
pub proof fn lemma_eval_and(statuses: Seq<JobStatus>, a: Seq<char>, b: Seq<char>)
    requires
        is_clause(a),
        is_rest(b),
        forall|i: int| 0 <= i < b.len() ==> #[trigger] b[i] != '|',
    ensures
        eval(statuses, a) is Some,
        eval(statuses, b) is Some,
        eval(statuses, a + " && "@ + b) == Some(eval(statuses, a)->0 && eval(statuses, b)->0),
{
    reveal_strlit(" ");
    reveal_strlit("&&");
    reveal_strlit("||");
    reveal_strlit(" && ");
    let s = a + " && "@ + b;
    assert(s =~= a + " "@ + "&&"@ + " "@ + b);
    assert(a[0] != '(');
    lemma_sides_of_clause(statuses, a, "&&"@, b);
    assert forall|k: int| 0 <= k < s.len() implies #[trigger] s[k] != '|' by {
        if k < a.len() {
            assert(s[k] == a[k]);
        } else if k >= a.len() + 4 {
            assert(s[k] == b[k - a.len() - 4]);
        }
    }
    lemma_char_absent(s, "||"@, '|', 0, None);
}

/// `||` binds less tightly than `&&`: of three conditions, the last may hold
/// alone.
pub proof fn lemma_or_binds_less(statuses: Seq<JobStatus>, a: Seq<char>, b: Seq<char>, c: Seq<char>)
    requires
        is_clause(a),
        is_clause(b),
        is_rest(c),
    ensures
        eval(statuses, a + " && "@ + b + " || "@ + c) == Some(
            (eval(statuses, a)->0 && eval(statuses, b)->0) || eval(statuses, c)->0,
        ),
{
    reveal_strlit(" ");
    reveal_strlit("&&");
    reveal_strlit("||");
    reveal_strlit(" && ");
    reveal_strlit(" || ");
    let l = a + " && "@ + b;
    let s = l + " || "@ + c;
    let n = l.len() as int + 1;
    lemma_eval_and(statuses, a, b);
    assert forall|k: int| 0 <= k < l.len() implies (#[trigger] l[k] as u32) < 0x80 && l[k] != '|' && l[k]
        != '"' && l[k] != '\'' && l[k] != '(' && l[k] != ')' by {
        if k < a.len() {
            assert(l[k] == a[k]);
        } else if k >= a.len() + 4 {
            assert(l[k] == b[k - a.len() - 4]);
        }
    }
    assert(s[0] == a[0]);
    assert(a[0] != '(' && a[0] != '!');
    assert(s.last() == c.last());
    text::lemma_trim_id(s);
    assert(is_ascii(s)) by {
        assert forall|k: int| 0 <= k < s.len() implies (#[trigger] s[k] as u32) < 0x80 by {
            if k < n - 1 {
                assert(s[k] == l[k]);
            } else if k > n + 2 {
                assert(s[k] == c[k - n - 3]);
            }
        }
    }
    assert forall|k: int| 0 <= k < n implies #[trigger] s[k] != '|' && s[k] != '"' && s[k] != '\'' && s[k]
        != '(' && s[k] != ')' by {
        if k < n - 1 {
            assert(s[k] == l[k]);
        }
    }
    assert(s[n] == '|');
    assert(s.subrange(n, n + 2) =~= "||"@);
    assert forall|k: int| 0 <= k < n implies !#[trigger] text::occurs_at(s, "||"@, k) by {
        if text::occurs_at(s, "||"@, k) {
            assert(s.subrange(k, k + 2)[0] == s[k]);
        }
    }
    lemma_op_first_behind(s, "||"@, 0, n);
    lemma_no_fixed_condition(s, n);
    lemma_ascii_bytes(s, n);
    lemma_ascii_bytes(s, n + 2);
    assert(s.take(n) =~= Seq::<char>::empty() + l + " "@);
    assert(s.skip(n + 2) =~= " "@ + c + Seq::<char>::empty());
    assert(l[0] == a[0] && l.last() == b.last());
    text::lemma_trim_between(Seq::empty(), l, " "@);
    text::lemma_trim_between(" "@, c, Seq::empty());
    lemma_eval_trim(statuses, s.take(n));
    lemma_eval_trim(statuses, s.skip(n + 2));
    lemma_ascii_evaluates(statuses, c);
}

/// `success()` and `failure()` can be joined with other conditions.
pub proof fn lemma_eval_status_and(statuses: Seq<JobStatus>, b: Seq<char>)
    requires
        is_rest(b),
        forall|i: int| 0 <= i < b.len() ==> #[trigger] b[i] != '|',
    ensures
        eval(statuses, b) is Some,
        eval(statuses, "success() && "@ + b) == Some(
            eval(statuses, "success()"@)->0 && eval(statuses, b)->0,
        ),
        eval(statuses, "failure() && "@ + b) == Some(
            eval(statuses, "failure()"@)->0 && eval(statuses, b)->0,
        ),
{
    reveal_strlit("success()");
    reveal_strlit("failure()");
    reveal_strlit("success() && ");
    reveal_strlit("failure() && ");
    assert("success() && "@.take(9) =~= "success()"@);
    lemma_status_first(statuses, "success()"@, "success() && "@, b);
    assert("failure() && "@.take(9) =~= "failure()"@);
    lemma_status_first(statuses, "failure()"@, "failure() && "@, b);
}

proof fn lemma_status_first(statuses: Seq<JobStatus>, f: Seq<char>, p: Seq<char>, b: Seq<char>)
    requires
        is_rest(b),
        forall|i: int| 0 <= i < b.len() ==> #[trigger] b[i] != '|',
        f.len() == 9,
        p.len() == 13,
        p.take(9) == f,
        f == "success()"@ || f == "failure()"@,
        p[9] == ' ' && p[10] == '&' && p[11] == '&' && p[12] == ' ',
    ensures
        eval(statuses, b) is Some,
        eval(statuses, p + b) == Some(eval(statuses, f)->0 && eval(statuses, b)->0),
{
    reveal_strlit("success()");
    reveal_strlit("failure()");
    reveal_strlit("&&");
    reveal_strlit("||");
    reveal_strlit(" ");
    let s = p + b;
    assert forall|k: int| 0 <= k < 9 implies #[trigger] s[k] == f[k] by {
        assert(p.take(9)[k] == p[k]);
    }
    assert(s[9] == ' ' && s[10] == '&' && s[11] == '&' && s[12] == ' ');
    assert(f[7] == '(' && f[8] == ')');
    assert forall|k: int| 0 <= k < 7 implies 'a' <= #[trigger] f[k] <= 'z' by {}
    assert(s[0] == f[0]);
    assert(s.last() == b.last());
    text::lemma_trim_id(s);
    assert forall|k: int| 0 <= k < s.len() implies (#[trigger] s[k] as u32) < 0x80 && s[k] != '|' by {
        if k < 7 {
            assert(s[k] == f[k]);
        } else if k >= 13 {
            assert(s[k] == b[k - 13]);
        }
    }
    assert(is_ascii(s));
    lemma_char_absent(s, "||"@, '|', 0, None);
    lemma_no_fixed_condition(s, 10);
    assert(s.subrange(10, 12) =~= "&&"@);
    assert forall|k: int| 0 <= k < 10 implies !#[trigger] text::occurs_at(s, "&&"@, k) by {
        if text::occurs_at(s, "&&"@, k) {
            assert(s.subrange(k, k + 2)[0] == s[k]);
            if k < 7 {
                assert(s[k] == f[k]);
            }
        }
    }
    assert(find_op(s, "&&"@, 10, 0, None) == Some(10int));
    assert(find_op(s, "&&"@, 9, 0, None) == Some(10int)) by {
        assert(!text::occurs_at(s, "&&"@, 9));
    }
    assert(find_op(s, "&&"@, 8, 1, None) == Some(10int)) by {
        assert(!text::occurs_at(s, "&&"@, 8));
        assert(s[8] == ')');
    }
    assert(s[7] == '(');
    assert(find_op(s, "&&"@, 7, 0, None) == Some(10int));
    lemma_letters_pass(s, "&&"@, 0, 7);
    lemma_ascii_bytes(s, 10);
    lemma_ascii_bytes(s, 12);
    assert(s.take(10) =~= Seq::<char>::empty() + f + " "@);
    assert(s.skip(12) =~= " "@ + b + Seq::<char>::empty());
    assert(!text::is_space(f[0]) && !text::is_space(f.last()));
    text::lemma_trim_between(Seq::empty(), f, " "@);
    text::lemma_trim_between(" "@, b, Seq::empty());
    lemma_eval_trim(statuses, s.take(10));
    lemma_eval_trim(statuses, s.skip(12));
    lemma_ascii_evaluates(statuses, b);
    lemma_eval_statuses(statuses);
    assert(s[0] != '(' && s[0] != '!');
}

proof fn lemma_letters_pass(s: Seq<char>, op: Seq<char>, i: int, n: int)
    requires
        0 <= i <= n < s.len(),
        forall|k: int|
            i <= k < n ==> #[trigger] s[k] != '"' && s[k] != '\'' && s[k] != '(' && s[k] != ')',
        forall|k: int| i <= k < n ==> !#[trigger] text::occurs_at(s, op, k),
    ensures
        find_op(s, op, i, 0, None) == find_op(s, op, n, 0, None),
    decreases n - i,
{
    if i < n {
        assert(s[i] != '"' && s[i] != '\'' && s[i] != '(' && s[i] != ')');
        assert(!text::occurs_at(s, op, i));
        lemma_letters_pass(s, op, i + 1, n);
    }
}

proof fn lemma_quoted_pass(s: Seq<char>, op: Seq<char>, i: int, n: int, q: char)
    requires
        1 <= i <= n < s.len(),
        s[n] == q,
        forall|k: int| i <= k < n ==> #[trigger] s[k] != q,
    ensures
        find_op(s, op, i, 0, Some(q)) == find_op(s, op, n + 1, 0, None),
    decreases n - i,
{
    if i < n {
        assert(s[i] != q);
        lemma_quoted_pass(s, op, i + 1, n, q);
    }
}

/// Parentheses hold together what stands between them.
pub proof fn lemma_eval_grouped(statuses: Seq<JobStatus>, a: Seq<char>, b: Seq<char>, c: Seq<char>)
    requires
        is_clause(a),
        is_clause(b),
        is_clause(c),
    ensures
        eval(statuses, a + " && ("@ + b + " || "@ + c + ")"@) == Some(
            eval(statuses, a)->0 && (eval(statuses, b)->0 || eval(statuses, c)->0),
        ),
{
    reveal_strlit(" ");
    reveal_strlit("&&");
    reveal_strlit("||");
    reveal_strlit(" && (");
    reveal_strlit(" || ");
    reveal_strlit(")");
    let inner = b + " || "@ + c;
    let group = seq!['('] + inner + seq![')'];
    let s = a + " && ("@ + b + " || "@ + c + ")"@;
    let n = a.len() as int + 1;
    let open = n + 3;
    let end = s.len() - 1;
    assert(s =~= a + " "@ + "&&"@ + " "@ + group);
    lemma_eval_or(statuses, b, c);
    lemma_eval_parens(statuses, inner);
    assert(group[0] == '(' && group.last() == ')');
    assert(is_rest(group)) by {
        assert forall|k: int| 0 <= k < group.len() implies (#[trigger] group[k] as u32) < 0x80 by {
            if 1 <= k <= b.len() {
                assert(group[k] == b[k - 1]);
            } else if b.len() + 5 <= k < group.len() - 1 {
                assert(group[k] == c[k - b.len() - 5]);
            }
        }
    }
    lemma_sides_of_clause(statuses, a, "&&"@, group);
    assert(a[0] != '(' && a[0] != '!');
    // No `||` stands outside the parentheses.
    assert(s[open] == '(' && s[end] == ')');
    assert forall|k: int| 0 <= k < open implies #[trigger] s[k] != '"' && s[k] != '\'' && s[k] != '('
        && s[k] != ')' && s[k] != '|' by {
        if k < n - 1 {
            assert(s[k] == a[k]);
        }
    }
    assert forall|k: int| 0 <= k < open implies !#[trigger] text::occurs_at(s, "||"@, k) by {
        if text::occurs_at(s, "||"@, k) {
            assert(s.subrange(k, k + 2)[0] == s[k]);
        }
    }
    lemma_letters_pass(s, "||"@, 0, open);
    assert forall|k: int| open < k < end implies #[trigger] s[k] != '"' && s[k] != '\'' && s[k] != '('
        && s[k] != ')' by {
        if k <= open + b.len() {
            assert(s[k] == b[k - open - 1]);
        } else if k >= open + b.len() + 5 {
            assert(s[k] == c[k - open - b.len() - 5]);
        }
    }
    lemma_inside_hidden(s, "||"@, open + 1, end);
    assert(find_op(s, "||"@, end + 1, 0, None) is None);
    assert(find_op(s, "||"@, end, 1, None) is None) by {
        if text::occurs_at(s, "||"@, end) {
            assert(end + 2 <= s.len());
        }
    }
}

proof fn lemma_inside_hidden(s: Seq<char>, op: Seq<char>, i: int, n: int)
    requires
        0 <= i <= n < s.len(),
        forall|k: int|
            i <= k < n ==> #[trigger] s[k] != '"' && s[k] != '\'' && s[k] != '(' && s[k] != ')',
    ensures
        find_op(s, op, i, 1, None) == find_op(s, op, n, 1, None),
    decreases n - i,
{
    if i < n {
        assert(s[i] != '"' && s[i] != '\'' && s[i] != '(' && s[i] != ')');
        lemma_inside_hidden(s, op, i + 1, n);
    }
}

/// A reference in a condition is replaced by its value before the condition is
/// evaluated.
pub proof fn lemma_condition_resolves(
    statuses: Table<JobStatus>,
    scope: crate::variables::Scope,
    a: Seq<char>,
    name: Seq<char>,
    b: Seq<char>,
    v: Seq<char>,
)
    requires
        !a.contains('$'),
        !b.contains('$'),
        !v.contains('$'),
        name.len() > 0,
        !name.contains('{'),
        !name.contains('}'),
        scope.lookup(text::trim(name)) == Ok::<Seq<char>, crate::variables::ResolveFailure>(v),
    ensures
        condition_value(statuses, scope, a + "${{"@ + name + "}}"@ + b) == eval(
            statuses.values(),
            a + v + b,
        ),
{
    crate::variables::lemma_reference_is_replaced(scope, a, name, b);
}

/// The characters of a text take as many bytes as its encoding has.
pub proof fn lemma_bytes_of_text(s: Seq<char>, n: int)
    requires
        0 <= n <= s.len(),
    ensures
        chars_in_bytes(s, encode_utf8(s.take(n)).len() as int) == Some(n as nat),
    decreases n,
{
    if n > 0 {
        let d = s.drop_first();
        lemma_bytes_of_text(d, n - 1);
        assert(s.take(n)[0] == s[0]);
        assert(s.take(n).drop_first() =~= d.take(n - 1));
        vstd::utf8::char_is_scalar(s[0]);
        assert(vstd::utf8::encode_scalar(s[0] as u32).len() == utf8_width(s[0]));
        assert(encode_utf8(s.take(n)) == vstd::utf8::encode_scalar(s[0] as u32) + encode_utf8(
            d.take(n - 1),
        ));
    } else {
        assert(s.take(0) =~= Seq::<char>::empty());
    }
}

/// Quotes are taken away only as a pair of the same kind around the text.
pub proof fn lemma_unquote(w: Seq<char>, q: char, other: char)
    requires
        q == '"' || q == '\'',
        other == '"' || other == '\'',
    ensures
        unquote(seq![q] + w + seq![q]) == w,
        q != other ==> unquote(seq![q] + w + seq![other]) == seq![q] + w + seq![other],
        unquote(seq![q]) == seq![q],
        w.len() > 0 && !text::is_space(w[0]) && !text::is_space(w.last()) && w[0] != '"' && w[0] != '\''
            ==> unquote(w) == w,
{
    let a = seq![q] + w + seq![q];
    let b = seq![q] + w + seq![other];
    assert(a[0] == q && a.last() == q && b[0] == q && b.last() == other);
    text::lemma_trim_id(a);
    text::lemma_trim_id(b);
    text::lemma_trim_id(seq![q]);
    assert(a.subrange(1, a.len() - 1) =~= w);
    if w.len() > 0 && !text::is_space(w[0]) && !text::is_space(w.last()) {
        text::lemma_trim_id(w);
    }
}

// ---------------------------------------------------------------------------
// Laws of operands in quotes

/// Whether a character belongs to an operator.
spec fn op_char(c: char) -> bool {
    c == '=' || c == '!' || c == '<' || c == '>' || c == '&' || c == '|'
}

/// Whether text can stand as an operand, in quotes of the given kind or, where
/// there is none, without.
pub open spec fn is_operand(w: Seq<char>, quote: Option<char>) -> bool {
    match quote {
        None => is_word(w),
        Some(q) => (q == '"' || q == '\'') && is_ascii(w) && !w.contains(q),
    }
}

/// An operand as it is written.
pub open spec fn written(w: Seq<char>, quote: Option<char>) -> Seq<char> {
    match quote {
        None => w,
        Some(q) => seq![q] + w + seq![q],
    }
}

/// Whether text is white space that is ASCII.
pub open spec fn is_gap(p: Seq<char>) -> bool {
    forall|i: int| 0 <= i < p.len() ==> text::is_space(#[trigger] p[i]) && (p[i] as u32) < 0x80
}

proof fn lemma_operand_passes(a: Seq<char>, w: Seq<char>, quote: Option<char>, b: Seq<char>, op: Seq<char>)
    requires
        is_operand(w, quote),
        op.len() > 0,
        op_char(op[0]),
        b.len() > 0,
    ensures
        find_op(a + written(w, quote) + b, op, a.len() as int, 0, None) == find_op(
            a + written(w, quote) + b,
            op,
            a.len() as int + written(w, quote).len() as int,
            0,
            None,
        ),
{
    let t = written(w, quote);
    let s = a + t + b;
    let i = a.len() as int;
    let n = i + t.len() as int;
    assert forall|k: int| i <= k < n implies #[trigger] s[k] == t[k - i] by {}
    match quote {
        None => {
            assert forall|k: int| i <= k < n implies #[trigger] s[k] != '"' && s[k] != '\'' && s[k] != '('
                && s[k] != ')' && !op_char(s[k]) by {
                assert(s[k] == w[k - i]);
            }
            assert forall|k: int| i <= k < n implies !#[trigger] text::occurs_at(s, op, k) by {
                if text::occurs_at(s, op, k) {
                    assert(s.subrange(k, k + op.len())[0] == s[k]);
                }
            }
            lemma_letters_pass(s, op, i, n);
        },
        Some(q) => {
            assert(s[i] == q && s[n - 1] == q);
            assert forall|k: int| i + 1 <= k < n - 1 implies #[trigger] s[k] != q by {
                assert(s[k] == w[k - i - 1]);
                assert(w.contains(w[k - i - 1]));
            }
            lemma_quoted_pass(s, op, i + 1, n - 1, q);
        },
    }
}

proof fn lemma_gap_passes(a: Seq<char>, p: Seq<char>, b: Seq<char>, op: Seq<char>)
    requires
        is_gap(p),
        op.len() > 0,
        op_char(op[0]),
        b.len() > 0,
    ensures
        find_op(a + p + b, op, a.len() as int, 0, None) == find_op(
            a + p + b,
            op,
            a.len() as int + p.len() as int,
            0,
            None,
        ),
{
    let s = a + p + b;
    let i = a.len() as int;
    let n = i + p.len() as int;
    assert forall|k: int| i <= k < n implies #[trigger] s[k] != '"' && s[k] != '\'' && s[k] != '(' && s[k]
        != ')' && !op_char(s[k]) by {
        assert(s[k] == p[k - i]);
        assert(text::is_space(p[k - i]));
    }
    assert forall|k: int| i <= k < n implies !#[trigger] text::occurs_at(s, op, k) by {
        if text::occurs_at(s, op, k) {
            assert(s.subrange(k, k + op.len())[0] == s[k]);
        }
    }
    lemma_letters_pass(s, op, i, n);
}

proof fn lemma_operand_unquotes(a: Seq<char>, w: Seq<char>, quote: Option<char>, b: Seq<char>)
    requires
        is_operand(w, quote),
        is_gap(a),
        is_gap(b),
    ensures
        unquote(text::trim(a + written(w, quote) + b)) == w,
        written(w, quote).len() > 0,
        !text::is_space(written(w, quote)[0]),
        !text::is_space(written(w, quote).last()),
        written(w, quote)[0] != '(',
        written(w, quote)[0] != '!',
        is_ascii(written(w, quote)),
{
    let t = written(w, quote);
    match quote {
        None => {
            assert(w[0] != '(' && w[0] != '!' && w[0] != '"' && w[0] != '\'');
            text::lemma_trim_between(a, t, b);
            text::lemma_trim_id(t);
        },
        Some(q) => {
            assert(t[0] == q && t.last() == q);
            text::lemma_trim_between(a, t, b);
            text::lemma_trim_id(t);
            assert(t.subrange(1, t.len() - 1) =~= w);
            assert forall|k: int| 0 <= k < t.len() implies (#[trigger] t[k] as u32) < 0x80 by {
                if 1 <= k < t.len() - 1 {
                    assert(t[k] == w[k - 1]);
                }
            }
        },
    }
}

/// What the search for an operator finds in a comparison.
proof fn lemma_search_comparison(
    l: Seq<char>,
    lq: Option<char>,
    p: Seq<char>,
    op: Seq<char>,
    q: Seq<char>,
    r: Seq<char>,
    rq: Option<char>,
    sought: Seq<char>,
)
    requires
        is_operand(l, lq),
        is_operand(r, rq),
        is_gap(p),
        is_gap(q),
        1 <= op.len() <= 2,
        forall|k: int| 0 <= k < op.len() ==> op_char(#[trigger] op[k]),
        1 <= sought.len() <= 2,
        op_char(sought[0]),
        sought.len() == 2 ==> op_char(sought[1]),
    ensures
        ({
            let s = written(l, lq) + p + op + q + written(r, rq);
            let n = written(l, lq).len() + p.len();
            &&& sought == op ==> operator_at(s, sought) == Some(n as int)
            &&& sought[0] != op[0] && (op.len() == 1 || sought.len() == 2 || sought[0] != op[1])
                ==> operator_at(s, sought) is None
            &&& sought.len() == 2 && op.len() == 1 ==> operator_at(s, sought) is None
        }),
{
    let a = written(l, lq);
    let b = written(r, rq);
    let none = Seq::<char>::empty();
    let s = a + p + op + q + b;
    let n = a.len() as int + p.len() as int;
    let m = n + op.len() as int;
    lemma_operand_unquotes(none, l, lq, none);
    lemma_operand_unquotes(none, r, rq, none);
    // Up to the operator nothing is found.
    assert(s =~= none + a + (p + op + q + b));
    lemma_operand_passes(none, l, lq, p + op + q + b, sought);
    assert(s =~= a + p + (op + q + b));
    lemma_gap_passes(a, p, op + q + b, sought);
    assert(operator_at(s, sought) == find_op(s, sought, n, 0, None));
    // Behind it nothing is found.
    let f = a + p + op;
    assert(s =~= f + q + b);
    lemma_gap_passes(f, q, b, sought);
    lemma_rest_passes(f + q, r, rq, sought);
    assert(s =~= (f + q) + b);
    assert(find_op(s, sought, m, 0, None) is None);
    // At it.
    assert(s[n] == op[0]);
    assert(op_char(op[0]));
    assert(s[n] != '"' && s[n] != '\'' && s[n] != '(' && s[n] != ')');
    if sought == op {
        assert(s.subrange(n, n + op.len()) =~= op);
    } else if (sought[0] != op[0] && (op.len() == 1 || sought.len() == 2 || sought[0] != op[1])) || (
    sought.len() == 2 && op.len() == 1) {
        let behind = s[m];
        assert(!op_char(behind)) by {
            if q.len() > 0 {
                assert(s[m] == q[0]);
                assert(text::is_space(q[0]));
            } else {
                assert(s[m] == b[0]);
                lemma_operand_begins(r, rq);
            }
        }
        assert(!text::occurs_at(s, sought, n)) by {
            if text::occurs_at(s, sought, n) {
                let x = s.subrange(n, n + sought.len());
                assert(x[0] == s[n]);
                if sought.len() == 2 {
                    assert(x[1] == s[n + 1]);
                }
            }
        }
        if op.len() == 2 {
            assert(s[n + 1] == op[1]);
            assert(op_char(op[1]));
            assert(!text::occurs_at(s, sought, n + 1)) by {
                if text::occurs_at(s, sought, n + 1) {
                    let x = s.subrange(n + 1, n + 1 + sought.len());
                    assert(x[0] == s[n + 1]);
                    if sought.len() == 2 {
                        assert(x[1] == s[n + 2]);
                    }
                }
            }
            assert(find_op(s, sought, n + 1, 0, None) == find_op(s, sought, m, 0, None));
        }
        assert(find_op(s, sought, n, 0, None) == find_op(s, sought, n + 1, 0, None));
    }
}

proof fn lemma_operand_begins(w: Seq<char>, quote: Option<char>)
    requires
        is_operand(w, quote),
    ensures
        !op_char(written(w, quote)[0]),
{
    if quote is None {
        assert(w[0] != '=' && w[0] != '!' && w[0] != '<' && w[0] != '>' && w[0] != '&' && w[0] != '|');
    }
}

proof fn lemma_rest_passes(a: Seq<char>, w: Seq<char>, quote: Option<char>, op: Seq<char>)
    requires
        is_operand(w, quote),
        op.len() > 0,
        op_char(op[0]),
    ensures
        find_op(a + written(w, quote), op, a.len() as int, 0, None) is None,
{
    let t = written(w, quote);
    let s = a + t;
    let i = a.len() as int;
    let n = s.len() as int;
    assert forall|k: int| i <= k < n implies #[trigger] s[k] == t[k - i] by {}
    match quote {
        None => {
            assert forall|k: int| i <= k < n implies !#[trigger] text::occurs_at(s, op, k) by {
                if text::occurs_at(s, op, k) {
                    assert(s.subrange(k, k + op.len())[0] == s[k]);
                    assert(s[k] == w[k - i]);
                }
            }
            lemma_op_absent(s, op, i, 0, None);
        },
        Some(q) => {
            assert(s[i] == q && s[n - 1] == q);
            assert forall|k: int| i + 1 <= k < n - 1 implies #[trigger] s[k] != q by {
                assert(s[k] == w[k - i - 1]);
                assert(w.contains(w[k - i - 1]));
            }
            lemma_quoted_pass(s, op, i + 1, n - 1, q);
        },
    }
}

proof fn lemma_operands_found(
    l: Seq<char>,
    lq: Option<char>,
    p: Seq<char>,
    op: Seq<char>,
    q: Seq<char>,
    r: Seq<char>,
    rq: Option<char>,
)
    requires
        is_operand(l, lq),
        is_operand(r, rq),
        is_gap(p),
        is_gap(q),
        1 <= op.len() <= 2,
        forall|k: int| 0 <= k < op.len() ==> op_char(#[trigger] op[k]),
    ensures
        ({
            let s = written(l, lq) + p + op + q + written(r, rq);
            &&& text::trim(s) == s
            &&& s[0] != '(' && s[0] != '!'
            &&& operands(s, op) == Operands::Pair(l, r)
            &&& s != "success()"@ && s != "failure()"@ && s != "always()"@ && s != "true"@ && s
                != "false"@
        }),
{
    let a = written(l, lq);
    let b = written(r, rq);
    let none = Seq::<char>::empty();
    let s = a + p + op + q + b;
    let n = a.len() as int + p.len() as int;
    let m = n + op.len() as int;
    assert(op_char(op[0]));
    if op.len() == 2 {
        assert(op_char(op[1]));
    }
    lemma_search_comparison(l, lq, p, op, q, r, rq, op);
    lemma_operand_unquotes(none, l, lq, p);
    lemma_operand_unquotes(q, r, rq, none);
    assert(s[0] == a[0] && s.last() == b.last());
    text::lemma_trim_id(s);
    assert(is_ascii(s)) by {
        assert forall|k: int| 0 <= k < s.len() implies (#[trigger] s[k] as u32) < 0x80 by {
            if k < a.len() {
                assert(s[k] == a[k]);
            } else if k < n {
                assert(s[k] == p[k - a.len()]);
            } else if k < m {
                assert(s[k] == op[k - n]);
            } else if k < m + q.len() {
                assert(s[k] == q[k - m]);
            } else {
                assert(s[k] == b[k - m - q.len()]);
            }
        }
    }
    lemma_ascii_bytes(s, n);
    lemma_ascii_bytes(s, m);
    assert(s.take(n) =~= none + a + p);
    assert(s.skip(m) =~= q + b + none);
    assert(s[n] == op[0]);
    lemma_no_fixed_condition(s, n);
}

/// Operands compare as the operator between them says, in quotes of either kind
/// or without, and whatever white space there is around the operator.
pub proof fn lemma_compare_operands(
    statuses: Seq<JobStatus>,
    l: Seq<char>,
    lq: Option<char>,
    p: Seq<char>,
    q: Seq<char>,
    r: Seq<char>,
    rq: Option<char>,
)
    requires
        is_operand(l, lq),
        is_operand(r, rq),
        is_gap(p),
        is_gap(q),
    ensures
        eval(statuses, written(l, lq) + p + "=="@ + q + written(r, rq)) == Some(l == r),
        eval(statuses, written(l, lq) + p + "!="@ + q + written(r, rq)) == Some(l != r),
        eval(statuses, written(l, lq) + p + "<="@ + q + written(r, rq)) == Some(order::lex_le(l, r)),
        eval(statuses, written(l, lq) + p + ">="@ + q + written(r, rq)) == Some(order::lex_le(r, l)),
        eval(statuses, written(l, lq) + p + "<"@ + q + written(r, rq)) == Some(
            order::lex_le(l, r) && l != r,
        ),
        eval(statuses, written(l, lq) + p + ">"@ + q + written(r, rq)) == Some(
            order::lex_le(r, l) && l != r,
        ),
{
    reveal_strlit("==");
    reveal_strlit("!=");
    reveal_strlit(">=");
    reveal_strlit("<=");
    reveal_strlit(">");
    reveal_strlit("<");
    reveal_strlit("||");
    reveal_strlit("&&");
    assert("=="@.len() == 2 && "=="@[0] == '=' && "=="@[1] == '=');
    assert("!="@.len() == 2 && "!="@[0] == '!' && "!="@[1] == '=');
    assert(">="@.len() == 2 && ">="@[0] == '>' && ">="@[1] == '=');
    assert("<="@.len() == 2 && "<="@[0] == '<' && "<="@[1] == '=');
    assert(">"@.len() == 1 && ">"@[0] == '>');
    assert("<"@.len() == 1 && "<"@[0] == '<');
    assert("||"@.len() == 2 && "||"@[0] == '|' && "||"@[1] == '|');
    assert("&&"@.len() == 2 && "&&"@[0] == '&' && "&&"@[1] == '&');
    lemma_operands_found(l, lq, p, "=="@, q, r, rq);
    lemma_operands_found(l, lq, p, "!="@, q, r, rq);
    lemma_operands_found(l, lq, p, ">="@, q, r, rq);
    lemma_operands_found(l, lq, p, "<="@, q, r, rq);
    lemma_operands_found(l, lq, p, ">"@, q, r, rq);
    lemma_operands_found(l, lq, p, "<"@, q, r, rq);
    lemma_no_boolean(l, lq, p, "=="@, q, r, rq);
    lemma_no_boolean(l, lq, p, "!="@, q, r, rq);
    lemma_no_boolean(l, lq, p, ">="@, q, r, rq);
    lemma_no_boolean(l, lq, p, "<="@, q, r, rq);
    lemma_no_boolean(l, lq, p, ">"@, q, r, rq);
    lemma_no_boolean(l, lq, p, "<"@, q, r, rq);
    lemma_search_comparison(l, lq, p, "!="@, q, r, rq, "=="@);
    lemma_search_comparison(l, lq, p, ">="@, q, r, rq, "=="@);
    lemma_search_comparison(l, lq, p, ">="@, q, r, rq, "!="@);
    lemma_search_comparison(l, lq, p, "<="@, q, r, rq, "=="@);
    lemma_search_comparison(l, lq, p, "<="@, q, r, rq, "!="@);
    lemma_search_comparison(l, lq, p, "<="@, q, r, rq, ">="@);
    lemma_search_comparison(l, lq, p, ">"@, q, r, rq, "=="@);
    lemma_search_comparison(l, lq, p, ">"@, q, r, rq, "!="@);
    lemma_search_comparison(l, lq, p, ">"@, q, r, rq, ">="@);
    lemma_search_comparison(l, lq, p, ">"@, q, r, rq, "<="@);
    lemma_search_comparison(l, lq, p, "<"@, q, r, rq, "=="@);
    lemma_search_comparison(l, lq, p, "<"@, q, r, rq, "!="@);
    lemma_search_comparison(l, lq, p, "<"@, q, r, rq, ">="@);
    lemma_search_comparison(l, lq, p, "<"@, q, r, rq, "<="@);
    lemma_search_comparison(l, lq, p, "<"@, q, r, rq, ">"@);
    order::lemma_text_order_total();
    assert(order::text_order()(l, r) == order::lex_le(l, r));
    assert(order::text_order()(r, l) == order::lex_le(r, l));
    assert(order::text_order()(l, l) == order::lex_le(l, l));
}

proof fn lemma_no_boolean(
    l: Seq<char>,
    lq: Option<char>,
    p: Seq<char>,
    op: Seq<char>,
    q: Seq<char>,
    r: Seq<char>,
    rq: Option<char>,
)
    requires
        is_operand(l, lq),
        is_operand(r, rq),
        is_gap(p),
        is_gap(q),
        1 <= op.len() <= 2,
        forall|k: int|
            0 <= k < op.len() ==> op_char(#[trigger] op[k]) && op[k] != '|' && op[k] != '&',
    ensures
        operator_at(written(l, lq) + p + op + q + written(r, rq), "||"@) is None,
        operator_at(written(l, lq) + p + op + q + written(r, rq), "&&"@) is None,
{
    reveal_strlit("||");
    reveal_strlit("&&");
    assert(op_char(op[0]) && op[0] != '|' && op[0] != '&');
    lemma_search_comparison(l, lq, p, op, q, r, rq, "||"@);
    lemma_search_comparison(l, lq, p, op, q, r, rq, "&&"@);
}

/// A comparison as it is written.
pub open spec fn comparison(
    l: Seq<char>,
    lq: Option<char>,
    op: Seq<char>,
    r: Seq<char>,
    rq: Option<char>,
) -> Seq<char> {
    written(l, lq) + " "@ + op + " "@ + written(r, rq)
}

proof fn lemma_comparison_passes(
    l: Seq<char>,
    lq: Option<char>,
    op: Seq<char>,
    r: Seq<char>,
    rq: Option<char>,
    b: Seq<char>,
    sought: Seq<char>,
)
    requires
        is_operand(l, lq),
        is_operand(r, rq),
        1 <= op.len() <= 2,
        forall|k: int|
            0 <= k < op.len() ==> op_char(#[trigger] op[k]) && op[k] != '|' && op[k] != '&',
        sought == "||"@ || sought == "&&"@,
        b.len() > 0,
    ensures
        operator_at(comparison(l, lq, op, r, rq) + b, sought) == find_op(
            comparison(l, lq, op, r, rq) + b,
            sought,
            comparison(l, lq, op, r, rq).len() as int,
            0,
            None,
        ),
{
    reveal_strlit(" ");
    reveal_strlit("||");
    reveal_strlit("&&");
    let x = written(l, lq);
    let y = written(r, rq);
    let g = " "@;
    let none = Seq::<char>::empty();
    let c = comparison(l, lq, op, r, rq);
    let s = c + b;
    assert(is_gap(g));
    assert(s =~= none + x + (g + op + g + y + b));
    lemma_operand_passes(none, l, lq, g + op + g + y + b, sought);
    assert(s =~= x + g + (op + g + y + b));
    lemma_gap_passes(x, g, op + g + y + b, sought);
    let f = x + g;
    let n = f.len() as int;
    let m = n + op.len() as int;
    assert forall|k: int| n <= k < m implies #[trigger] s[k] == op[k - n] by {}
    assert forall|k: int| n <= k < m implies #[trigger] s[k] != '"' && s[k] != '\'' && s[k] != '(' && s[k]
        != ')' by {
        assert(op_char(op[k - n]));
    }
    assert forall|k: int| n <= k < m implies !#[trigger] text::occurs_at(s, sought, k) by {
        if text::occurs_at(s, sought, k) {
            assert(s.subrange(k, k + 2)[0] == s[k]);
            assert(op[k - n] != '|' && op[k - n] != '&');
        }
    }
    lemma_letters_pass(s, sought, n, m);
    let h = x + g + op;
    assert(s =~= h + g + (y + b));
    lemma_gap_passes(h, g, y + b, sought);
    let i = x + g + op + g;
    assert(s =~= i + y + b);
    lemma_operand_passes(i, r, rq, b, sought);
    assert(c =~= i + y);
}

/// Comparisons, in quotes or not, can be joined with other conditions: `&&`
/// holds if both hold, `||` if one does. Behind `&&` no `|` may stand, which
/// would bind less tightly.
pub proof fn lemma_join_comparison(
    statuses: Seq<JobStatus>,
    l: Seq<char>,
    lq: Option<char>,
    op: Seq<char>,
    r: Seq<char>,
    rq: Option<char>,
    b: Seq<char>,
)
    requires
        is_operand(l, lq),
        is_operand(r, rq),
        op == "=="@ || op == "!="@ || op == ">="@ || op == "<="@ || op == ">"@ || op == "<"@,
        is_rest(b),
    ensures
        eval(statuses, comparison(l, lq, op, r, rq)) is Some,
        eval(statuses, b) is Some,
        eval(statuses, comparison(l, lq, op, r, rq) + " || "@ + b) == Some(
            eval(statuses, comparison(l, lq, op, r, rq))->0 || eval(statuses, b)->0,
        ),
        !b.contains('|') ==> eval(statuses, comparison(l, lq, op, r, rq) + " && "@ + b) == Some(
            eval(statuses, comparison(l, lq, op, r, rq))->0 && eval(statuses, b)->0,
        ),
{
    lemma_comparison_facts(statuses, l, lq, op, r, rq);
    lemma_ascii_evaluates(statuses, b);
    lemma_join_or(statuses, l, lq, op, r, rq, b);
    if !b.contains('|') {
        lemma_join_and(statuses, l, lq, op, r, rq, b);
    }
}

proof fn lemma_comparison_facts(
    statuses: Seq<JobStatus>,
    l: Seq<char>,
    lq: Option<char>,
    op: Seq<char>,
    r: Seq<char>,
    rq: Option<char>,
)
    requires
        is_operand(l, lq),
        is_operand(r, rq),
        op == "=="@ || op == "!="@ || op == ">="@ || op == "<="@ || op == ">"@ || op == "<"@,
    ensures
        1 <= op.len() <= 2,
        forall|k: int|
            0 <= k < op.len() ==> op_char(#[trigger] op[k]) && op[k] != '|' && op[k] != '&',
        ({
            let c = comparison(l, lq, op, r, rq);
            &&& text::trim(c) == c
            &&& c.len() > 0
            &&& is_ascii(c)
            &&& c[0] != '(' && c[0] != '!'
            &&& eval(statuses, c) is Some
        }),
{
    reveal_strlit(" ");
    reveal_strlit("==");
    reveal_strlit("!=");
    reveal_strlit(">=");
    reveal_strlit("<=");
    reveal_strlit(">");
    reveal_strlit("<");
    let c = comparison(l, lq, op, r, rq);
    let x = written(l, lq);
    let y = written(r, rq);
    let none = Seq::<char>::empty();
    assert(is_gap(" "@));
    lemma_operands_found(l, lq, " "@, op, " "@, r, rq);
    lemma_operand_unquotes(none, l, lq, none);
    lemma_operand_unquotes(none, r, rq, none);
    assert forall|k: int| 0 <= k < c.len() implies (#[trigger] c[k] as u32) < 0x80 by {
        if k < x.len() {
            assert(c[k] == x[k]);
        } else if k >= x.len() + 2 + op.len() {
            assert(c[k] == y[k - x.len() - 2 - op.len()]);
        } else if x.len() < k < x.len() + 1 + op.len() {
            assert(c[k] == op[k - x.len() - 1]);
        }
    }
    lemma_ascii_evaluates(statuses, c);
}

proof fn lemma_join_or(
    statuses: Seq<JobStatus>,
    l: Seq<char>,
    lq: Option<char>,
    op: Seq<char>,
    r: Seq<char>,
    rq: Option<char>,
    b: Seq<char>,
)
    requires
        is_operand(l, lq),
        is_operand(r, rq),
        op == "=="@ || op == "!="@ || op == ">="@ || op == "<="@ || op == ">"@ || op == "<"@,
        is_rest(b),
    ensures
        eval(statuses, comparison(l, lq, op, r, rq) + " || "@ + b) == Some(
            eval(statuses, comparison(l, lq, op, r, rq))->0 || eval(statuses, b)->0,
        ),
{
    reveal_strlit("||");
    reveal_strlit(" || ");
    let c = comparison(l, lq, op, r, rq);
    lemma_comparison_facts(statuses, l, lq, op, r, rq);
    lemma_ascii_evaluates(statuses, b);
    assert(" || "@.subrange(1, 3) =~= "||"@);
    lemma_join_side(statuses, c, "||"@, " || "@, b);
    let s = c + " || "@ + b;
    assert(s =~= c + (" || "@ + b));
    lemma_comparison_passes(l, lq, op, r, rq, " || "@ + b, "||"@);
    lemma_found_behind(c, "||"@, " || "@ + b);
}

proof fn lemma_join_and(
    statuses: Seq<JobStatus>,
    l: Seq<char>,
    lq: Option<char>,
    op: Seq<char>,
    r: Seq<char>,
    rq: Option<char>,
    b: Seq<char>,
)
    requires
        is_operand(l, lq),
        is_operand(r, rq),
        op == "=="@ || op == "!="@ || op == ">="@ || op == "<="@ || op == ">"@ || op == "<"@,
        is_rest(b),
        !b.contains('|'),
    ensures
        eval(statuses, comparison(l, lq, op, r, rq) + " && "@ + b) == Some(
            eval(statuses, comparison(l, lq, op, r, rq))->0 && eval(statuses, b)->0,
        ),
{
    reveal_strlit("&&");
    reveal_strlit("||");
    reveal_strlit(" && ");
    let c = comparison(l, lq, op, r, rq);
    lemma_comparison_facts(statuses, l, lq, op, r, rq);
    lemma_ascii_evaluates(statuses, b);
    assert(" && "@.subrange(1, 3) =~= "&&"@);
    lemma_join_side(statuses, c, "&&"@, " && "@, b);
    let t = c + " && "@ + b;
    assert(t =~= c + (" && "@ + b));
    lemma_comparison_passes(l, lq, op, r, rq, " && "@ + b, "&&"@);
    lemma_comparison_passes(l, lq, op, r, rq, " && "@ + b, "||"@);
    lemma_found_behind(c, "&&"@, " && "@ + b);
    assert forall|k: int| c.len() <= k < t.len() implies !#[trigger] text::occurs_at(t, "||"@, k) by {
        if text::occurs_at(t, "||"@, k) {
            assert(t.subrange(k, k + 2)[0] == t[k]);
            if k >= c.len() + 4 {
                assert(t[k] == b[k - c.len() - 4]);
                assert(b.contains(b[k - c.len() - 4]));
            }
        }
    }
    lemma_op_absent(t, "||"@, c.len() as int, 0, None);
}

proof fn lemma_found_behind(c: Seq<char>, op: Seq<char>, rest: Seq<char>)
    requires
        op == "||"@ || op == "&&"@,
        rest.len() >= 3,
        rest[0] == ' ',
        rest.subrange(1, 3) == op,
    ensures
        find_op(c + rest, op, c.len() as int, 0, None) == Some(c.len() as int + 1),
{
    reveal_strlit("||");
    reveal_strlit("&&");
    let s = c + rest;
    let n = c.len() as int;
    assert(s[n] == ' ');
    assert(s.subrange(n + 1, n + 3) =~= op);
    assert(s[n + 1] == op[0]) by {
        assert(s.subrange(n + 1, n + 3)[0] == s[n + 1]);
    }
    assert(!text::occurs_at(s, op, n)) by {
        if text::occurs_at(s, op, n) {
            assert(s.subrange(n, n + 2)[0] == s[n]);
        }
    }
    assert(find_op(s, op, n + 1, 0, None) == Some(n + 1));
}

proof fn lemma_join_side(statuses: Seq<JobStatus>, c: Seq<char>, op: Seq<char>, joint: Seq<char>, b: Seq<char>)
    requires
        text::trim(c) == c,
        c.len() > 0,
        is_ascii(c),
        is_rest(b),
        c[0] != '(' && c[0] != '!',
        joint.len() == 4,
        joint[0] == ' ' && joint[3] == ' ',
        joint.subrange(1, 3) == op,
        op == "||"@ || op == "&&"@,
    ensures
        ({
            let s = c + joint + b;
            let n = c.len() as int + 1;
            &&& text::trim(s) == s
            &&& s[0] == c[0]
            &&& (joint + b).subrange(1, 3) == op
            &&& before_byte(s, n) == Some(s.take(n))
            &&& from_byte(s, n + 2) == Some(s.skip(n + 2))
            &&& eval(statuses, s.take(n)) == eval(statuses, c)
            &&& eval(statuses, s.skip(n + 2)) == eval(statuses, b)
            &&& s != "success()"@ && s != "failure()"@ && s != "always()"@ && s != "true"@ && s
                != "false"@
        }),
{
    reveal_strlit("||");
    reveal_strlit("&&");
    let s = c + joint + b;
    let n = c.len() as int + 1;
    let none = Seq::<char>::empty();
    text::lemma_trim_ends(c);
    assert(s[0] == c[0] && s.last() == b.last());
    text::lemma_trim_id(s);
    assert(joint[1] == op[0]) by {
        assert(joint.subrange(1, 3)[0] == joint[1]);
    }
    assert(joint[2] == op[1]) by {
        assert(joint.subrange(1, 3)[1] == joint[2]);
    }
    assert((joint + b).subrange(1, 3) =~= op);
    assert(is_ascii(s)) by {
        assert forall|k: int| 0 <= k < s.len() implies (#[trigger] s[k] as u32) < 0x80 by {
            if k < c.len() {
                assert(s[k] == c[k]);
            } else if k >= c.len() + 4 {
                assert(s[k] == b[k - c.len() - 4]);
            } else {
                assert(s[k] == joint[k - c.len()]);
            }
        }
    }
    lemma_ascii_bytes(s, n);
    lemma_ascii_bytes(s, n + 2);
    let g = seq![' '];
    assert(s.take(n) =~= none + c + g);
    assert(s.skip(n + 2) =~= g + b + none);
    text::lemma_trim_between(none, c, g);
    text::lemma_trim_between(g, b, none);
    lemma_eval_trim(statuses, s.take(n));
    lemma_eval_trim(statuses, s.skip(n + 2));
    assert(s[n] == joint[1]);
    lemma_no_fixed_condition(s, n);
}

} // verus!
