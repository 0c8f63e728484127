//! The syntax of condition expressions.
use vstd::prelude::*;
use vstd::slice::slice_subrange;

use crate::conditions;
use crate::conditions::chars_in_bytes_of;
use crate::letters;
use crate::letters::{char_is_alphabetic, char_is_alphanumeric};
use crate::numbers;
use crate::numbers::push_decimal;
use crate::text;
use crate::text::{append_str, chars_eq, from_chars, occurs_at_chars, to_chars, trim_chars};

verus! {

/// What is wrong with a condition.
#[verifier::ext_equal]
pub enum FaultModel {
    Empty,
    UnmatchedClosing(nat),
    EmptyReference(nat),
    UnclosedReference,
    UnmatchedParens,
    BadCall(Seq<char>),
}

/// What is wrong with a condition.
#[derive(Debug, Clone)]
pub enum ConditionFault {
    /// There is nothing but white space.
    Empty,
    /// The parenthesis at this position closes none.
    UnmatchedClosing(usize),
    /// The reference that begins at this position names nothing.
    EmptyReference(usize),
    /// The last reference is not closed.
    UnclosedReference,
    /// Some parenthesis is not closed.
    UnmatchedParens,
    /// The function of this name is not called.
    BadCall(String),
}

impl DeepView for ConditionFault {
    type V = FaultModel;

    open spec fn deep_view(&self) -> FaultModel {
        match *self {
            ConditionFault::Empty => FaultModel::Empty,
            ConditionFault::UnmatchedClosing(i) => FaultModel::UnmatchedClosing(i as nat),
            ConditionFault::EmptyReference(i) => FaultModel::EmptyReference(i as nat),
            ConditionFault::UnclosedReference => FaultModel::UnclosedReference,
            ConditionFault::UnmatchedParens => FaultModel::UnmatchedParens,
            ConditionFault::BadCall(name) => FaultModel::BadCall(name@),
        }
    }
}

/// What is said of a fault.
pub open spec fn fault_text(f: FaultModel) -> Seq<char> {
    match f {
        FaultModel::Empty => "Empty expression"@,
        FaultModel::UnmatchedClosing(i) => "Unmatched closing parenthesis at position "@
            + numbers::decimal(i),
        FaultModel::EmptyReference(i) => "Empty variable reference at position "@ + numbers::decimal(
            i,
        ),
        FaultModel::UnclosedReference => "Unclosed variable reference"@,
        FaultModel::UnmatchedParens => "Unmatched parentheses"@,
        FaultModel::BadCall(name) => "Function '"@ + name + "' must be called as "@ + name + "()"@,
    }
}

impl ConditionFault {
    /// What is said of the fault.
    pub fn message(&self) -> (r: String)
        ensures
            r@ == fault_text(self.deep_view()),
    {
        match self {
            ConditionFault::Empty => "Empty expression".to_owned(),
            ConditionFault::UnmatchedClosing(i) => {
                let mut s = "Unmatched closing parenthesis at position ".to_owned();
                push_decimal(&mut s, *i as u128);
                s
            },
            ConditionFault::EmptyReference(i) => {
                let mut s = "Empty variable reference at position ".to_owned();
                push_decimal(&mut s, *i as u128);
                s
            },
            ConditionFault::UnclosedReference => "Unclosed variable reference".to_owned(),
            ConditionFault::UnmatchedParens => "Unmatched parentheses".to_owned(),
            ConditionFault::BadCall(name) => {
                let mut s = "Function '".to_owned();
                append_str(&mut s, name.as_str());
                append_str(&mut s, "' must be called as ");
                append_str(&mut s, name.as_str());
                append_str(&mut s, "()");
                s
            },
        }
    }
}

/// The characters of `s` from byte `a` up to byte `b`; `None` if one of these
/// is not where a character begins or the text ends.
pub open spec fn byte_slice(s: Seq<char>, a: int, b: int) -> Option<Seq<char>> {
    match (conditions::chars_in_bytes(s, a), conditions::chars_in_bytes(s, b)) {
        (Some(x), Some(y)) => if x <= y {
            Some(s.subrange(x as int, y as int))
        } else {
            None
        },
        _ => None,
    }
}

fn byte_slice_of(s: &[char], a: usize, b: usize) -> (r: Option<&[char]>)
    ensures
        match r {
            Some(part) => byte_slice(s@, a as int, b as int) == Some(part@),
            None => byte_slice(s@, a as int, b as int) is None,
        },
{
    match (chars_in_bytes_of(s, a), chars_in_bytes_of(s, b)) {
        (Some(x), Some(y)) => if x <= y {
            Some(slice_subrange(s, x, y))
        } else {
            None
        },
        _ => None,
    }
}

/// What is wrong with the parentheses and references of `e` from position `i`
/// on, with `depth` parentheses open and perhaps a reference open since
/// `open`. Positions of characters are taken for positions of bytes: `None` if
/// a reference that closes does not lie between such positions.
pub open spec fn scan(e: Seq<char>, i: int, depth: int, open: Option<int>) -> Option<Option<FaultModel>>
    decreases e.len() - i,
{
    if i < 0 || i >= e.len() {
        if open is Some {
            Some(Some(FaultModel::UnclosedReference))
        } else if depth != 0 {
            Some(Some(FaultModel::UnmatchedParens))
        } else {
            Some(None)
        }
    } else if e[i] == '(' {
        scan(e, i + 1, depth + 1, open)
    } else if e[i] == ')' {
        if depth <= 0 {
            Some(Some(FaultModel::UnmatchedClosing(i as nat)))
        } else {
            scan(e, i + 1, depth - 1, open)
        }
    } else if e[i] == '$' && i + 2 < e.len() && e[i + 1] == '{' && e[i + 2] == '{' {
        scan(e, i + 3, depth, Some(i))
    } else if e[i] == '}' && open is Some && i + 1 < e.len() && e[i + 1] == '}' {
        let start = open->0;
        match (byte_slice(e, start, i + 2), byte_slice(e, start + 3, i)) {
            (Some(_), Some(inner)) => if text::trim(inner).len() == 0 {
                Some(Some(FaultModel::EmptyReference(start as nat)))
            } else {
                scan(e, i + 2, depth, None)
            },
            _ => None,
        }
    } else {
        scan(e, i + 1, depth, open)
    }
}

fn scan_chars(e: &[char]) -> (r: Option<Option<ConditionFault>>)
    ensures
        r.deep_view() == scan(e@, 0, 0, None),
{
    let n: usize = e.len();
    let mut i: usize = 0;
    let mut depth: usize = 0;
    let mut open: Option<usize> = None;
    while i < n
        invariant
            n == e@.len(),
            i <= n,
            depth <= i,
            match open {
                Some(s) => s + 3 <= i && scan(e@, 0, 0, None) == scan(
                    e@,
                    i as int,
                    depth as int,
                    Some(s as int),
                ),
                None => scan(e@, 0, 0, None) == scan(e@, i as int, depth as int, None),
            },
        decreases n - i,
    {
        let c = e[i];
        if c == '(' {
            depth = depth + 1;
            i = i + 1;
        } else if c == ')' {
            if depth == 0 {
                return Some(Some(ConditionFault::UnmatchedClosing(i)));
            }
            depth = depth - 1;
            i = i + 1;
        } else if c == '$' && n - i > 2 && e[i + 1] == '{' && e[i + 2] == '{' {
            open = Some(i);
            i = i + 3;
        } else if c == '}' && open.is_some() && n - i > 1 && e[i + 1] == '}' {
            let start: usize = match open {
                Some(s) => s,
                None => 0,
            };
            match (byte_slice_of(e, start, i + 2), byte_slice_of(e, start + 3, i)) {
                (Some(_), Some(inner)) => {
                    if trim_chars(inner).len() == 0 {
                        return Some(Some(ConditionFault::EmptyReference(start)));
                    }
                },
                _ => {
                    return None;
                },
            }
            open = None;
            i = i + 2;
        } else {
            i = i + 1;
        }
    }
    if open.is_some() {
        Some(Some(ConditionFault::UnclosedReference))
    } else if depth != 0 {
        Some(Some(ConditionFault::UnmatchedParens))
    } else {
        Some(None)
    }
}

/// The text of `e` from position `i` on with everything inside quotes and
/// references blotted out by `x`, given the open quote and how many references
/// are open before `i`.
pub open spec fn strip(e: Seq<char>, i: int, quote: Option<char>, depth: int) -> Seq<char>
    decreases e.len() - i,
{
    if i < 0 || i >= e.len() {
        Seq::empty()
    } else if quote is None && depth == 0 && (e[i] == '"' || e[i] == '\'') {
        seq!['x'] + strip(e, i + 1, Some(e[i]), depth)
    } else if quote == Some(e[i]) {
        seq!['x'] + strip(e, i + 1, None, depth)
    } else if quote is None && e[i] == '$' && i + 2 < e.len() && e[i + 1] == '{' && e[i + 2] == '{' {
        seq!['x'] + strip(e, i + 1, None, depth + 1)
    } else if quote is None && depth > 0 && e[i] == '}' && i + 1 < e.len() && e[i + 1] == '}' {
        seq!['x'] + strip(e, i + 2, None, depth - 1)
    } else if quote is Some || depth > 0 {
        seq!['x'] + strip(e, i + 1, quote, depth)
    } else {
        seq![e[i]] + strip(e, i + 1, quote, depth)
    }
}

/// A condition with everything inside quotes and references blotted out.
pub fn strip_vars_and_strings(e: &[char]) -> (r: Vec<char>)
    ensures
        r@ == strip(e@, 0, None, 0),
{
    let n: usize = e.len();
    let mut out: Vec<char> = Vec::new();
    let mut i: usize = 0;
    let mut quote: Option<char> = None;
    let mut depth: usize = 0;
    assert(out@ + strip(e@, 0, None, 0) =~= strip(e@, 0, None, 0));
    while i < n
        invariant
            n == e@.len(),
            i <= n,
            depth <= i,
            out@ + strip(e@, i as int, quote, depth as int) == strip(e@, 0, None, 0),
        decreases n - i,
    {
        let c = e[i];
        let ghost before = out@;
        let ghost rest = strip(e@, i as int, quote, depth as int);
        let same = match quote {
            Some(q) => q == c,
            None => false,
        };
        if quote.is_none() && depth == 0 && (c == '"' || c == '\'') {
            quote = Some(c);
            out.push('x');
            i = i + 1;
        } else if same {
            quote = None;
            out.push('x');
            i = i + 1;
        } else if quote.is_none() && c == '$' && n - i > 2 && e[i + 1] == '{' && e[i + 2] == '{' {
            depth = depth + 1;
            out.push('x');
            i = i + 1;
        } else if quote.is_none() && depth > 0 && c == '}' && n - i > 1 && e[i + 1] == '}' {
            depth = depth - 1;
            out.push('x');
            i = i + 2;
        } else if quote.is_some() || depth > 0 {
            out.push('x');
            i = i + 1;
        } else {
            out.push(c);
            i = i + 1;
        }
        assert(before + rest =~= out@ + strip(e@, i as int, quote, depth as int));
    }
    assert(out@ + strip(e@, n as int, quote, depth as int) =~= out@);
    out
}

/// Whether a character can stand inside a word.
pub open spec fn word_char(c: char) -> bool {
    letters::alphanumeric(c) || c == '_'
}

/// Where the word that contains position `i` ends.
pub open spec fn word_end(s: Seq<char>, i: int) -> int
    decreases s.len() - i,
{
    if 0 <= i < s.len() && word_char(s[i]) {
        word_end(s, i + 1)
    } else {
        i
    }
}

/// Whether a word names a function.
pub open spec fn is_function(w: Seq<char>) -> bool {
    w == "success"@ || w == "failure"@ || w == "always"@
}

/// The first function from position `i` on that is named and not called.
/// Positions of characters are taken for positions of bytes: `None` if a word
/// does not lie between such positions.
pub open spec fn check_words(s: Seq<char>, i: int) -> Option<Option<FaultModel>>
    decreases s.len() + 1 - i,
    when i >= 0
    via check_words_decreases
{
    if i >= s.len() {
        Some(None)
    } else if letters::alphabetic(s[i]) {
        let end = word_end(s, i);
        match byte_slice(s, i, end) {
            Some(w) => if is_function(w) && !text::starts_with(
                conditions::from_byte(s, i)->0,
                w + "()"@,
            ) {
                Some(Some(FaultModel::BadCall(w)))
            } else {
                check_words(s, end + 1)
            },
            None => None,
        }
    } else {
        check_words(s, i + 1)
    }
}

#[via_fn]
proof fn check_words_decreases(s: Seq<char>, i: int) {
    lemma_word_end(s, i);
}

proof fn lemma_word_end(s: Seq<char>, i: int)
    ensures
        word_end(s, i) >= i,
        0 <= i <= s.len() ==> word_end(s, i) <= s.len(),
    decreases s.len() - i,
{
    if 0 <= i < s.len() && word_char(s[i]) {
        lemma_word_end(s, i + 1);
    }
}

fn is_function_name(w: &[char]) -> (r: bool)
    ensures
        r == is_function(w@),
{
    let a = to_chars("success");
    let b = to_chars("failure");
    let c = to_chars("always");
    chars_eq(w, a.as_slice()) || chars_eq(w, b.as_slice()) || chars_eq(w, c.as_slice())
}

fn is_called(s: &[char], at: usize, w: &[char]) -> (r: bool)
    requires
        at <= s@.len(),
    ensures
        r == text::starts_with(s@.skip(at as int), w@ + "()"@),
{
    let mut call = from_chars(w);
    append_str(&mut call, "()");
    let call_chars = to_chars(call.as_str());
    let rest = slice_subrange(s, at, s.len());
    proof {
        let p = w@ + "()"@;
        assert(rest@ =~= s@.skip(at as int));
        if p.len() <= rest@.len() {
            assert(rest@.subrange(0, p.len() as int) =~= rest@.take(p.len() as int));
        }
    }
    occurs_at_chars(rest, call_chars.as_slice(), 0)
}

fn check_words_of(s: &[char]) -> (r: Option<Option<ConditionFault>>)
    ensures
        r.deep_view() == check_words(s@, 0),
{
    let n: usize = s.len();
    let mut i: usize = 0;
    while i < n
        invariant
            n == s@.len(),
            check_words(s@, 0) == check_words(s@, i as int),
        decreases n - i,
    {
        if char_is_alphabetic(s[i]) {
            let start: usize = i;
            while i < n && (char_is_alphanumeric(s[i]) || s[i] == '_')
                invariant
                    n == s@.len(),
                    start <= i <= n,
                    word_end(s@, start as int) == word_end(s@, i as int),
                decreases n - i,
            {
                i = i + 1;
            }
            let end: usize = i;
            assert(word_end(s@, start as int) == end);
            match (chars_in_bytes_of(s, start), chars_in_bytes_of(s, end)) {
                (Some(x), Some(y)) => {
                    if x > y {
                        return None;
                    }
                    let w = slice_subrange(s, x, y);
                    if is_function_name(w) && !is_called(s, x, w) {
                        return Some(Some(ConditionFault::BadCall(from_chars(w))));
                    }
                },
                _ => {
                    return None;
                },
            }
            if end == n {
                assert(check_words(s@, end + 1) == Some(None::<FaultModel>));
                return Some(None);
            }
        }
        i = i + 1;
    }
    Some(None)
}

/// What is wrong with a condition, if anything. `None` for a condition whose
/// references or words begin or end behind text that is not ASCII, so that the
/// positions of their characters are no positions between characters in bytes.
pub open spec fn check_condition(expr: Seq<char>) -> Option<Option<FaultModel>> {
    let e = text::trim(expr);
    if e.len() == 0 {
        Some(Some(FaultModel::Empty))
    } else {
        match scan(e, 0, 0, None) {
            Some(None) => check_words(strip(e, 0, None, 0), 0),
            other => other,
        }
    }
}

/// Checks the operators of a condition: none is refused.
pub fn validate_operators(_e: &[char]) -> (r: Result<(), ConditionFault>)
    ensures
        r is Ok,
{
    Ok(())
}

/// What is wrong with the functions of a condition, if anything.
pub fn validate_functions(e: &[char]) -> (r: Option<Option<ConditionFault>>)
    ensures
        r.deep_view() == check_words(strip(e@, 0, None, 0), 0),
{
    let stripped = strip_vars_and_strings(e);
    check_words_of(stripped.as_slice())
}

/// What is wrong with a condition, if anything; `None` where that cannot be
/// told because of text that is not ASCII.
pub fn check_condition_syntax(expr: &str) -> (r: Option<Option<ConditionFault>>)
    ensures
        r.deep_view() == check_condition(expr@),
{
    let v = to_chars(expr);
    let e = trim_chars(v.as_slice());
    if e.len() == 0 {
        return Some(Some(ConditionFault::Empty));
    }
    match scan_chars(e) {
        Some(None) => match validate_operators(e) {
            Ok(_) => validate_functions(e),
            Err(f) => Some(Some(f)),
        },
        other => other,
    }
}

// ---------------------------------------------------------------------------
// Laws

proof fn lemma_ascii_slice(s: Seq<char>, a: int, b: int)
    requires
        conditions::is_ascii(s),
        0 <= a <= b <= s.len(),
    ensures
        byte_slice(s, a, b) == Some(s.subrange(a, b)),
{
    conditions::lemma_ascii_bytes(s, a);
    conditions::lemma_ascii_bytes(s, b);
}

proof fn lemma_scan_ascii(e: Seq<char>, i: int, depth: int, open: Option<int>)
    requires
        conditions::is_ascii(e),
        0 <= i,
        open matches Some(start) ==> 0 <= start && start + 3 <= i,
    ensures
        scan(e, i, depth, open) is Some,
    decreases e.len() - i,
{
    if i < e.len() {
        if e[i] == '(' {
            lemma_scan_ascii(e, i + 1, depth + 1, open);
        } else if e[i] == ')' {
            lemma_scan_ascii(e, i + 1, depth - 1, open);
        } else if e[i] == '$' && i + 2 < e.len() && e[i + 1] == '{' && e[i + 2] == '{' {
            lemma_scan_ascii(e, i + 3, depth, Some(i));
        } else if e[i] == '}' && open is Some && i + 1 < e.len() && e[i + 1] == '}' {
            lemma_ascii_slice(e, open->0, i + 2);
            lemma_ascii_slice(e, open->0 + 3, i);
            lemma_scan_ascii(e, i + 2, depth, None);
        } else {
            lemma_scan_ascii(e, i + 1, depth, open);
        }
    }
}

proof fn lemma_ascii_behind(c: char, s: Seq<char>)
    requires
        (c as u32) < 0x80,
        conditions::is_ascii(s),
    ensures
        conditions::is_ascii(seq![c] + s),
{
    let t = seq![c] + s;
    assert forall|i: int| 0 <= i < t.len() implies (#[trigger] t[i] as u32) < 0x80 by {
        if i > 0 {
            assert(t[i] == s[i - 1]);
        }
    }
}

proof fn lemma_strip_ascii(e: Seq<char>, i: int, quote: Option<char>, depth: int)
    requires
        conditions::is_ascii(e),
    ensures
        conditions::is_ascii(strip(e, i, quote, depth)),
    decreases e.len() - i,
{
    if 0 <= i < e.len() {
        if quote is None && depth == 0 && (e[i] == '"' || e[i] == '\'') {
            lemma_strip_ascii(e, i + 1, Some(e[i]), depth);
            lemma_ascii_behind('x', strip(e, i + 1, Some(e[i]), depth));
        } else if quote == Some(e[i]) {
            lemma_strip_ascii(e, i + 1, None, depth);
            lemma_ascii_behind('x', strip(e, i + 1, None, depth));
        } else if quote is None && e[i] == '$' && i + 2 < e.len() && e[i + 1] == '{' && e[i + 2] == '{' {
            lemma_strip_ascii(e, i + 1, None, depth + 1);
            lemma_ascii_behind('x', strip(e, i + 1, None, depth + 1));
        } else if quote is None && depth > 0 && e[i] == '}' && i + 1 < e.len() && e[i + 1] == '}' {
            lemma_strip_ascii(e, i + 2, None, depth - 1);
            lemma_ascii_behind('x', strip(e, i + 2, None, depth - 1));
        } else {
            lemma_strip_ascii(e, i + 1, quote, depth);
            lemma_ascii_behind('x', strip(e, i + 1, quote, depth));
            lemma_ascii_behind(e[i], strip(e, i + 1, quote, depth));
        }
    }
}

proof fn lemma_words_ascii(s: Seq<char>, i: int)
    requires
        conditions::is_ascii(s),
        0 <= i,
    ensures
        check_words(s, i) is Some,
    decreases s.len() + 1 - i,
{
    if i < s.len() {
        lemma_word_end(s, i);
        lemma_ascii_slice(s, i, word_end(s, i));
        lemma_words_ascii(s, word_end(s, i) + 1);
        lemma_words_ascii(s, i + 1);
    }
}

/// A condition of ASCII characters can always be checked.
pub proof fn lemma_ascii_checks(expr: Seq<char>)
    requires
        conditions::is_ascii(expr),
    ensures
        check_condition(expr) is Some,
{
    let e = text::trim(expr);
    conditions::lemma_trim_ascii(expr);
    lemma_scan_ascii(e, 0, 0, None);
    lemma_strip_ascii(e, 0, None, 0);
    lemma_words_ascii(strip(e, 0, None, 0), 0);
}

/// White space around a condition does not matter to its syntax.
pub proof fn lemma_check_trim(expr: Seq<char>)
    ensures
        check_condition(text::trim(expr)) == check_condition(expr),
{
    text::lemma_trim_twice(expr);
}

/// Whether a reference begins at a position.
pub open spec fn begins(e: Seq<char>, i: int) -> bool {
    0 <= i && i + 2 < e.len() && e[i] == '$' && e[i + 1] == '{' && e[i + 2] == '{'
}

/// Whether two braces close at a position.
pub open spec fn ends(e: Seq<char>, i: int) -> bool {
    0 <= i && i + 1 < e.len() && e[i] == '}' && e[i + 1] == '}'
}

/// Whether there is only white space from one position up to another.
pub open spec fn blank(e: Seq<char>, a: int, b: int) -> bool {
    forall|k: int| a <= k < b ==> text::is_space(#[trigger] e[k])
}

/// How many more parentheses open than close in the first `n` characters.
pub open spec fn nesting(e: Seq<char>, n: int) -> int
    decreases n,
{
    if n <= 0 {
        0
    } else {
        nesting(e, n - 1) + if e[n - 1] == '(' {
            1int
        } else if e[n - 1] == ')' {
            -1
        } else {
            0
        }
    }
}

/// Whether every parenthesis that closes belongs to one that opens before it,
/// and the other way round.
pub open spec fn balanced(e: Seq<char>) -> bool {
    &&& forall|k: int| 0 <= k <= e.len() ==> #[trigger] nesting(e, k) >= 0
    &&& nesting(e, e.len() as int) == 0
}

/// Whether a reference that begins at or behind `i` holds nothing but white
/// space.
pub open spec fn some_empty(e: Seq<char>, i: int) -> bool {
    exists|b: int, j: int|
        i <= b && b + 3 <= j && #[trigger] begins(e, b) && #[trigger] ends(e, j) && blank(e, b + 3, j)
}

/// Whether braces close at or behind `i`.
pub open spec fn closes(e: Seq<char>, i: int) -> bool {
    exists|j: int| i <= j && #[trigger] ends(e, j)
}

/// Whether braces close behind each beginning of a reference at or behind `i`.
pub open spec fn all_closed(e: Seq<char>, i: int) -> bool {
    forall|b: int| i <= b && #[trigger] begins(e, b) ==> closes(e, b + 3)
}

/// What is left to hold from position `i` on, with a reference open or not.
spec fn rest_holds(e: Seq<char>, i: int, depth: int, open: Option<int>) -> bool {
    &&& forall|k: int| i <= k <= e.len() ==> depth + #[trigger] nesting(e, k) - nesting(e, i) >= 0
    &&& depth + nesting(e, e.len() as int) - nesting(e, i) == 0
    &&& !some_empty(e, i)
    &&& all_closed(e, i)
    &&& open matches Some(s) ==> closes(e, i) && !(exists|j: int|
        i <= j && #[trigger] ends(e, j) && blank(e, s + 3, j))
}

proof fn lemma_trim_end_blank(s: Seq<char>)
    ensures
        text::trim_end(s).len() == 0 <==> blank(s, 0, s.len() as int),
    decreases s.len(),
{
    if s.len() > 0 {
        let d = s.drop_last();
        lemma_trim_end_blank(d);
        if text::is_space(s.last()) {
            assert(blank(d, 0, d.len() as int) <==> blank(s, 0, s.len() as int)) by {
                if blank(d, 0, d.len() as int) {
                    assert forall|k: int| 0 <= k < s.len() implies text::is_space(#[trigger] s[k]) by {
                        if k < d.len() {
                            assert(d[k] == s[k]);
                        }
                    }
                }
                if blank(s, 0, s.len() as int) {
                    assert forall|k: int| 0 <= k < d.len() implies text::is_space(#[trigger] d[k]) by {
                        assert(d[k] == s[k]);
                    }
                }
            }
        } else {
            assert(!text::is_space(s[s.len() - 1]));
        }
    }
}

/// Trimming leaves nothing of white space, and only of that.
proof fn lemma_trim_blank(s: Seq<char>)
    ensures
        text::trim(s).len() == 0 <==> blank(s, 0, s.len() as int),
    decreases s.len(),
{
    if s.len() > 0 && text::is_space(s[0]) {
        let d = s.drop_first();
        lemma_trim_blank(d);
        if blank(d, 0, d.len() as int) {
            assert forall|k: int| 0 <= k < s.len() implies text::is_space(#[trigger] s[k]) by {
                if k > 0 {
                    assert(d[k - 1] == s[k]);
                }
            }
        }
        if blank(s, 0, s.len() as int) {
            assert forall|k: int| 0 <= k < d.len() implies text::is_space(#[trigger] d[k]) by {
                assert(d[k] == s[k + 1]);
            }
        }
    } else {
        lemma_trim_end_blank(s);
    }
}

proof fn lemma_rest_step(e: Seq<char>, i: int, depth: int, open: Option<int>)
    requires
        0 <= i < e.len(),
        !begins(e, i),
        open is Some ==> !ends(e, i),
        open matches Some(s) ==> s + 3 <= i,
        e[i] == ')' ==> depth > 0,
        depth >= 0,
    ensures
        rest_holds(e, i, depth, open) <==> rest_holds(
            e,
            i + 1,
            depth + nesting(e, i + 1) - nesting(e, i),
            open,
        ),
{
    let next = depth + nesting(e, i + 1) - nesting(e, i);
    assert(next >= 0);
    if rest_holds(e, i + 1, next, open) {
        assert forall|k: int| i <= k <= e.len() implies depth + #[trigger] nesting(e, k) - nesting(e, i)
            >= 0 by {
            if k > i {
                assert(next + nesting(e, k) - nesting(e, i + 1) >= 0);
            }
        }
        if some_empty(e, i) {
            let (b, j) = choose|b: int, j: int|
                i <= b && b + 3 <= j && #[trigger] begins(e, b) && #[trigger] ends(e, j) && blank(
                    e,
                    b + 3,
                    j,
                );
            assert(i + 1 <= b);
            assert(some_empty(e, i + 1));
        }
        assert forall|b: int| i <= b && #[trigger] begins(e, b) implies closes(e, b + 3) by {
            assert(i + 1 <= b);
        }
        if open is Some {
            let j = choose|j: int| i + 1 <= j && #[trigger] ends(e, j);
            assert(i <= j && ends(e, j));
        }
        assert(rest_holds(e, i, depth, open));
    }
    if rest_holds(e, i, depth, open) {
        assert forall|k: int| i + 1 <= k <= e.len() implies next + #[trigger] nesting(e, k) - nesting(
            e,
            i + 1,
        ) >= 0 by {
            assert(depth + nesting(e, k) - nesting(e, i) >= 0);
        }
        if some_empty(e, i + 1) {
            let (b, j) = choose|b: int, j: int|
                i + 1 <= b && b + 3 <= j && #[trigger] begins(e, b) && #[trigger] ends(e, j) && blank(
                    e,
                    b + 3,
                    j,
                );
            assert(i <= b && begins(e, b) && ends(e, j));
            assert(some_empty(e, i));
        }
        if open is Some {
            let j = choose|j: int| i <= j && #[trigger] ends(e, j);
            assert(i + 1 <= j && ends(e, j));
        }
        assert(rest_holds(e, i + 1, next, open));
    }
}

proof fn lemma_rest_begins(e: Seq<char>, i: int, depth: int, open: Option<int>)
    requires
        begins(e, i),
        depth >= 0,
        open matches Some(s) ==> 0 <= s && s + 3 <= i,
    ensures
        rest_holds(e, i, depth, open) <==> rest_holds(e, i + 3, depth, Some(i)),
{
    reveal_with_fuel(nesting, 4);
    assert(nesting(e, i + 1) == nesting(e, i));
    assert(nesting(e, i + 2) == nesting(e, i));
    assert(nesting(e, i + 3) == nesting(e, i));
    if rest_holds(e, i, depth, open) {
        assert forall|k: int| i + 3 <= k <= e.len() implies depth + #[trigger] nesting(e, k) - nesting(
            e,
            i + 3,
        ) >= 0 by {
            assert(depth + nesting(e, k) - nesting(e, i) >= 0);
        }
        if some_empty(e, i + 3) {
            let (b, j) = choose|b: int, j: int|
                i + 3 <= b && b + 3 <= j && #[trigger] begins(e, b) && #[trigger] ends(e, j) && blank(
                    e,
                    b + 3,
                    j,
                );
            assert(i <= b && begins(e, b) && ends(e, j));
            assert(some_empty(e, i));
        }
        if exists|j: int| i + 3 <= j && #[trigger] ends(e, j) && blank(e, i + 3, j) {
            let j = choose|j: int| i + 3 <= j && #[trigger] ends(e, j) && blank(e, i + 3, j);
            assert(begins(e, i) && ends(e, j));
            assert(some_empty(e, i));
        }
        assert(rest_holds(e, i + 3, depth, Some(i)));
    }
    if rest_holds(e, i + 3, depth, Some(i)) {
        assert forall|k: int| i <= k <= e.len() implies depth + #[trigger] nesting(e, k) - nesting(e, i)
            >= 0 by {
            if k >= i + 3 {
                assert(depth + nesting(e, k) - nesting(e, i + 3) >= 0);
            }
        }
        if some_empty(e, i) {
            let (b, j) = choose|b: int, j: int|
                i <= b && b + 3 <= j && #[trigger] begins(e, b) && #[trigger] ends(e, j) && blank(
                    e,
                    b + 3,
                    j,
                );
            if b == i {
                assert(i + 3 <= j && ends(e, j) && blank(e, i + 3, j));
            } else {
                assert(b >= i + 3);
                assert(begins(e, b) && ends(e, j));
                assert(some_empty(e, i + 3));
            }
        }
        assert forall|b: int| i <= b && #[trigger] begins(e, b) implies closes(e, b + 3) by {
            if b != i {
                assert(b >= i + 3);
            }
        }
        if let Some(s) = open {
            let j = choose|j: int| i + 3 <= j && #[trigger] ends(e, j);
            assert(i <= j && ends(e, j));
            assert forall|j: int| i <= j && #[trigger] ends(e, j) implies !blank(e, s + 3, j) by {
                assert(j != i);
                assert(!text::is_space(e[i]));
            }
        }
        assert(rest_holds(e, i, depth, open));
    }
}

proof fn lemma_rest_ends(e: Seq<char>, i: int, depth: int, s: int)
    requires
        ends(e, i),
        0 <= s && s + 3 <= i,
        depth >= 0,
    ensures
        rest_holds(e, i, depth, Some(s)) <==> !blank(e, s + 3, i) && rest_holds(e, i + 2, depth, None),
{
    reveal_with_fuel(nesting, 3);
    assert(nesting(e, i + 1) == nesting(e, i));
    assert(nesting(e, i + 2) == nesting(e, i));
    if rest_holds(e, i, depth, Some(s)) {
        assert(!blank(e, s + 3, i));
        assert forall|k: int| i + 2 <= k <= e.len() implies depth + #[trigger] nesting(e, k) - nesting(
            e,
            i + 2,
        ) >= 0 by {
            assert(depth + nesting(e, k) - nesting(e, i) >= 0);
        }
        if some_empty(e, i + 2) {
            let (b, j) = choose|b: int, j: int|
                i + 2 <= b && b + 3 <= j && #[trigger] begins(e, b) && #[trigger] ends(e, j) && blank(
                    e,
                    b + 3,
                    j,
                );
            assert(i <= b && begins(e, b) && ends(e, j));
            assert(some_empty(e, i));
        }
        assert(rest_holds(e, i + 2, depth, None));
    }
    if !blank(e, s + 3, i) && rest_holds(e, i + 2, depth, None) {
        assert forall|k: int| i <= k <= e.len() implies depth + #[trigger] nesting(e, k) - nesting(e, i)
            >= 0 by {
            if k >= i + 2 {
                assert(depth + nesting(e, k) - nesting(e, i + 2) >= 0);
            }
        }
        if some_empty(e, i) {
            let (b, j) = choose|b: int, j: int|
                i <= b && b + 3 <= j && #[trigger] begins(e, b) && #[trigger] ends(e, j) && blank(
                    e,
                    b + 3,
                    j,
                );
            assert(b >= i + 2);
            assert(begins(e, b) && ends(e, j));
            assert(some_empty(e, i + 2));
        }
        assert forall|b: int| i <= b && #[trigger] begins(e, b) implies closes(e, b + 3) by {
            assert(b >= i + 2);
        }
        assert forall|j: int| i <= j && #[trigger] ends(e, j) implies !blank(e, s + 3, j) by {
            if j > i {
                assert(!text::is_space(e[i]));
            }
        }
        assert(rest_holds(e, i, depth, Some(s)));
    }
}

proof fn lemma_scan_rest(e: Seq<char>, i: int, depth: int, open: Option<int>)
    requires
        conditions::is_ascii(e),
        0 <= i <= e.len(),
        depth >= 0,
        open matches Some(s) ==> 0 <= s && s + 3 <= i,
    ensures
        scan(e, i, depth, open) == Some(None::<FaultModel>) <==> rest_holds(e, i, depth, open),
    decreases e.len() - i,
{
    if i == e.len() {
        if !(open is Some) && depth == 0 {
            assert(rest_holds(e, i, depth, open));
        }
    } else if e[i] == '(' {
        lemma_rest_step(e, i, depth, open);
        lemma_scan_rest(e, i + 1, depth + 1, open);
    } else if e[i] == ')' {
        if depth <= 0 {
            assert(nesting(e, i + 1) == nesting(e, i) - 1);
        } else {
            lemma_rest_step(e, i, depth, open);
            lemma_scan_rest(e, i + 1, depth - 1, open);
        }
    } else if begins(e, i) {
        lemma_rest_begins(e, i, depth, open);
        lemma_scan_rest(e, i + 3, depth, Some(i));
    } else if open is Some && ends(e, i) {
        let s = open->0;
        lemma_rest_ends(e, i, depth, s);
        conditions::lemma_ascii_bytes(e, s);
        conditions::lemma_ascii_bytes(e, i + 2);
        conditions::lemma_ascii_bytes(e, s + 3);
        conditions::lemma_ascii_bytes(e, i);
        let inner = e.subrange(s + 3, i);
        lemma_trim_blank(inner);
        assert(blank(inner, 0, inner.len() as int) <==> blank(e, s + 3, i)) by {
            if blank(inner, 0, inner.len() as int) {
                assert forall|k: int| s + 3 <= k < i implies text::is_space(#[trigger] e[k]) by {
                    assert(inner[k - s - 3] == e[k]);
                }
            }
            if blank(e, s + 3, i) {
                assert forall|k: int| 0 <= k < inner.len() implies text::is_space(
                    #[trigger] inner[k],
                ) by {
                    assert(inner[k] == e[k + s + 3]);
                }
            }
        }
        lemma_scan_rest(e, i + 2, depth, None);
    } else {
        lemma_rest_step(e, i, depth, open);
        lemma_scan_rest(e, i + 1, depth, open);
    }
}

/// Nothing is wrong with the parentheses and references of an ASCII condition
/// if and only if the parentheses are balanced, no reference is empty, and
/// braces close behind each reference that begins.
pub proof fn lemma_scan_means(e: Seq<char>)
    requires
        conditions::is_ascii(e),
    ensures
        scan(e, 0, 0, None) == Some(None::<FaultModel>) <==> balanced(e) && !some_empty(e, 0)
            && all_closed(e, 0),
{
    lemma_scan_rest(e, 0, 0, None);
    assert(rest_holds(e, 0, 0, None) <==> balanced(e) && !some_empty(e, 0) && all_closed(e, 0)) by {
        if balanced(e) && !some_empty(e, 0) && all_closed(e, 0) {
            assert forall|k: int| 0 <= k <= e.len() implies 0 + #[trigger] nesting(e, k) - nesting(e, 0)
                >= 0 by {
            }
        }
        if rest_holds(e, 0, 0, None) {
            assert forall|k: int| 0 <= k <= e.len() implies #[trigger] nesting(e, k) >= 0 by {
                assert(0 + nesting(e, k) - nesting(e, 0) >= 0);
            }
        }
    }
}

// ---------------------------------------------------------------------------
// Laws of faults

/// Whether a character has no meaning of its own in a condition: it is no
/// parenthesis, no quote and no part of a reference.
pub open spec fn is_plain_char(c: char) -> bool {
    (c as u32) < 0x80 && c != '(' && c != ')' && c != '"' && c != '\'' && c != '$' && c != '{' && c
        != '}'
}

/// Whether text holds plain characters only.
pub open spec fn is_plain(s: Seq<char>) -> bool {
    forall|k: int| 0 <= k < s.len() ==> is_plain_char(#[trigger] s[k])
}

proof fn lemma_scan_plain(e: Seq<char>, i: int, n: int, depth: int, open: Option<int>)
    requires
        0 <= i <= n <= e.len(),
        forall|k: int| i <= k < n ==> is_plain_char(#[trigger] e[k]),
    ensures
        scan(e, i, depth, open) == scan(e, n, depth, open),
    decreases n - i,
{
    if i < n {
        assert(is_plain_char(e[i]));
        lemma_scan_plain(e, i + 1, n, depth, open);
    }
}

/// A condition of white space is empty.
pub proof fn lemma_blank_is_empty(s: Seq<char>)
    requires
        forall|k: int| 0 <= k < s.len() ==> text::is_space(#[trigger] s[k]),
    ensures
        check_condition(s) == Some(Some(FaultModel::Empty)),
{
    let none = Seq::<char>::empty();
    text::lemma_trim_between(s, none, none);
    assert(s + none + none =~= s);
}

/// A parenthesis that closes none is found where it stands.
pub proof fn lemma_unmatched_closing(a: Seq<char>, b: Seq<char>)
    requires
        is_plain(a),
        a.len() > 0 ==> !text::is_space(a[0]),
        b.len() > 0 ==> !text::is_space(b.last()),
    ensures
        check_condition(a + seq![')'] + b) == Some(Some(FaultModel::UnmatchedClosing(a.len()))),
{
    let e = a + seq![')'] + b;
    assert(!text::is_space(e[0])) by {
        if a.len() > 0 {
            assert(e[0] == a[0]);
        }
    }
    assert(!text::is_space(e.last())) by {
        if b.len() > 0 {
            assert(e.last() == b.last());
        }
    }
    text::lemma_trim_id(e);
    assert forall|k: int| 0 <= k < a.len() implies is_plain_char(#[trigger] e[k]) by {
        assert(e[k] == a[k]);
    }
    lemma_scan_plain(e, 0, a.len() as int, 0, None);
    assert(e[a.len() as int] == ')');
}

/// A parenthesis that is not closed is a fault.
pub proof fn lemma_unmatched_opening(a: Seq<char>, b: Seq<char>)
    requires
        is_plain(a),
        is_plain(b),
        a.len() > 0 ==> !text::is_space(a[0]),
        b.len() > 0 ==> !text::is_space(b.last()),
    ensures
        check_condition(a + seq!['('] + b) == Some(Some(FaultModel::UnmatchedParens)),
{
    let e = a + seq!['('] + b;
    let n = a.len() as int;
    assert(!text::is_space(e[0])) by {
        if a.len() > 0 {
            assert(e[0] == a[0]);
        }
    }
    assert(!text::is_space(e.last())) by {
        if b.len() > 0 {
            assert(e.last() == b.last());
        }
    }
    text::lemma_trim_id(e);
    assert forall|k: int| 0 <= k < n implies is_plain_char(#[trigger] e[k]) by {
        assert(e[k] == a[k]);
    }
    assert forall|k: int| n + 1 <= k < e.len() implies is_plain_char(#[trigger] e[k]) by {
        assert(e[k] == b[k - n - 1]);
    }
    lemma_scan_plain(e, 0, n, 0, None);
    assert(e[n] == '(');
    assert(scan(e, n, 0, None) == scan(e, n + 1, 1, None));
    lemma_scan_plain(e, n + 1, e.len() as int, 1, None);
    assert(scan(e, e.len() as int, 1, None) == Some(Some(FaultModel::UnmatchedParens)));
}

/// A reference that is not closed is a fault.
pub proof fn lemma_unclosed_reference(a: Seq<char>, b: Seq<char>)
    requires
        is_plain(a),
        is_plain(b),
        a.len() > 0 ==> !text::is_space(a[0]),
        b.len() > 0 ==> !text::is_space(b.last()),
    ensures
        check_condition(a + seq!['$', '{', '{'] + b) == Some(Some(FaultModel::UnclosedReference)),
{
    let e = a + seq!['$', '{', '{'] + b;
    let n = a.len() as int;
    assert(e[n] == '$' && e[n + 1] == '{' && e[n + 2] == '{');
    assert(!text::is_space(e[0])) by {
        if a.len() > 0 {
            assert(e[0] == a[0]);
        }
    }
    assert(!text::is_space(e.last())) by {
        if b.len() > 0 {
            assert(e.last() == b.last());
        }
    }
    text::lemma_trim_id(e);
    assert forall|k: int| 0 <= k < n implies is_plain_char(#[trigger] e[k]) by {
        assert(e[k] == a[k]);
    }
    assert forall|k: int| n + 3 <= k < e.len() implies is_plain_char(#[trigger] e[k]) by {
        assert(e[k] == b[k - n - 3]);
    }
    lemma_scan_plain(e, 0, n, 0, None);
    assert(scan(e, n, 0, None) == scan(e, n + 3, 0, Some(n)));
    lemma_scan_plain(e, n + 3, e.len() as int, 0, Some(n));
    assert(scan(e, e.len() as int, 0, Some(n)) == Some(Some(FaultModel::UnclosedReference)));
}

/// A reference that names nothing is found where it begins.
pub proof fn lemma_empty_reference(a: Seq<char>, blanks: Seq<char>, b: Seq<char>)
    requires
        is_plain(a),
        forall|k: int| 0 <= k < blanks.len() ==> #[trigger] blanks[k] == ' ',
        conditions::is_ascii(b),
        a.len() > 0 ==> !text::is_space(a[0]),
        b.len() > 0 ==> !text::is_space(b.last()),
    ensures
        check_condition(a + seq!['$', '{', '{'] + blanks + seq!['}', '}'] + b) == Some(
            Some(FaultModel::EmptyReference(a.len())),
        ),
{
    let e = a + seq!['$', '{', '{'] + blanks + seq!['}', '}'] + b;
    let n = a.len() as int;
    let m = n + 3 + blanks.len();
    assert(e[n] == '$' && e[n + 1] == '{' && e[n + 2] == '{' && e[m] == '}' && e[m + 1] == '}');
    assert(!text::is_space(e[0])) by {
        if a.len() > 0 {
            assert(e[0] == a[0]);
        }
    }
    assert(!text::is_space(e.last())) by {
        if b.len() > 0 {
            assert(e.last() == b.last());
        }
    }
    text::lemma_trim_id(e);
    assert forall|k: int| 0 <= k < n implies is_plain_char(#[trigger] e[k]) by {
        assert(e[k] == a[k]);
    }
    assert forall|k: int| n + 3 <= k < m implies is_plain_char(#[trigger] e[k]) by {
        assert(e[k] == blanks[k - n - 3]);
    }
    assert forall|k: int| 0 <= k < m + 2 implies (#[trigger] e[k] as u32) < 0x80 by {
        if k < n {
            assert(is_plain_char(e[k]));
        } else if n + 3 <= k < m {
            assert(is_plain_char(e[k]));
        }
    }
    lemma_scan_plain(e, 0, n, 0, None);
    lemma_scan_plain(e, n + 3, m, 0, Some(n));
    conditions::lemma_ascii_bytes(e, n);
    conditions::lemma_ascii_bytes(e, n + 3);
    conditions::lemma_ascii_bytes(e, m);
    conditions::lemma_ascii_bytes(e, m + 2);
    let inner = e.subrange(n + 3, m);
    assert(inner =~= blanks);
    let none = Seq::<char>::empty();
    assert(blanks + none + none =~= blanks);
    text::lemma_trim_between(blanks, none, none);
}

proof fn lemma_strip_plain(e: Seq<char>, i: int)
    requires
        0 <= i <= e.len(),
        forall|k: int|
            0 <= k < e.len() ==> #[trigger] e[k] != '"' && e[k] != '\'' && e[k] != '$' && e[k] != '}',
    ensures
        strip(e, i, None, 0) == e.skip(i),
    decreases e.len() - i,
{
    if i < e.len() {
        assert(e[i] != '"' && e[i] != '\'' && e[i] != '$' && e[i] != '}');
        lemma_strip_plain(e, i + 1);
        assert(seq![e[i]] + e.skip(i + 1) =~= e.skip(i));
    } else {
        assert(e.skip(i) =~= Seq::<char>::empty());
    }
}

proof fn lemma_words_skip(s: Seq<char>, i: int, n: int)
    requires
        0 <= i <= n <= s.len(),
        forall|k: int| i <= k < n ==> !letters::alphabetic(#[trigger] s[k]),
    ensures
        check_words(s, i) == check_words(s, n),
    decreases n - i,
{
    if i < n {
        assert(!letters::alphabetic(s[i]));
        lemma_words_skip(s, i + 1, n);
    }
}

proof fn lemma_word_runs(s: Seq<char>, i: int, n: int)
    requires
        0 <= i <= n <= s.len(),
        forall|k: int| i <= k < n ==> letters::alphanumeric(#[trigger] s[k]),
        n < s.len() ==> !letters::alphanumeric(s[n]) && s[n] != '_',
    ensures
        word_end(s, i) == n,
    decreases n - i,
{
    if i < n {
        assert(letters::alphanumeric(s[i]));
        lemma_word_runs(s, i + 1, n);
    }
}

/// The name of a function that is not called is a fault; called, it is none.
pub proof fn lemma_functions_must_be_called(a: Seq<char>, w: Seq<char>, b: Seq<char>)
    requires
        is_plain(a),
        is_plain(b),
        w == "success"@ || w == "failure"@ || w == "always"@,
        a.len() > 0 ==> !text::is_space(a[0]),
        b.len() > 0 ==> !text::is_space(b.last()),
        forall|k: int| 0 <= k < a.len() ==> !letters::alphabetic(#[trigger] a[k]),
        forall|k: int| 0 <= k < b.len() ==> !letters::alphabetic(#[trigger] b[k]),
        b.len() > 0 ==> !letters::alphanumeric(b[0]) && b[0] != '_',
        letters::alphabetic(w[0]),
        forall|k: int| 0 <= k < w.len() ==> letters::alphanumeric(#[trigger] w[k]),
        !letters::alphanumeric('(') && !letters::alphabetic(')'),
    ensures
        check_condition(a + w + b) == Some(Some(FaultModel::BadCall(w))),
        check_condition(a + w + "()"@ + b) == Some(None::<FaultModel>),
{
    reveal_strlit("success");
    reveal_strlit("failure");
    reveal_strlit("always");
    reveal_strlit("()");
    assert("success"@.len() == 7 && "failure"@.len() == 7 && "always"@.len() == 6);
    assert(is_plain(w));
    assert(!text::is_space(w[0]) && !text::is_space(w.last()));
    lemma_uncalled(a, w, b);
    lemma_called(a, w, b);
}

proof fn lemma_called(a: Seq<char>, w: Seq<char>, b: Seq<char>)
    requires
        is_plain(a),
        is_plain(w),
        is_plain(b),
        w.len() > 0,
        !text::is_space(w[0]),
        a.len() > 0 ==> !text::is_space(a[0]),
        b.len() > 0 ==> !text::is_space(b.last()),
        forall|k: int| 0 <= k < a.len() ==> !letters::alphabetic(#[trigger] a[k]),
        forall|k: int| 0 <= k < b.len() ==> !letters::alphabetic(#[trigger] b[k]),
        letters::alphabetic(w[0]),
        forall|k: int| 0 <= k < w.len() ==> letters::alphanumeric(#[trigger] w[k]),
        !letters::alphanumeric('(') && !letters::alphabetic(')'),
    ensures
        check_condition(a + w + "()"@ + b) == Some(None::<FaultModel>),
{
    reveal_strlit("()");
    let n = a.len() as int;
    let m = n + w.len() as int;
    let e = a + w + "()"@ + b;
    assert(e[m] == '(' && e[m + 1] == ')');
    assert(!text::is_space(e[0])) by {
        if a.len() > 0 {
            assert(e[0] == a[0]);
        } else {
            assert(e[0] == w[0]);
        }
    }
    assert(!text::is_space(e.last())) by {
        if b.len() > 0 {
            assert(e.last() == b.last());
        }
    }
    text::lemma_trim_id(e);
    assert forall|k: int| 0 <= k < m implies is_plain_char(#[trigger] e[k]) by {
        if k < n {
            assert(e[k] == a[k]);
        } else {
            assert(e[k] == w[k - n]);
        }
    }
    assert forall|k: int| m + 2 <= k < e.len() implies is_plain_char(#[trigger] e[k]) by {
        assert(e[k] == b[k - m - 2]);
    }
    lemma_scan_plain(e, 0, m, 0, None);
    lemma_scan_plain(e, m + 2, e.len() as int, 0, None);
    assert(scan(e, m + 1, 1, None) == scan(e, m + 2, 0, None));
    assert(scan(e, m, 0, None) == scan(e, m + 1, 1, None));
    assert forall|k: int| 0 <= k < e.len() implies #[trigger] e[k] != '"' && e[k] != '\'' && e[k] != '$'
        && e[k] != '}' by {
        if k < m || k >= m + 2 {
            assert(is_plain_char(e[k]));
        }
    }
    lemma_strip_plain(e, 0);
    assert(e.skip(0) =~= e);
    assert forall|k: int| 0 <= k < n implies !letters::alphabetic(#[trigger] e[k]) by {
        assert(e[k] == a[k]);
    }
    lemma_words_skip(e, 0, n);
    assert forall|k: int| n <= k < m implies letters::alphanumeric(#[trigger] e[k]) by {
        assert(e[k] == w[k - n]);
    }
    lemma_word_runs(e, n, m);
    assert forall|k: int| 0 <= k < m implies (#[trigger] e[k] as u32) < 0x80 by {
        assert(is_plain_char(e[k]));
    }
    conditions::lemma_ascii_bytes(e, n);
    conditions::lemma_ascii_bytes(e, m);
    assert(e.subrange(n, m) =~= w);
    assert(e[n] == w[0]);
    let rest = e.skip(n);
    assert(rest.take(w.len() as int + 2) =~= w + "()"@);
    assert forall|k: int| m + 1 <= k < e.len() implies !letters::alphabetic(#[trigger] e[k]) by {
        if k >= m + 2 {
            assert(e[k] == b[k - m - 2]);
        }
    }
    lemma_words_skip(e, m + 1, e.len() as int);
    assert(check_words(e, e.len() as int) == Some(None::<FaultModel>));
}

proof fn lemma_uncalled(a: Seq<char>, w: Seq<char>, b: Seq<char>)
    requires
        is_plain(a),
        is_plain(w),
        is_plain(b),
        is_function(w),
        w.len() > 0,
        !text::is_space(w[0]) && !text::is_space(w.last()),
        a.len() > 0 ==> !text::is_space(a[0]),
        b.len() > 0 ==> !text::is_space(b.last()),
        forall|k: int| 0 <= k < a.len() ==> !letters::alphabetic(#[trigger] a[k]),
        b.len() > 0 ==> !letters::alphanumeric(b[0]) && b[0] != '_',
        letters::alphabetic(w[0]),
        forall|k: int| 0 <= k < w.len() ==> letters::alphanumeric(#[trigger] w[k]),
    ensures
        check_condition(a + w + b) == Some(Some(FaultModel::BadCall(w))),
{
    reveal_strlit("()");
    let e = a + w + b;
    let n = a.len() as int;
    let m = n + w.len() as int;
    assert(!text::is_space(e[0])) by {
        if a.len() > 0 {
            assert(e[0] == a[0]);
        } else {
            assert(e[0] == w[0]);
        }
    }
    assert(!text::is_space(e.last())) by {
        if b.len() > 0 {
            assert(e.last() == b.last());
        } else {
            assert(e.last() == w.last());
        }
    }
    text::lemma_trim_id(e);
    assert forall|k: int| 0 <= k < e.len() implies is_plain_char(#[trigger] e[k]) by {
        if k < n {
            assert(e[k] == a[k]);
        } else if k < m {
            assert(e[k] == w[k - n]);
        } else {
            assert(e[k] == b[k - m]);
        }
    }
    lemma_scan_plain(e, 0, e.len() as int, 0, None);
    lemma_strip_plain(e, 0);
    assert(e.skip(0) =~= e);
    assert forall|k: int| 0 <= k < n implies !letters::alphabetic(#[trigger] e[k]) by {
        assert(e[k] == a[k]);
    }
    lemma_words_skip(e, 0, n);
    assert forall|k: int| n <= k < m implies letters::alphanumeric(#[trigger] e[k]) by {
        assert(e[k] == w[k - n]);
    }
    if m < e.len() {
        assert(e[m] == b[0]);
    }
    lemma_word_runs(e, n, m);
    conditions::lemma_ascii_bytes(e, n);
    conditions::lemma_ascii_bytes(e, m);
    assert(e.subrange(n, m) =~= w);
    assert(e[n] == w[0]);
    let rest = e.skip(n);
    if text::starts_with(rest, w + "()"@) {
        assert(rest.take(w.len() as int + 2)[w.len() as int] == '(');
        assert(rest[w.len() as int] == e[m]);
        assert(is_plain_char(e[m]));
    }
}

proof fn lemma_strip_quoted(e: Seq<char>, i: int, n: int, q: char)
    requires
        0 <= i <= n < e.len(),
        n == e.len() - 1,
        e[n] == q,
        forall|k: int| i <= k < n ==> #[trigger] e[k] != q,
    ensures
        strip(e, i, Some(q), 0).len() == e.len() - i,
        forall|k: int| 0 <= k < e.len() - i ==> #[trigger] strip(e, i, Some(q), 0)[k] == 'x',
    decreases n - i,
{
    if i < n {
        assert(e[i] != q);
        lemma_strip_quoted(e, i + 1, n, q);
        let rest = strip(e, i + 1, Some(q), 0);
        assert(strip(e, i, Some(q), 0) == seq!['x'] + rest);
        assert forall|k: int| 0 <= k < e.len() - i implies #[trigger] strip(e, i, Some(q), 0)[k] == 'x' by {
            if k > 0 {
                assert((seq!['x'] + rest)[k] == rest[k - 1]);
            }
        }
    } else {
        assert(strip(e, n + 1, None, 0) =~= Seq::<char>::empty());
        assert(strip(e, n, Some(q), 0) =~= seq!['x']);
    }
}

proof fn lemma_word_end_after(s: Seq<char>, i: int)
    requires
        0 <= i <= s.len(),
    ensures
        i <= word_end(s, i) <= s.len(),
    decreases s.len() - i,
{
    if i < s.len() && word_char(s[i]) {
        lemma_word_end_after(s, i + 1);
    }
}

proof fn lemma_marks_are_no_words(s: Seq<char>, i: int)
    requires
        0 <= i,
        forall|k: int| 0 <= k < s.len() ==> #[trigger] s[k] == 'x',
    ensures
        check_words(s, i) == Some(None::<FaultModel>),
    decreases s.len() + 1 - i,
{
    reveal_strlit("success");
    reveal_strlit("failure");
    reveal_strlit("always");
    if i < s.len() {
        if letters::alphabetic(s[i]) {
            lemma_word_end_after(s, i);
            let end = word_end(s, i);
            conditions::lemma_ascii_bytes(s, i);
            conditions::lemma_ascii_bytes(s, end);
            let w = s.subrange(i, end);
            assert(byte_slice(s, i, end) == Some(w));
            assert(!is_function(w)) by {
                assert("success"@[0] == 's' && "failure"@[0] == 'f' && "always"@[0] == 'a');
                assert("success"@.len() == 7 && "failure"@.len() == 7 && "always"@.len() == 6);
                if w.len() > 0 {
                    assert(w[0] == s[i]);
                }
            }
            lemma_marks_are_no_words(s, end + 1);
        } else {
            lemma_marks_are_no_words(s, i + 1);
        }
    }
}

/// Text in quotes is not looked at: a function's name, or anything else without
/// parentheses and references, may stand there.
pub proof fn lemma_quoted_text_is_fine(w: Seq<char>, q: char)
    requires
        q == '"' || q == '\'',
        forall|k: int|
            0 <= k < w.len() ==> #[trigger] w[k] != q && w[k] != '(' && w[k] != ')' && w[k] != '$' && w[k]
                != '}',
    ensures
        check_condition(seq![q] + w + seq![q]) == Some(None::<FaultModel>),
{
    let e = seq![q] + w + seq![q];
    let n = e.len() - 1;
    assert(e[0] == q && e[n] == q && e.last() == q);
    text::lemma_trim_id(e);
    assert forall|k: int| 1 <= k < n implies #[trigger] e[k] != q && e[k] != '(' && e[k] != ')' && e[k]
        != '$' && e[k] != '}' by {
        assert(e[k] == w[k - 1]);
    }
    lemma_scan_passes(e, 0);
    lemma_strip_quoted(e, 1, n, q);
    let s = strip(e, 0, None, 0);
    let rest = strip(e, 1, Some(q), 0);
    assert(s == seq!['x'] + rest);
    assert forall|k: int| 0 <= k < s.len() implies #[trigger] s[k] == 'x' by {
        if k > 0 {
            assert(s[k] == rest[k - 1]);
        }
    }
    lemma_marks_are_no_words(s, 0);
}

proof fn lemma_scan_passes(e: Seq<char>, i: int)
    requires
        0 <= i <= e.len(),
        forall|k: int|
            0 <= k < e.len() ==> #[trigger] e[k] != '(' && e[k] != ')' && e[k] != '$' && e[k] != '}',
    ensures
        scan(e, i, 0, None) == Some(None::<FaultModel>),
    decreases e.len() - i,
{
    if i < e.len() {
        assert(e[i] != '(' && e[i] != ')' && e[i] != '$' && e[i] != '}');
        lemma_scan_passes(e, i + 1);
    }
}

/// What is said of a fault tells where it is, or which function it concerns.
pub proof fn lemma_faults_tell_where(i: nat, name: Seq<char>)
    ensures
        text::ends_with(fault_text(FaultModel::UnmatchedClosing(i)), numbers::decimal(i)),
        text::ends_with(fault_text(FaultModel::EmptyReference(i)), numbers::decimal(i)),
        text::ends_with(fault_text(FaultModel::BadCall(name)), name + "()"@),
        fault_text(FaultModel::Empty) == "Empty expression"@,
        fault_text(FaultModel::UnclosedReference) == "Unclosed variable reference"@,
        fault_text(FaultModel::UnmatchedParens) == "Unmatched parentheses"@,
{
    text::lemma_before_end(
        "Unmatched closing parenthesis at position "@,
        numbers::decimal(i),
    );
    text::lemma_before_end("Empty variable reference at position "@, numbers::decimal(i));
    let f = fault_text(FaultModel::BadCall(name));
    let t = name + "()"@;
    assert(f.skip(f.len() - t.len()) =~= t);
}

proof fn lemma_strip_inside(e: Seq<char>, i: int, n: int)
    requires
        0 <= i <= n,
        n + 2 == e.len(),
        e[n] == '}' && e[n + 1] == '}',
        forall|k: int| i <= k < n ==> #[trigger] e[k] != '}' && e[k] != '$',
    ensures
        strip(e, i, None, 1).len() == n - i + 1,
        forall|k: int| 0 <= k < n - i + 1 ==> #[trigger] strip(e, i, None, 1)[k] == 'x',
    decreases n - i,
{
    let s = strip(e, i, None, 1);
    if i < n {
        assert(e[i] != '}' && e[i] != '$');
        lemma_strip_inside(e, i + 1, n);
        let rest = strip(e, i + 1, None, 1);
        assert(s == seq!['x'] + rest);
        assert forall|k: int| 0 <= k < n - i + 1 implies #[trigger] s[k] == 'x' by {
            if k > 0 {
                assert((seq!['x'] + rest)[k] == rest[k - 1]);
            }
        }
    } else {
        assert(strip(e, n + 2, None, 0) =~= Seq::<char>::empty());
        assert(s =~= seq!['x']);
    }
}

/// The name of a reference is not looked at: a function's name, or anything
/// else that is no white space alone, may stand there.
pub proof fn lemma_reference_is_fine(w: Seq<char>, i: int)
    requires
        0 <= i < w.len(),
        !text::is_space(w[i]),
        forall|k: int|
            0 <= k < w.len() ==> (#[trigger] w[k] as u32) < 0x80 && w[k] != '(' && w[k] != ')' && w[k]
                != '$' && w[k] != '}',
    ensures
        check_condition(seq!['$', '{', '{'] + w + seq!['}', '}']) == Some(None::<FaultModel>),
{
    let e = seq!['$', '{', '{'] + w + seq!['}', '}'];
    let n = 3 + w.len() as int;
    assert(e[0] == '$' && e[1] == '{' && e[2] == '{' && e[n] == '}' && e[n + 1] == '}');
    assert(e.last() == '}');
    text::lemma_trim_id(e);
    assert forall|k: int| 3 <= k < n implies (#[trigger] e[k] as u32) < 0x80 && e[k] != '(' && e[k] != ')'
        && e[k] != '$' && e[k] != '}' by {
        assert(e[k] == w[k - 3]);
    }
    lemma_scan_inside(e, 3, n);
    conditions::lemma_ascii_bytes(e, 0);
    conditions::lemma_ascii_bytes(e, 3);
    conditions::lemma_ascii_bytes(e, n);
    conditions::lemma_ascii_bytes(e, n + 2);
    assert(e.subrange(3, n) =~= w);
    assert(text::trim(w).len() > 0) by {
        if text::trim(w).len() == 0 {
            let (a, b) = text::lemma_trim_parts(w);
            assert(w == a + text::trim(w) + b);
            if i < a.len() {
                assert(w[i] == a[i]);
            } else {
                assert(w[i] == b[i - a.len()]);
            }
        }
    }
    assert(scan(e, n + 2, 0, None) == Some(None::<FaultModel>));
    assert(scan(e, n, 0, Some(0)) == scan(e, n + 2, 0, None));
    assert(scan(e, 0, 0, None) == scan(e, 3, 0, Some(0)));
    lemma_strip_inside(e, 1, n);
    let s = strip(e, 0, None, 0);
    let rest = strip(e, 1, None, 1);
    assert(s == seq!['x'] + rest);
    assert forall|k: int| 0 <= k < s.len() implies #[trigger] s[k] == 'x' by {
        if k > 0 {
            assert(s[k] == rest[k - 1]);
        }
    }
    lemma_marks_are_no_words(s, 0);
}

proof fn lemma_scan_inside(e: Seq<char>, i: int, n: int)
    requires
        3 <= i <= n < e.len(),
        forall|k: int|
            i <= k < n ==> #[trigger] e[k] != '(' && e[k] != ')' && e[k] != '$' && e[k] != '}',
    ensures
        scan(e, i, 0, Some(0)) == scan(e, n, 0, Some(0)),
    decreases n - i,
{
    if i < n {
        assert(e[i] != '(' && e[i] != ')' && e[i] != '$' && e[i] != '}');
        lemma_scan_inside(e, i + 1, n);
    }
}

} // verus!
