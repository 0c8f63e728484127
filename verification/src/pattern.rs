//! Shell patterns of the `glob` crate and regular expressions of the `regex`
//! crate.
use vstd::prelude::*;

use crate::letters;

verus! {

/// What `glob::Pattern::new` says against a pattern, if it refuses it.
pub uninterp spec fn glob_error(pattern: Seq<char>) -> Option<Seq<char>>;

/// Whether a text matches a pattern, as `glob::Pattern::matches` tells; `None`
/// for a pattern that `glob::Pattern::new` refuses.
pub uninterp spec fn glob_match(pattern: Seq<char>, text: Seq<char>) -> Option<bool>;

/// Text without backslashes. What separates the components of a path differs
/// from one system to another only in the backslash.
pub open spec fn portable(s: Seq<char>) -> bool {
    !s.contains('\\')
}

/// `glob::Pattern::new`: the message with which it refuses a pattern, or
/// `None` if it takes it. The result depends on the pattern alone where that
/// holds no backslash; nothing is said of other patterns.
#[verifier::external_body]
pub(crate) fn glob_check(pattern: &str) -> (r: Option<String>)
    ensures
        portable(pattern@) ==> r.deep_view() == glob_error(pattern@),
{
    glob::Pattern::new(pattern).err().map(|e| e.to_string())
}

/// `glob::Pattern::matches`: whether the whole text matches the pattern, or
/// `None` for a pattern that is refused. The result depends on the two texts
/// alone where neither holds a backslash; nothing is said of other texts.
#[verifier::external_body]
pub(crate) fn glob_matches(pattern: &str, text: &str) -> (r: Option<bool>)
    ensures
        portable(pattern@) && portable(text@) ==> r == glob_match(pattern@, text@),
{
    glob::Pattern::new(pattern).map(|p| p.matches(text)).ok()
}

/// Whether a regular expression matches somewhere in a text, as
/// `regex::Regex::is_match` tells; `None` for an expression that
/// `regex::Regex::new` refuses for another reason than the memory that it
/// takes.
pub uninterp spec fn regex_match(expr: Seq<char>, text: Seq<char>) -> Option<bool>;

/// Whether an expression has neither groups nor alternatives nor classes, but
/// for the point, and repeats at will only that: a backslash stands only before
/// punctuation, and brackets, bars, stars that do not follow a point and the
/// signs for one or more and for none or one stand behind a backslash.
pub open spec fn flat(expr: Seq<char>) -> bool
    decreases expr.len(),
{
    if expr.len() == 0 {
        true
    } else if expr[0] == '\\' {
        &&& expr.len() > 1
        &&& !letters::ascii_letter(expr[1]) && !letters::ascii_digit(expr[1])
        &&& flat(expr.skip(2))
    } else if expr[0] == '.' && expr.len() > 1 && expr[1] == '*' {
        flat(expr.skip(2))
    } else {
        &&& expr[0] != '*'
        &&& expr[0] != '(' && expr[0] != ')' && expr[0] != '[' && expr[0] != ']'
        &&& expr[0] != '|' && expr[0] != '?' && expr[0] != '+'
        &&& flat(expr.skip(1))
    }
}

/// How many braces open.
pub open spec fn braces(s: Seq<char>) -> nat
    decreases s.len(),
{
    if s.len() == 0 {
        0
    } else {
        braces(s.drop_last()) + if s.last() == '{' {
            1nat
        } else {
            0
        }
    }
}

/// Whether no brace opens right behind one that closes.
pub open spec fn unstacked(s: Seq<char>) -> bool
    decreases s.len(),
{
    s.len() < 2 || (unstacked(s.drop_last()) && !(s[s.len() - 2] == '}' && s.last() == '{'))
}

/// Whether no number has more than two digits.
pub open spec fn small_numbers(s: Seq<char>) -> bool
    decreases s.len(),
{
    s.len() < 3 || (small_numbers(s.drop_last()) && !(letters::ascii_digit(s[s.len() - 3])
        && letters::ascii_digit(s[s.len() - 2]) && letters::ascii_digit(s.last())))
}

/// Whether the text has no braces, or few, none right behind another, and no
/// large numbers.
pub open spec fn few_repeats(s: Seq<char>) -> bool {
    braces(s) == 0 || (braces(s) <= 4 && unstacked(s) && small_numbers(s))
}

/// Whether an expression is at most some thousand characters long, is flat and
/// counts few repetitions. Compiled it then stays below the ten megabytes that
/// are allowed: a point takes fewer than fifty states, any other character at
/// most four, of at most 32 bytes and few transitions each, and a count in
/// braces repeats a single one of them at most 99 times.
pub open spec fn light(expr: Seq<char>) -> bool {
    expr.len() <= 5000 && flat(expr) && few_repeats(expr)
}

/// `regex::Regex::new` and `regex::Regex::is_match`: whether a regular
/// expression matches somewhere in a text, or `None` for an expression that is
/// refused. Whether it is refused does not depend on the text. An expression
/// that takes too much memory when compiled is refused too, and how much it
/// takes differs from one machine to another: of expressions that are not light
/// nothing is said where they are refused.
#[verifier::external_body]
pub(crate) fn regex_matches(expr: &str, text: &str) -> (r: Option<bool>)
    ensures
        light(expr@) || r is Some ==> r == regex_match(expr@, text@),
        light(expr@) || r is Some ==> forall|t: Seq<char>|
            (#[trigger] regex_match(expr@, t)) is Some <==> r is Some,
{
    regex::Regex::new(expr).map(|re| re.is_match(text)).ok()
}

} // verus!
