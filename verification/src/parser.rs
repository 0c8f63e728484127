//! What has to hold of a pipeline file.
use vstd::prelude::*;

use crate::models::Pipeline;
use crate::numbers;
use crate::numbers::push_decimal;
use crate::text;
use crate::text::{append_str, split_str};

verus! {

/// The file that a pipeline is read from.
#[derive(Debug, Clone)]
pub struct ParseContext {
    pub file_path: String,
}

impl ParseContext {
    /// The context of the given file.
    pub fn new(file_path: &str) -> (r: ParseContext)
        ensures
            r.file_path@ == file_path@,
    {
        ParseContext { file_path: file_path.to_owned() }
    }

    /// The error of a file that is not there.
    pub fn not_found(&self) -> (r: ParseError)
        ensures
            r matches ParseError::NotFound(p) && p@ == self.file_path@,
    {
        ParseError::NotFound(self.file_path.clone())
    }

    /// The error of a file that cannot be read.
    pub fn unreadable(&self) -> (r: ParseError)
        ensures
            r matches ParseError::Unreadable(p) && p@ == self.file_path@,
    {
        ParseError::Unreadable(self.file_path.clone())
    }
}

/// Why a pipeline cannot be read.
#[derive(Debug, Clone)]
pub enum ParseError {
    NotFound(String),
    Unreadable(String),
    /// The text is no pipeline: where that shows, and what the parser says.
    Malformed { line: usize, column: usize, message: String },
    NoJobs,
}

/// What is said of a pipeline that cannot be read. Only the first line of what
/// the parser says is kept.
pub open spec fn parse_error_text(e: ParseError) -> Seq<char> {
    match e {
        ParseError::NotFound(path) => "Pipeline file not found: "@ + path@,
        ParseError::Unreadable(path) => "Failed to read pipeline file: "@ + path@,
        ParseError::Malformed { line, column, message } => "YAML parse error at line "@
            + numbers::decimal(line as nat) + ", column "@ + numbers::decimal(column as nat) + ": "@
            + text::split(message@, '\n')[0],
        ParseError::NoJobs => "Pipeline must define at least one job"@,
    }
}

impl ParseError {
    /// The error of malformed text; the place is given as 0, 0 if the parser
    /// does not know it.
    pub fn malformed(place: Option<(usize, usize)>, message: &str) -> (r: ParseError)
        ensures
            r matches ParseError::Malformed { line, column, message: m } && m@ == message@ && (
            match place {
                Some((l, c)) => line == l && column == c,
                None => line == 0 && column == 0,
            }),
    {
        match place {
            Some((line, column)) => ParseError::Malformed {
                line,
                column,
                message: message.to_owned(),
            },
            None => ParseError::Malformed { line: 0, column: 0, message: message.to_owned() },
        }
    }

    /// What is said of a pipeline that cannot be read.
    pub fn message(&self) -> (r: String)
        ensures
            r@ == parse_error_text(*self),
    {
        match self {
            ParseError::NotFound(path) => {
                let mut s = "Pipeline file not found: ".to_owned();
                append_str(&mut s, path.as_str());
                s
            },
            ParseError::Unreadable(path) => {
                let mut s = "Failed to read pipeline file: ".to_owned();
                append_str(&mut s, path.as_str());
                s
            },
            ParseError::Malformed { line, column, message } => {
                let mut s = "YAML parse error at line ".to_owned();
                push_decimal(&mut s, *line as u128);
                append_str(&mut s, ", column ");
                push_decimal(&mut s, *column as u128);
                append_str(&mut s, ": ");
                let lines = split_str(message.as_str(), '\n');
                assert(lines@[0]@ == lines.deep_view()[0]);
                append_str(&mut s, lines[0].as_str());
                s
            },
            ParseError::NoJobs => "Pipeline must define at least one job".to_owned(),
        }
    }
}

/// A pipeline as it was read, if it has a job.
pub fn check_parsed(pipeline: Pipeline) -> (r: Result<Pipeline, ParseError>)
    ensures
        match r {
            Ok(p) => pipeline.jobs@.len() > 0 && p == pipeline,
            Err(e) => pipeline.jobs@.len() == 0 && e is NoJobs,
        },
{
    if pipeline.jobs.len() == 0 {
        Err(ParseError::NoJobs)
    } else {
        Ok(pipeline)
    }
}

// ---------------------------------------------------------------------------
// Laws

/// Of what the parser says of a malformed text, the first line is shown, behind
/// the place.
pub proof fn lemma_first_line_is_shown(line: usize, column: usize, message: String, a: Seq<char>, b: Seq<char>)
    requires
        !a.contains('\n'),
        !b.contains('\n'),
        message@ == a + seq!['\n'] + b || message@ == a,
    ensures
        parse_error_text(ParseError::Malformed { line, column, message }) == "YAML parse error at line "@
            + numbers::decimal(line as nat) + ", column "@ + numbers::decimal(column as nat) + ": "@
            + a,
{
    text::lemma_split_one(a, '\n');
    text::lemma_split_two(a, '\n', b);
    assert(seq![a][0] == a && seq![a, b][0] == a);
}

} // verus!
