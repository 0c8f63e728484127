//! What a run writes: to the terminal, to log files, as events.
use vstd::prelude::*;
use vstd::utf8::encode_utf8;

use crate::color;
use crate::color::{paint, Ink};
use crate::paths;
use crate::paths::{ci_path_str, join_path_str};
use crate::string_map::StringMap;
use crate::text;
use crate::text::{append_str, safe_name_str, str_eq};

verus! {

/// In which form a run tells of itself.
#[derive(Debug, Clone, Copy, PartialEq, Eq, Structural)]
pub enum OutputMode {
    Terminal,
    Json,
    Junit,
    Html,
}

/// Where a run writes its logs, and in which form it tells of itself.
#[derive(Debug, Clone)]
pub struct Logger {
    pub output_mode: OutputMode,
    pub base_dir: String,
}

/// The directory of the log files.
pub open spec fn logs_path(base: Seq<char>) -> Seq<char> {
    paths::ci_path(base, "logs"@)
}

/// The log file of a job.
pub open spec fn log_path(base: Seq<char>, job: Seq<char>) -> Seq<char> {
    paths::join_path(logs_path(base), text::safe_name(job) + ".log"@)
}

impl Logger {
    /// A logger that keeps its files under the given directory.
    pub fn new(base_dir: &str, output_mode: OutputMode) -> (r: Logger)
        ensures
            r.base_dir@ == base_dir@,
            r.output_mode == output_mode,
    {
        Logger { output_mode, base_dir: base_dir.to_owned() }
    }

    /// The directory of the log files.
    pub fn logs_dir(&self) -> (r: String)
        ensures
            r@ == logs_path(self.base_dir@),
    {
        ci_path_str(self.base_dir.as_str(), "logs")
    }

    /// The log file of a job.
    pub fn get_log_path(&self, job_name: &str) -> (r: String)
        ensures
            r@ == log_path(self.base_dir@, job_name@),
    {
        let mut name = safe_name_str(job_name);
        append_str(&mut name, ".log");
        join_path_str(self.logs_dir().as_str(), name.as_str())
    }

    /// What a line brings to the terminal: nothing unless the run tells of
    /// itself there.
    pub fn log_line(&self, line: &str) -> (r: Option<String>)
        ensures
            r.deep_view() == (if self.output_mode == OutputMode::Terminal {
                Some(line@)
            } else {
                None
            }),
    {
        if self.output_mode == OutputMode::Terminal {
            Some(line.to_owned())
        } else {
            None
        }
    }

    /// What an event brings to the output: itself if the run tells of itself
    /// in events, else nothing.
    pub fn emit_event(&self, event: LogEvent) -> (r: Option<LogEvent>)
        ensures
            r == (if self.output_mode == OutputMode::Json {
                Some(event)
            } else {
                None
            }),
    {
        if self.output_mode == OutputMode::Json {
            Some(event)
        } else {
            None
        }
    }
}

/// Something that happened during a run.
#[derive(Debug, Clone)]
pub struct LogEvent {
    pub timestamp: String,
    pub event_type: String,
    pub job_name: String,
    pub status: String,
    pub message: String,
}

impl LogEvent {
    /// An event at the given time.
    pub fn at(timestamp: &str, event_type: &str, job_name: &str, status: &str, message: &str) -> (r: LogEvent)
        ensures
            r.timestamp@ == timestamp@,
            r.event_type@ == event_type@,
            r.job_name@ == job_name@,
            r.status@ == status@,
            r.message@ == message@,
    {
        LogEvent {
            timestamp: timestamp.to_owned(),
            event_type: event_type.to_owned(),
            job_name: job_name.to_owned(),
            status: status.to_owned(),
            message: message.to_owned(),
        }
    }
}

/// What a step left behind.
#[derive(Debug, Clone)]
pub struct StepOutput {
    pub name: String,
    pub output: String,
    pub exit_code: i32,
    pub duration_ms: u64,
    pub outputs: StringMap<String>,
}

// ---------------------------------------------------------------------------
// Colours of jobs

/// The polynomial hash of bytes with factor 31, modulo `2^64`.
pub open spec fn byte_hash(bytes: Seq<u8>) -> nat
    decreases bytes.len(),
{
    if bytes.len() == 0 {
        0
    } else {
        (byte_hash(bytes.drop_last()) * 31 + bytes.last() as nat) % 0x1_0000_0000_0000_0000
    }
}

fn byte_hash_of(bytes: &[u8]) -> (r: u64)
    ensures
        r == byte_hash(bytes@),
{
    let mut hash: u64 = 0;
    let mut i: usize = 0;
    assert(bytes@.take(0) =~= Seq::<u8>::empty());
    while i < bytes.len()
        invariant
            i <= bytes@.len(),
            hash == byte_hash(bytes@.take(i as int)),
        decreases bytes@.len() - i,
    {
        assert(bytes@.take(i + 1).drop_last() =~= bytes@.take(i as int));
        let wide: u128 = hash as u128 * 31 + bytes[i] as u128;
        hash = (wide % 0x1_0000_0000_0000_0000) as u64;
        i = i + 1;
    }
    assert(bytes@.take(bytes@.len() as int) =~= bytes@);
    hash
}

/// The name of the colour with a number.
pub open spec fn color_name(n: nat) -> Seq<char> {
    if n == 0 {
        "cyan"@
    } else if n == 1 {
        "magenta"@
    } else if n == 2 {
        "yellow"@
    } else if n == 3 {
        "green"@
    } else if n == 4 {
        "blue"@
    } else if n == 5 {
        "bright_cyan"@
    } else if n == 6 {
        "bright_magenta"@
    } else if n == 7 {
        "bright_yellow"@
    } else {
        "bright_green"@
    }
}

/// The name of the colour of a job.
pub fn pick_color(job_name: &str) -> (r: &'static str)
    ensures
        r@ == color_name(byte_hash(encode_utf8(job_name@)) % 9),
{
    let n: u64 = byte_hash_of(job_name.as_bytes()) % 9;
    if n == 0 {
        "cyan"
    } else if n == 1 {
        "magenta"
    } else if n == 2 {
        "yellow"
    } else if n == 3 {
        "green"
    } else if n == 4 {
        "blue"
    } else if n == 5 {
        "bright_cyan"
    } else if n == 6 {
        "bright_magenta"
    } else if n == 7 {
        "bright_yellow"
    } else {
        "bright_green"
    }
}

/// The colour of a name.
pub open spec fn ink_named(name: Seq<char>) -> Option<Ink> {
    if name == "cyan"@ {
        Some(Ink::Cyan)
    } else if name == "magenta"@ {
        Some(Ink::Magenta)
    } else if name == "yellow"@ {
        Some(Ink::Yellow)
    } else if name == "green"@ {
        Some(Ink::Green)
    } else if name == "blue"@ {
        Some(Ink::Blue)
    } else if name == "bright_cyan"@ {
        Some(Ink::BrightCyan)
    } else if name == "bright_magenta"@ {
        Some(Ink::BrightMagenta)
    } else if name == "bright_yellow"@ {
        Some(Ink::BrightYellow)
    } else if name == "bright_green"@ {
        Some(Ink::BrightGreen)
    } else {
        None
    }
}

fn ink_of(name: &str) -> (r: Option<Ink>)
    ensures
        r == ink_named(name@),
{
    if str_eq(name, "cyan") {
        Some(Ink::Cyan)
    } else if str_eq(name, "magenta") {
        Some(Ink::Magenta)
    } else if str_eq(name, "yellow") {
        Some(Ink::Yellow)
    } else if str_eq(name, "green") {
        Some(Ink::Green)
    } else if str_eq(name, "blue") {
        Some(Ink::Blue)
    } else if str_eq(name, "bright_cyan") {
        Some(Ink::BrightCyan)
    } else if str_eq(name, "bright_magenta") {
        Some(Ink::BrightMagenta)
    } else if str_eq(name, "bright_yellow") {
        Some(Ink::BrightYellow)
    } else if str_eq(name, "bright_green") {
        Some(Ink::BrightGreen)
    } else {
        None
    }
}

/// Whether `shown` is the text in the colour of that name, as a terminal shows
/// it; text in a colour that is not known stays as it is.
pub open spec fn shows_in(shown: Seq<char>, name: Seq<char>, s: Seq<char>) -> bool {
    match ink_named(name) {
        Some(ink) => color::shows(shown, color::ink_code(ink), s),
        None => shown == s,
    }
}

/// The text in a colour.
pub fn colorize(s: &str, name: &str) -> (r: String)
    ensures
        shows_in(r@, name@, s@),
{
    match ink_of(name) {
        Some(ink) => paint(s, ink),
        None => s.to_owned(),
    }
}

/// Every job has a colour that is known.
pub proof fn lemma_job_color_known(job: Seq<char>)
    ensures
        ink_named(color_name(byte_hash(encode_utf8(job)) % 9)) is Some,
{
}

// ---------------------------------------------------------------------------
// The log of a job

/// Where a line of a job's log comes from.
#[derive(Debug, Clone, Copy, PartialEq, Eq, Structural)]
pub enum LineSource {
    /// The run itself.
    Run,
    /// The standard output of a step.
    Stdout,
    /// The standard error of a step.
    Stderr,
}

/// A line as it stands in the log file.
pub open spec fn file_line(source: LineSource, line: Seq<char>) -> Seq<char> {
    match source {
        LineSource::Run => line,
        LineSource::Stdout => "[stdout] "@ + line,
        LineSource::Stderr => "[stderr] "@ + line,
    }
}

/// The log of a job: its file, and what stands before its lines on the
/// terminal.
#[derive(Debug, Clone)]
pub struct JobLogger {
    pub job_name: String,
    pub prefix: String,
    pub log_path: String,
}

impl JobLogger {
    /// The log of a job.
    pub fn new(job_name: &str, logger: &Logger) -> (r: JobLogger)
        ensures
            r.job_name@ == job_name@,
            r.log_path@ == log_path(logger.base_dir@, job_name@),
            shows_in(
                r.prefix@,
                color_name(byte_hash(encode_utf8(job_name@)) % 9),
                "["@ + job_name@ + "]"@,
            ),
    {
        let mut prefix = "[".to_owned();
        append_str(&mut prefix, job_name);
        append_str(&mut prefix, "]");
        JobLogger {
            job_name: job_name.to_owned(),
            prefix: colorize(prefix.as_str(), pick_color(job_name)),
            log_path: logger.get_log_path(job_name),
        }
    }

    /// A line as it stands in the log file.
    pub fn file_line(&self, source: LineSource, line: &str) -> (r: String)
        ensures
            r@ == file_line(source, line@),
    {
        match source {
            LineSource::Run => line.to_owned(),
            LineSource::Stdout => {
                let mut s = "[stdout] ".to_owned();
                append_str(&mut s, line);
                s
            },
            LineSource::Stderr => {
                let mut s = "[stderr] ".to_owned();
                append_str(&mut s, line);
                s
            },
        }
    }

    /// What a line brings to the terminal: behind the prefix, and in red if it
    /// comes from standard error; nothing unless the run tells of itself
    /// there.
    pub fn terminal_line(&self, source: LineSource, line: &str, output_mode: OutputMode) -> (r: Option<String>)
        ensures
            match r {
                Some(s) => {
                    &&& output_mode == OutputMode::Terminal
                    &&& source != LineSource::Stderr ==> s@ == self.prefix@ + " "@ + line@
                    &&& source == LineSource::Stderr ==> exists|shown: Seq<char>| #[trigger]
                        color::shows(shown, color::ink_code(Ink::Red), line@) && s@ == self.prefix@
                            + " "@ + shown
                },
                None => output_mode != OutputMode::Terminal,
            },
    {
        if output_mode != OutputMode::Terminal {
            return None;
        }
        let mut s = self.prefix.clone();
        append_str(&mut s, " ");
        if source == LineSource::Stderr {
            let shown = paint(line, Ink::Red);
            append_str(&mut s, shown.as_str());
            assert(color::shows(shown@, color::ink_code(Ink::Red), line@));
        } else {
            append_str(&mut s, line);
        }
        Some(s)
    }
}

/// The log of a job lies in the log directory, under its name made safe.
pub proof fn lemma_log_path(base: Seq<char>, job: Seq<char>)
    requires
        base.len() > 0,
        base.last() != '/',
        job.len() > 0,
    ensures
        log_path(base, job) == base + "/.ci/logs/"@ + text::safe_name(job) + ".log"@,
{
    reveal_strlit("/");
    reveal_strlit("logs");
    reveal_strlit("/.ci/");
    reveal_strlit("/.ci/logs/");
    paths::lemma_ci_path(base, "logs"@);
    text::lemma_safe_name(job);
    let dir = base + "/.ci/"@ + "logs"@;
    let file = text::safe_name(job) + ".log"@;
    assert(dir.last() == 's');
    assert(file[0] == text::safe_name(job)[0]);
    paths::lemma_join_relative(dir, file);
    assert(dir + "/"@ + file =~= base + "/.ci/logs/"@ + text::safe_name(job) + ".log"@);
}

/// A line goes to the log with its source before it, and as it is if the run
/// itself wrote it.
pub proof fn lemma_file_line(line: Seq<char>)
    ensures
        file_line(LineSource::Run, line) == line,
        text::ends_with(file_line(LineSource::Stdout, line), line),
        text::starts_with(file_line(LineSource::Stdout, line), "[stdout] "@),
        text::ends_with(file_line(LineSource::Stderr, line), line),
        text::starts_with(file_line(LineSource::Stderr, line), "[stderr] "@),
{
    text::lemma_prefix_and_suffix("[stdout] "@ + line, "[stdout] "@);
    text::lemma_prefix_and_suffix("[stdout] "@ + line, line);
    text::lemma_prefix_and_suffix("[stderr] "@ + line, "[stderr] "@);
    text::lemma_prefix_and_suffix("[stderr] "@ + line, line);
}

/// The hash of bytes is below two to the power of 64, and each further byte
/// multiplies it by 31 and is added.
pub proof fn lemma_byte_hash(bytes: Seq<u8>, b: u8)
    ensures
        byte_hash(Seq::empty()) == 0,
        byte_hash(seq![b]) == b,
        byte_hash(bytes) < 0x1_0000_0000_0000_0000,
        byte_hash(bytes.push(b)) == (byte_hash(bytes) * 31 + b) % 0x1_0000_0000_0000_0000,
    decreases bytes.len(),
{
    assert(bytes.push(b).drop_last() =~= bytes);
    assert(seq![b].drop_last() =~= Seq::<u8>::empty());
    assert(byte_hash(Seq::<u8>::empty()) == 0);
}

/// The nine colors differ, and each is known by its name.
pub proof fn lemma_colors_differ(a: nat, b: nat)
    requires
        a < 9,
        b < 9,
        color_name(a) == color_name(b),
    ensures
        a == b,
        ink_named(color_name(a)) is Some,
{
    reveal_strlit("cyan");
    reveal_strlit("magenta");
    reveal_strlit("yellow");
    reveal_strlit("green");
    reveal_strlit("blue");
    reveal_strlit("bright_cyan");
    reveal_strlit("bright_magenta");
    reveal_strlit("bright_yellow");
    reveal_strlit("bright_green");
    assert("cyan"@.len() == 4 && "cyan"@[0] == 'c');
    assert("magenta"@.len() == 7 && "magenta"@[0] == 'm');
    assert("yellow"@.len() == 6 && "yellow"@[0] == 'y');
    assert("green"@.len() == 5 && "green"@[0] == 'g');
    assert("blue"@.len() == 4 && "blue"@[0] == 'b');
    assert("bright_cyan"@.len() == 11);
    assert("bright_magenta"@.len() == 14);
    assert("bright_yellow"@.len() == 13);
    assert("bright_green"@.len() == 12);
}

/// A text is shown in the color of the given name, and as it is if there is no
/// such color.
pub proof fn lemma_shown_in_color(shown: Seq<char>, name: Seq<char>, s: Seq<char>)
    requires
        shows_in(shown, name, s),
    ensures
        ink_named(name) is None ==> shown == s,
        name == "cyan"@ ==> color::shows(shown, "36"@, s),
        name == "blue"@ ==> color::shows(shown, "34"@, s),
        name == "bright_green"@ ==> color::shows(shown, "92"@, s),
{
    reveal_strlit("cyan");
    reveal_strlit("magenta");
    reveal_strlit("yellow");
    reveal_strlit("green");
    reveal_strlit("blue");
    reveal_strlit("bright_cyan");
    reveal_strlit("bright_magenta");
    reveal_strlit("bright_yellow");
    reveal_strlit("bright_green");
    assert("cyan"@.len() == 4 && "cyan"@[0] == 'c');
    assert("blue"@.len() == 4 && "blue"@[0] == 'b');
    assert("magenta"@.len() == 7 && "yellow"@.len() == 6 && "green"@.len() == 5);
    assert("bright_cyan"@.len() == 11 && "bright_magenta"@.len() == 14);
    assert("bright_yellow"@.len() == 13 && "bright_green"@.len() == 12);
}

/// The colors in the order in which they are handed out.
pub proof fn lemma_color_order()
    ensures
        color_name(0) == "cyan"@,
        color_name(1) == "magenta"@,
        color_name(2) == "yellow"@,
        color_name(3) == "green"@,
        color_name(4) == "blue"@,
        color_name(5) == "bright_cyan"@,
        color_name(6) == "bright_magenta"@,
        color_name(7) == "bright_yellow"@,
        color_name(8) == "bright_green"@,
{
}

} // verus!
