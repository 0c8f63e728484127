//! The server of the remote cache.
use vstd::prelude::*;

use crate::clock;
use crate::clock::{nanos_between_of, parse_rfc3339};
use crate::digest;
use crate::digest::{json_field_of, json_object_of, json_set_field};
use crate::models::Timestamp;
use crate::numbers;
use crate::numbers::{parse_u64, push_decimal};
use crate::order;
use crate::order::str_le;
use crate::paths;
use crate::paths::join_path_str;
use crate::remote_cache;
use crate::remote_cache::{CacheEntryInfo, GcResult};
use crate::string_map::{StringMap, Table};
use crate::text;
use crate::text::{append_str, before_end_str, behind_str, ends_with_str, split_str, str_eq, to_chars};

verus! {

// ---------------------------------------------------------------------------
// Settings

/// The settings of the server.
#[derive(Debug, Clone)]
pub struct ServerConfig {
    pub listen_addr: String,
    pub storage_dir: String,
    pub max_size_mb: u64,
    pub ttl_days: i64,
    pub auth_token: Option<String>,
}

/// The address on which the server listens by default.
pub fn default_listen_addr() -> (r: String)
    ensures
        r@ == "0.0.0.0:9876"@,
{
    "0.0.0.0:9876".to_owned()
}

/// The directory in which the server keeps its entries by default.
pub fn default_storage_dir() -> (r: String)
    ensures
        r@ == "./storage"@,
{
    "./storage".to_owned()
}

/// How many megabytes an entry may have by default.
pub fn default_max_size_mb() -> (r: u64)
    ensures
        r == 500,
{
    500
}

/// How many days an entry is kept by default.
pub fn default_ttl_days() -> (r: i64)
    ensures
        r == 7,
{
    7
}

impl Default for ServerConfig {
    fn default() -> (r: ServerConfig)
        ensures
            r.listen_addr@ == "0.0.0.0:9876"@,
            r.storage_dir@ == "./storage"@,
            r.max_size_mb == 500,
            r.ttl_days == 7,
            r.auth_token is None,
    {
        ServerConfig {
            listen_addr: default_listen_addr(),
            storage_dir: default_storage_dir(),
            max_size_mb: default_max_size_mb(),
            ttl_days: default_ttl_days(),
            auth_token: None,
        }
    }
}

impl ServerConfig {
    /// How many bytes an entry may have.
    pub fn max_size_bytes(&self) -> (r: u64)
        requires
            self.max_size_mb * 1024 * 1024 <= u64::MAX,
        ensures
            r == self.max_size_mb * 1024 * 1024,
    {
        self.max_size_mb * 1024 * 1024
    }
}

/// Why a request failed.
#[derive(Debug, Clone)]
pub enum ServerError {
    /// The entry has more than so many megabytes.
    TooLarge(u64),
    /// A part of an upload has not the size that its range tells.
    SizeMismatch,
}

impl ServerError {
    /// The text of the error.
    pub fn message(&self) -> (r: String)
        ensures
            r@ == match *self {
                ServerError::TooLarge(mb) => "Cache file exceeds max size of "@ + numbers::decimal(
                    mb as nat,
                ) + " MB"@,
                ServerError::SizeMismatch => "Chunk size mismatch"@,
            },
    {
        match self {
            ServerError::TooLarge(mb) => {
                let mut s = "Cache file exceeds max size of ".to_owned();
                push_decimal(&mut s, *mb as u128);
                append_str(&mut s, " MB");
                s
            },
            ServerError::SizeMismatch => "Chunk size mismatch".to_owned(),
        }
    }
}

// ---------------------------------------------------------------------------
// Requests

/// Whether a request may be answered: no token is expected, or the header
/// brings it.
pub open spec fn authorized(header: Option<Seq<char>>, expected: Option<Seq<char>>) -> bool {
    match expected {
        None => true,
        Some(token) => header == Some("Bearer "@ + token),
    }
}

/// Whether a request may be answered.
pub fn check_auth(header: &Option<String>, expected: &Option<String>) -> (r: bool)
    ensures
        r == authorized(header.deep_view(), expected.deep_view()),
{
    match expected {
        None => true,
        Some(token) => match header {
            Some(h) => {
                let mut want = "Bearer ".to_owned();
                append_str(&mut want, token.as_str());
                str_eq(h.as_str(), want.as_str())
            },
            None => false,
        },
    }
}

/// The directory of a namespace.
pub open spec fn namespace_dir(storage: Seq<char>, namespace: Seq<char>) -> Seq<char> {
    paths::join_path(storage, namespace)
}

/// A file of an entry.
pub open spec fn entry_file(
    storage: Seq<char>,
    namespace: Seq<char>,
    before: Seq<char>,
    key: Seq<char>,
    after: Seq<char>,
) -> Seq<char> {
    paths::join_path(namespace_dir(storage, namespace), before + key + after)
}

/// The files of an entry: its archive, its metadata, and the archive while it
/// is being written.
#[derive(Debug, Clone)]
pub struct EntryFiles {
    pub archive: String,
    pub metadata: String,
    pub temporary: String,
}

fn entry_file_str(storage: &str, namespace: &str, before: &str, key: &str, after: &str) -> (r: String)
    ensures
        r@ == entry_file(storage@, namespace@, before@, key@, after@),
{
    let mut name = before.to_owned();
    append_str(&mut name, key);
    append_str(&mut name, after);
    join_path_str(join_path_str(storage, namespace).as_str(), name.as_str())
}

/// The files of an entry.
pub fn entry_files(storage: &str, namespace: &str, key: &str) -> (r: EntryFiles)
    ensures
        r.archive@ == entry_file(storage@, namespace@, ""@, key@, ".tar.gz"@),
        r.metadata@ == entry_file(storage@, namespace@, ""@, key@, ".meta.json"@),
        r.temporary@ == entry_file(storage@, namespace@, "."@, key@, ".tmp"@),
{
    EntryFiles {
        archive: entry_file_str(storage, namespace, "", key, ".tar.gz"),
        metadata: entry_file_str(storage, namespace, "", key, ".meta.json"),
        temporary: entry_file_str(storage, namespace, ".", key, ".tmp"),
    }
}

/// The place of a part that a content range tells: its first and last byte,
/// and the size of the whole if it is known.
pub open spec fn content_range_of(range: Seq<char>) -> Option<(u64, u64, Option<u64>)> {
    match text::behind(range, "bytes "@) {
        None => None,
        Some(rest) => {
            let parts = text::split(rest, '/');
            let ends = text::split(parts[0], '-');
            if parts.len() != 2 || ends.len() != 2 {
                None
            } else {
                match (numbers::parse_u64_spec(ends[0]), numbers::parse_u64_spec(ends[1])) {
                    (Some(start), Some(end)) => if parts[1] == "*"@ {
                        Some((start, end, None))
                    } else {
                        match numbers::parse_u64_spec(parts[1]) {
                            Some(total) => Some((start, end, Some(total))),
                            None => None,
                        }
                    },
                    _ => None,
                }
            }
        },
    }
}

/// The place of a part that a content range tells.
pub fn parse_content_range(range: &str) -> (r: Option<(u64, u64, Option<u64>)>)
    ensures
        r == content_range_of(range@),
{
    match behind_str(range, "bytes ") {
        None => None,
        Some(rest) => {
            let parts = split_str(rest.as_str(), '/');
            let ghost all = text::split(rest@, '/');
            assert(all[0] == parts@[0]@);
            let ends = split_str(parts[0].as_str(), '-');
            let ghost both = text::split(all[0], '-');
            if parts.len() != 2 || ends.len() != 2 {
                return None;
            }
            assert(all[1] == parts@[1]@);
            assert(both[0] == ends@[0]@);
            assert(both[1] == ends@[1]@);
            match (parse_u64(ends[0].as_str()), parse_u64(ends[1].as_str())) {
                (Some(start), Some(end)) => if str_eq(parts[1].as_str(), "*") {
                    Some((start, end, None))
                } else {
                    match parse_u64(parts[1].as_str()) {
                        Some(total) => Some((start, end, Some(total))),
                        None => None,
                    }
                },
                _ => None,
            }
        },
    }
}

/// The number that a text tells, if there is text.
pub open spec fn bound_of(s: Seq<char>) -> Option<Option<u64>> {
    if s.len() == 0 {
        Some(None)
    } else {
        match numbers::parse_u64_spec(s) {
            Some(n) => Some(Some(n)),
            None => None,
        }
    }
}

fn bound_of_str(s: &str) -> (r: Option<Option<u64>>)
    ensures
        r == bound_of(s@),
{
    if s.is_empty() {
        Some(None)
    } else {
        match parse_u64(s) {
            Some(n) => Some(Some(n)),
            None => None,
        }
    }
}

/// The first and last byte that a range header asks for, as far as it tells
/// them.
pub open spec fn range_of(range: Seq<char>) -> Option<(Option<u64>, Option<u64>)> {
    match text::behind(range, "bytes="@) {
        None => None,
        Some(rest) => {
            let parts = text::split(rest, '-');
            if parts.len() != 2 {
                None
            } else {
                match (bound_of(parts[0]), bound_of(parts[1])) {
                    (Some(start), Some(end)) => Some((start, end)),
                    _ => None,
                }
            }
        },
    }
}

/// The first and last byte that a range header asks for, as far as it tells
/// them.
pub fn parse_range_header(range: &str) -> (r: Option<(Option<u64>, Option<u64>)>)
    ensures
        r == range_of(range@),
{
    match behind_str(range, "bytes=") {
        None => None,
        Some(rest) => {
            let parts = split_str(rest.as_str(), '-');
            let ghost all = text::split(rest@, '-');
            if parts.len() != 2 {
                return None;
            }
            assert(all[0] == parts@[0]@);
            assert(all[1] == parts@[1]@);
            match (bound_of_str(parts[0].as_str()), bound_of_str(parts[1].as_str())) {
                (Some(start), Some(end)) => Some((start, end)),
                _ => None,
            }
        },
    }
}

// ---------------------------------------------------------------------------
// Uploads

/// Whether a whole upload of so many bytes is taken.
pub fn accept_upload(size: u64, config: &ServerConfig) -> (r: Result<(), ServerError>)
    requires
        config.max_size_mb * 1024 * 1024 <= u64::MAX,
    ensures
        match r {
            Ok(_) => size <= config.max_size_mb * 1024 * 1024,
            Err(e) => size > config.max_size_mb * 1024 * 1024 && e == ServerError::TooLarge(
                config.max_size_mb,
            ),
        },
{
    if size > config.max_size_bytes() {
        Err(ServerError::TooLarge(config.max_size_mb))
    } else {
        Ok(())
    }
}

/// Whether a part of so many bytes may be the last; `None` if it is not as long
/// as its bounds say.
pub open spec fn chunk_taken(size: u64, start: u64, end: u64, total: Option<u64>) -> Option<bool> {
    if size == end - start + 1 {
        Some(total matches Some(t) && end + 1 >= t)
    } else {
        None
    }
}

/// Whether a part of so many bytes is taken, and whether it may be the last.
pub fn accept_chunk(size: u64, start: u64, end: u64, total: Option<u64>) -> (r: Result<bool, ServerError>)
    requires
        start <= end,
        start == 0 ==> end < u64::MAX,
    ensures
        match r {
            Ok(last) => chunk_taken(size, start, end, total) == Some(last),
            Err(e) => chunk_taken(size, start, end, total) is None && e is SizeMismatch,
        },
{
    if size != end - start + 1 {
        return Err(ServerError::SizeMismatch);
    }
    match total {
        Some(t) => Ok(end as u128 + 1 >= t as u128),
        None => Ok(false),
    }
}

/// Whether an upload in parts is complete, given the size of the file so far.
pub fn finish_chunks(file_size: u64, total: u64, config: &ServerConfig) -> (r: Result<bool, ServerError>)
    requires
        config.max_size_mb * 1024 * 1024 <= u64::MAX,
    ensures
        match r {
            Ok(complete) => complete == (file_size >= total) && (complete ==> file_size
                <= config.max_size_mb * 1024 * 1024),
            Err(e) => file_size >= total && file_size > config.max_size_mb * 1024 * 1024 && e
                == ServerError::TooLarge(config.max_size_mb),
        },
{
    if file_size < total {
        return Ok(false);
    }
    if file_size > config.max_size_bytes() {
        return Err(ServerError::TooLarge(config.max_size_mb));
    }
    Ok(true)
}

/// What is said of a part that was taken.
pub fn chunk_status(complete: bool) -> (r: &'static str)
    ensures
        r@ == (if complete {
            "completed"@
        } else {
            "chunk_received"@
        }),
{
    if complete {
        "completed"
    } else {
        "chunk_received"
    }
}

// ---------------------------------------------------------------------------
// Downloads

/// The part of a file that is sent.
#[derive(Debug, Clone, Copy, PartialEq, Eq, Structural)]
pub struct ByteRange {
    pub start: u64,
    pub end: u64,
    pub length: u64,
}

/// The part of a file of that size that the bounds ask for; `None` if it does
/// not lie in the file.
pub open spec fn byte_range(start: Option<u64>, end: Option<u64>, file_size: u64) -> Option<ByteRange> {
    let s = match start {
        Some(n) => n,
        None => 0,
    };
    let e = match end {
        Some(n) => n as int,
        None => file_size - 1,
    };
    if s >= file_size || e < s || e >= file_size {
        None
    } else {
        Some(ByteRange { start: s, end: e as u64, length: (e - s + 1) as u64 })
    }
}

/// The part of a file of that size that the bounds ask for.
pub fn byte_range_of(start: Option<u64>, end: Option<u64>, file_size: u64) -> (r: Option<ByteRange>)
    requires
        file_size > 0 || end is Some,
    ensures
        r == byte_range(start, end, file_size),
{
    let s: u64 = match start {
        Some(n) => n,
        None => 0,
    };
    let e: u64 = match end {
        Some(n) => n,
        None => file_size - 1,
    };
    if s >= file_size || e < s || e >= file_size {
        None
    } else {
        Some(ByteRange { start: s, end: e, length: e - s + 1 })
    }
}

/// What is said of a range that does not lie in the file.
pub fn not_satisfiable_text(file_size: u64) -> (r: String)
    ensures
        r@ == "Requested range not satisfiable (file size: "@ + numbers::decimal(file_size as nat)
            + ")"@,
{
    let mut s = "Requested range not satisfiable (file size: ".to_owned();
    push_decimal(&mut s, file_size as u128);
    append_str(&mut s, ")");
    s
}

// ---------------------------------------------------------------------------
// Listing

/// Whether a file name has the extension `gz`.
pub open spec fn is_archive(name: Seq<char>) -> bool {
    text::ends_with(name, ".gz"@) && name.len() > 3
}

/// Whether a file name has the extension `gz`.
pub fn is_archive_name(name: &str) -> (r: bool)
    ensures
        r == is_archive(name@),
{
    ends_with_str(name, ".gz") && to_chars(name).len() > 3
}

/// The key of the entry whose archive has the given name.
pub open spec fn key_of(name: Seq<char>) -> Seq<char> {
    match text::before_end(name, ".tar.gz"@) {
        Some(key) => key,
        None => match text::before_end(name, ".gz"@) {
            Some(key) => key,
            None => name,
        },
    }
}

/// The key of the entry whose archive has the given name.
pub fn key_of_name(name: &str) -> (r: String)
    ensures
        r@ == key_of(name@),
{
    match before_end_str(name, ".tar.gz") {
        Some(key) => key,
        None => match before_end_str(name, ".gz") {
            Some(key) => key,
            None => name.to_owned(),
        },
    }
}

/// The metadata of an entry that is new: its key, its namespace, when it was
/// made and last used, and its size.
pub open spec fn new_metadata(
    key: Seq<char>,
    namespace: Seq<char>,
    created: Seq<char>,
    accessed: Seq<char>,
    size: u64,
) -> Seq<char> {
    digest::json_object(
        seq![
            ("key"@, key),
            ("namespace"@, namespace),
            ("created_at"@, created),
            ("last_accessed"@, accessed),
        ],
        seq![],
        seq![("size_bytes"@, size)],
    )
}

/// The metadata of an entry that is new.
pub fn metadata_of(key: &str, namespace: &str, created: &str, accessed: &str, size: u64) -> (r: String)
    ensures
        r@ == new_metadata(key@, namespace@, created@, accessed@, size),
        digest::json_field(r@, "key"@) == Some(key@),
        digest::json_field(r@, "namespace"@) == Some(namespace@),
        digest::json_field(r@, "created_at"@) == Some(created@),
        last_accessed(Some(r@)) == accessed@,
        forall|storage: Seq<char>| #[trigger]
            named_archive(storage, r@) == Some(
                entry_file(storage, namespace@, ""@, key@, ".tar.gz"@),
            ),
        digest::verbatim(key@) && digest::verbatim(namespace@) && digest::verbatim(created@)
            && digest::verbatim(accessed@) ==> digest::unmarked(r@),
{
    let mut texts: Vec<(String, String)> = Vec::new();
    texts.push(("key".to_owned(), key.to_owned()));
    texts.push(("namespace".to_owned(), namespace.to_owned()));
    texts.push(("created_at".to_owned(), created.to_owned()));
    texts.push(("last_accessed".to_owned(), accessed.to_owned()));
    let lists: Vec<(String, Vec<String>)> = Vec::new();
    let mut numbers: Vec<(String, u64)> = Vec::new();
    numbers.push(("size_bytes".to_owned(), size));
    proof {
        reveal_strlit("key");
        reveal_strlit("namespace");
        reveal_strlit("created_at");
        reveal_strlit("last_accessed");
        reveal_strlit("size_bytes");
    }
    let ghost keys = digest::all_keys(texts.deep_view(), lists.deep_view(), numbers.deep_view());
    assert(keys =~= seq![
        "key"@,
        "namespace"@,
        "created_at"@,
        "last_accessed"@,
        "size_bytes"@,
    ]);
    assert(digest::clear_keys(keys)) by {
        assert(keys[0].len() == 3 && keys[1].len() == 9 && keys[2].len() == 10 && keys[3].len() == 13
            && keys[4].len() == 10);
        assert(keys[2][0] == 'c' && keys[4][0] == 's');
    }
    let r = json_object_of(&texts, &lists, &numbers);
    assert(texts@[0].0@ == "key"@);
    assert(texts@[1].0@ == "namespace"@);
    assert(texts@[2].0@ == "created_at"@);
    assert(texts@[3].0@ == "last_accessed"@);
    assert(texts.deep_view() =~= seq![
        ("key"@, key@),
        ("namespace"@, namespace@),
        ("created_at"@, created@),
        ("last_accessed"@, accessed@),
    ]);
    assert(lists.deep_view() =~= seq![]);
    assert(numbers.deep_view() =~= seq![("size_bytes"@, size)]);
    r
}

/// The metadata of an entry that is new, given the instants at which it was
/// made and last used; `None` if one of these has no notation. Cleaning up goes
/// by the instant at which it was made, in the years of four digits.
pub fn put_metadata(
    key: &str,
    namespace: &str,
    created: &Timestamp,
    accessed: &Timestamp,
    size: u64,
) -> (r: Option<String>)
    ensures
        r.deep_view() == (match (
            clock::rfc3339_text(created.secs, created.nanos, created.offset),
            clock::rfc3339_text(accessed.secs, accessed.nanos, accessed.offset),
        ) {
            (Some(made), Some(used)) => Some(new_metadata(key@, namespace@, made, used, size)),
            _ => None,
        }),
        clock::in_four_digit_years(*created) && created.nanos < 1_000_000_000
            && clock::in_four_digit_years(*accessed) && accessed.nanos < 1_000_000_000 ==> r is Some,
        r matches Some(t) ==> {
            &&& forall|storage: Seq<char>| #[trigger]
                named_archive(storage, t@) == Some(
                    entry_file(storage, namespace@, ""@, key@, ".tar.gz"@),
                )
            &&& clock::in_four_digit_years(*created) ==> forall|now: Timestamp, ttl: i64| #[trigger]
                outlived(t@, now, ttl) == (clock::nanos_between(created.instant(), now.instant()) > ttl
                    * 86400 * 1_000_000_000)
            &&& digest::verbatim(key@) && digest::verbatim(namespace@) ==> digest::unmarked(t@)
        },
{
    let made = match created.to_rfc3339() {
        Some(s) => s,
        None => {
            return None;
        },
    };
    let used = match accessed.to_rfc3339() {
        Some(s) => s,
        None => {
            return None;
        },
    };
    Some(metadata_of(key, namespace, made.as_str(), used.as_str(), size))
}

/// The metadata of an entry that is used, with the time of that; `None` if
/// they are neither the text of a JSON object nor `null`, which counts as an
/// empty object. Where the metadata are unmarked, the listing shows that time,
/// and cleaning up goes by the same age and removes the same archive as before.
pub fn touched(metadata: &str, when: &str) -> (r: Option<String>)
    ensures
        r.deep_view() == digest::json_with_field(metadata@, "last_accessed"@, when@),
        digest::unmarked(metadata@) ==> (r matches Some(t) ==> {
            &&& last_accessed(Some(t@)) == when@
            &&& forall|k: Seq<char>|
                k != "last_accessed"@ ==> #[trigger] digest::json_field(t@, k)
                    == digest::json_field(metadata@, k)
            &&& forall|now: Timestamp, ttl: i64| #[trigger]
                outlived(t@, now, ttl) == outlived(metadata@, now, ttl)
            &&& forall|storage: Seq<char>| #[trigger]
                named_archive(storage, t@) == named_archive(storage, metadata@)
        }),
        digest::unmarked(metadata@) && digest::verbatim(when@) ==> (r matches Some(t)
            ==> digest::unmarked(t@)),
        forall|k: Seq<char>| #[trigger] digest::json_field(metadata@, k) is Some ==> r is Some,
{
    proof {
        reveal_strlit("last_accessed");
        reveal_strlit("created_at");
        reveal_strlit("key");
        reveal_strlit("namespace");
    }
    json_set_field(metadata, "last_accessed", when)
}

/// When an entry was last used, as far as its metadata tell.
pub open spec fn last_accessed(metadata: Option<Seq<char>>) -> Seq<char> {
    match metadata {
        Some(content) => match digest::json_field(content, "last_accessed"@) {
            Some(t) => t,
            None => "unknown"@,
        },
        None => "unknown"@,
    }
}

/// The entry of an archive with its size and its metadata, as far as they can
/// be read.
pub fn entry_info(name: &str, size: u64, metadata: &Option<String>) -> (r: CacheEntryInfo)
    ensures
        r.key@ == key_of(name@),
        r.size_bytes == size,
        r.last_accessed@ == last_accessed(metadata.deep_view()),
{
    let accessed = match metadata {
        Some(content) => match json_field_of(content.as_str(), "last_accessed") {
            Some(t) => t,
            None => "unknown".to_owned(),
        },
        None => "unknown".to_owned(),
    };
    CacheEntryInfo { key: key_of_name(name), size_bytes: size, last_accessed: accessed }
}

/// How many leading entries have keys up to the given one in order.
pub open spec fn rank(entries: Seq<CacheEntryInfo>, key: Seq<char>) -> int
    decreases entries.len(),
{
    if entries.len() == 0 || order::lex_le(entries.last().key@, key) {
        entries.len() as int
    } else {
        rank(entries.drop_last(), key)
    }
}

/// The entries in the order of their keys; those with the same key stay in the
/// order in which they came.
pub open spec fn by_key(entries: Seq<CacheEntryInfo>) -> Seq<CacheEntryInfo>
    decreases entries.len(),
{
    if entries.len() == 0 {
        Seq::empty()
    } else {
        let sorted = by_key(entries.drop_last());
        sorted.insert(rank(sorted, entries.last().key@), entries.last())
    }
}

proof fn lemma_rank(entries: Seq<CacheEntryInfo>, key: Seq<char>)
    ensures
        0 <= rank(entries, key) <= entries.len(),
    decreases entries.len(),
{
    if entries.len() > 0 {
        lemma_rank(entries.drop_last(), key);
    }
}

/// The entries in the order of their keys.
pub fn sort_entries(entries: Vec<CacheEntryInfo>) -> (r: Vec<CacheEntryInfo>)
    ensures
        r@ == by_key(entries@),
{
    let ghost all = entries@;
    let mut left = entries;
    let mut rest: Vec<CacheEntryInfo> = Vec::new();
    while left.len() > 0
        invariant
            left@ + rest@.reverse() == all,
        decreases left@.len(),
    {
        let ghost l = left@;
        let ghost r = rest@;
        if let Some(e) = left.pop() {
            rest.push(e);
            assert(l.drop_last().push(l.last()) =~= l);
            assert(left@ + rest@.reverse() =~= l + r.reverse());
        }
    }
    assert(rest@.reverse() =~= all);
    let mut sorted: Vec<CacheEntryInfo> = Vec::new();
    let ghost mut n: int = 0;
    assert(all.take(0) =~= Seq::<CacheEntryInfo>::empty());
    while rest.len() > 0
        invariant
            0 <= n <= all.len(),
            rest@.len() == all.len() - n,
            forall|k: int| 0 <= k < rest@.len() ==> rest@[k] == #[trigger] all[all.len() - 1 - k],
            sorted@ == by_key(all.take(n)),
        decreases rest@.len(),
    {
        assert(rest@[rest@.len() - 1] == all[all.len() - 1 - (rest@.len() - 1)]);
        if let Some(e) = rest.pop() {
            assert(e == all[n]);
            assert(all.take(n + 1).drop_last() =~= all.take(n));
            let mut pos: usize = sorted.len();
            assert(sorted@.take(pos as int) =~= sorted@);
            while pos > 0 && !str_le(sorted[pos - 1].key.as_str(), e.key.as_str())
                invariant
                    pos <= sorted@.len(),
                    rank(sorted@, e.key@) == rank(sorted@.take(pos as int), e.key@),
                decreases pos,
            {
                assert(sorted@.take(pos as int).drop_last() =~= sorted@.take(pos - 1));
                pos = pos - 1;
            }
            assert(rank(sorted@, e.key@) == pos);
            sorted.insert(pos, e);
            proof {
                n = n + 1;
            }
        }
    }
    assert(all.take(n) =~= all);
    sorted
}

// ---------------------------------------------------------------------------
// Cleaning up

/// Whether metadata tell of an entry that is older than `ttl` days.
pub open spec fn outlived(content: Seq<char>, now: Timestamp, ttl: i64) -> bool {
    match digest::json_field(content, "created_at"@) {
        Some(created) => match clock::rfc3339(created) {
            Some(t) => clock::nanos_between((t.0 as int, t.1 as int), now.instant()) > ttl * 86400
                * 1_000_000_000,
            None => false,
        },
        None => false,
    }
}

/// Whether an entry made at the given instant is older than `ttl` days.
pub fn is_older(created_secs: i64, created_nanos: u32, now: Timestamp, ttl: i64) -> (r: bool)
    ensures
        r == (clock::nanos_between((created_secs as int, created_nanos as int), now.instant()) > ttl
            * 86400 * 1_000_000_000),
{
    nanos_between_of(created_secs, created_nanos, now.secs, now.nanos) > ttl as i128 * 86400
        * 1_000_000_000
}

/// What to do with a file when entries are cleaned up.
#[derive(Debug, Clone)]
pub enum GcStep {
    /// The file stays.
    Keep,
    /// The metadata file goes, and the archive too if the metadata name it.
    Remove(Option<String>),
}

/// The archive that metadata name.
pub open spec fn named_archive(storage: Seq<char>, content: Seq<char>) -> Option<Seq<char>> {
    match (digest::json_field(content, "key"@), digest::json_field(content, "namespace"@)) {
        (Some(key), Some(namespace)) => Some(
            entry_file(storage, namespace, ""@, key, ".tar.gz"@),
        ),
        _ => None,
    }
}

/// What to do with a file when entries are cleaned up.
pub fn gc_step(file_name: &str, content: &str, storage: &str, now: Timestamp, ttl: i64) -> (r: GcStep)
    ensures
        match r {
            GcStep::Keep => !(text::ends_with(file_name@, ".meta.json"@) && outlived(
                content@,
                now,
                ttl,
            )),
            GcStep::Remove(archive) => {
                &&& text::ends_with(file_name@, ".meta.json"@)
                &&& outlived(content@, now, ttl)
                &&& archive.deep_view() == named_archive(storage@, content@)
            },
        },
{
    if !ends_with_str(file_name, ".meta.json") {
        return GcStep::Keep;
    }
    let old = match json_field_of(content, "created_at") {
        Some(created) => match parse_rfc3339(created.as_str()) {
            Some((secs, nanos)) => is_older(secs, nanos, now, ttl),
            None => false,
        },
        None => false,
    };
    if !old {
        return GcStep::Keep;
    }
    match (json_field_of(content, "key"), json_field_of(content, "namespace")) {
        (Some(key), Some(namespace)) => GcStep::Remove(
            Some(entry_file_str(storage, namespace.as_str(), "", key.as_str(), ".tar.gz")),
        ),
        _ => GcStep::Remove(None),
    }
}

/// Counts an archive of so many bytes, if its size is known, as removed.
pub fn count_removed(so_far: &GcResult, size: Option<u64>) -> (r: GcResult)
    requires
        so_far.removed < usize::MAX,
        size matches Some(n) ==> so_far.freed_bytes + n <= u64::MAX,
    ensures
        r.removed == so_far.removed + 1,
        r.freed_bytes == so_far.freed_bytes + (match size {
            Some(n) => n as int,
            None => 0,
        }),
{
    let n: u64 = match size {
        Some(n) => n,
        None => 0,
    };
    GcResult { removed: so_far.removed + 1, freed_bytes: so_far.freed_bytes + n }
}

// ---------------------------------------------------------------------------
// Statistics

/// What the server holds and what it was used for.
#[derive(Debug, Clone)]
pub struct CacheStats {
    pub total_entries: usize,
    pub total_size_bytes: u64,
    pub hits_last_24h: u64,
    pub misses_last_24h: u64,
    pub namespace_counts: StringMap<usize>,
}

/// A file of the storage: its name, its size and its directory's name, as far
/// as they are known.
#[derive(Debug, Clone)]
pub struct StoredFile {
    pub name: String,
    pub size: Option<u64>,
    pub namespace: Option<String>,
}

/// How many archives there are.
pub open spec fn archive_count(files: Seq<StoredFile>) -> nat
    decreases files.len(),
{
    if files.len() == 0 {
        0
    } else {
        archive_count(files.drop_last()) + if is_archive(files.last().name@) {
            1nat
        } else {
            0nat
        }
    }
}

/// How many bytes the archives have together.
pub open spec fn archive_bytes(files: Seq<StoredFile>) -> nat
    decreases files.len(),
{
    if files.len() == 0 {
        0
    } else {
        archive_bytes(files.drop_last()) + (match files.last().size {
            Some(n) => if is_archive(files.last().name@) {
                n as nat
            } else {
                0
            },
            None => 0,
        })
    }
}

/// How many archives each namespace has.
pub open spec fn archives_per_namespace(files: Seq<StoredFile>) -> Table<usize>
    decreases files.len(),
{
    if files.len() == 0 {
        Table::empty()
    } else {
        let before = archives_per_namespace(files.drop_last());
        match files.last().namespace {
            Some(n) => if is_archive(files.last().name@) {
                before.insert(
                    n@,
                    (match before.get(n@) {
                        Some(c) => c + 1,
                        None => 1,
                    }) as usize,
                )
            } else {
                before
            },
            None => before,
        }
    }
}

proof fn lemma_bytes_grow(files: Seq<StoredFile>, n: int)
    requires
        0 <= n <= files.len(),
    ensures
        archive_bytes(files.take(n)) <= archive_bytes(files),
    decreases files.len(),
{
    if n == files.len() {
        assert(files.take(n) =~= files);
    } else {
        lemma_bytes_grow(files.drop_last(), n);
        assert(files.drop_last().take(n) =~= files.take(n));
    }
}

proof fn lemma_counts_bounded(files: Seq<StoredFile>)
    requires
        files.len() <= usize::MAX,
    ensures
        archive_count(files) <= files.len(),
        forall|k: Seq<char>|
            (#[trigger] archives_per_namespace(files).get(k)) matches Some(c) ==> c <= files.len(),
    decreases files.len(),
{
    if files.len() > 0 {
        lemma_counts_bounded(files.drop_last());
        let before = archives_per_namespace(files.drop_last());
        if let Some(n) = files.last().namespace {
            assert(before.get(n@) == before.get(n@));
            assert forall|k: Seq<char>|
                (#[trigger] archives_per_namespace(files).get(k)) matches Some(c) ==> c <= files.len() by {
                assert(before.get(k) == before.get(k));
            }
        }
    }
}

impl CacheStats {
    /// What an empty server was used for: nothing.
    pub fn new() -> (r: CacheStats)
        ensures
            r.total_entries == 0,
            r.total_size_bytes == 0,
            r.hits_last_24h == 0,
            r.misses_last_24h == 0,
            r.namespace_counts.deep_view() == Table::<usize>::empty(),
    {
        CacheStats {
            total_entries: 0,
            total_size_bytes: 0,
            hits_last_24h: 0,
            misses_last_24h: 0,
            namespace_counts: StringMap::new(),
        }
    }

    /// Counts a request for an entry.
    pub fn note_request(&mut self, found: bool)
        requires
            found ==> old(self).hits_last_24h < u64::MAX,
            !found ==> old(self).misses_last_24h < u64::MAX,
        ensures
            *final(self) == (CacheStats {
                hits_last_24h: if found {
                    (old(self).hits_last_24h + 1) as u64
                } else {
                    old(self).hits_last_24h
                },
                misses_last_24h: if found {
                    old(self).misses_last_24h
                } else {
                    (old(self).misses_last_24h + 1) as u64
                },
                ..*old(self)
            }),
    {
        if found {
            self.hits_last_24h = self.hits_last_24h + 1;
        } else {
            self.misses_last_24h = self.misses_last_24h + 1;
        }
    }

    /// Counts the archives among the files of the storage anew.
    pub fn refresh(&mut self, files: &Vec<StoredFile>)
        requires
            archive_bytes(files@) <= u64::MAX,
        ensures
            final(self).total_entries == archive_count(files@),
            final(self).total_size_bytes == archive_bytes(files@),
            final(self).namespace_counts.deep_view() == archives_per_namespace(files@),
            final(self).hits_last_24h == old(self).hits_last_24h,
            final(self).misses_last_24h == old(self).misses_last_24h,
    {
        let n: usize = files.len();
        let mut entries: usize = 0;
        let mut bytes: u64 = 0;
        let mut counts: StringMap<usize> = StringMap::new();
        let mut i: usize = 0;
        assert(files@.take(0) =~= Seq::<StoredFile>::empty());
        while i < n
            invariant
                n == files@.len(),
                archive_bytes(files@) <= u64::MAX,
                i <= n,
                entries == archive_count(files@.take(i as int)),
                bytes == archive_bytes(files@.take(i as int)),
                counts.deep_view() == archives_per_namespace(files@.take(i as int)),
            decreases n - i,
        {
            let f = &files[i];
            proof {
                assert(files@.take(i + 1).drop_last() =~= files@.take(i as int));
                lemma_bytes_grow(files@, i + 1);
                lemma_counts_bounded(files@.take(i as int));
            }
            if is_archive_name(f.name.as_str()) {
                entries = entries + 1;
                if let Some(size) = f.size {
                    bytes = bytes + size;
                }
                if let Some(ns) = &f.namespace {
                    let before: usize = match counts.get(ns.as_str()) {
                        Some(c) => *c,
                        None => 0,
                    };
                    counts.insert(ns.clone(), before + 1);
                }
            }
            i = i + 1;
        }
        assert(files@.take(n as int) =~= files@);
        self.total_entries = entries;
        self.total_size_bytes = bytes;
        self.namespace_counts = counts;
    }
}

// ---------------------------------------------------------------------------
// Laws

/// The server reads from the content range of a part what the client wrote
/// into it.
pub proof fn lemma_content_range_reads_back(start: u64, end: u64, total: u64)
    ensures
        content_range_of(remote_cache::content_range(start as nat, end as nat, total as nat))
            == Some((start, end, Some(total))),
{
    reveal_strlit("-");
    reveal_strlit("/");
    reveal_strlit("*");
    let a = numbers::decimal(start as nat);
    let b = numbers::decimal(end as nat);
    let c = numbers::decimal(total as nat);
    numbers::lemma_decimal_is_digits(start as nat, '-');
    numbers::lemma_decimal_is_digits(end as nat, '-');
    numbers::lemma_decimal_is_digits(start as nat, '/');
    numbers::lemma_decimal_is_digits(end as nat, '/');
    numbers::lemma_decimal_is_digits(total as nat, '/');
    numbers::lemma_decimal_is_digits(total as nat, '*');
    let ends = a + seq!['-'] + b;
    let rest = ends + seq!['/'] + c;
    assert(!ends.contains('/')) by {
        if ends.contains('/') {
            let i = ends.index_of('/');
            if i < a.len() {
                assert(a[i] == '/');
            } else if i > a.len() {
                assert(b[i - a.len() - 1] == '/');
            }
        }
    }
    text::lemma_split_two(ends, '/', c);
    text::lemma_split_two(a, '-', b);
    assert("-"@ =~= seq!['-']);
    assert("/"@ =~= seq!['/']);
    let range = remote_cache::content_range(start as nat, end as nat, total as nat);
    assert(range =~= "bytes "@ + rest);
    text::lemma_behind("bytes "@, rest);
    assert(c != "*"@) by {
        if c == "*"@ {
            assert(c[0] == '*');
            assert(c.contains('*'));
        }
    }
    numbers::lemma_parse_decimal(start);
    numbers::lemma_parse_decimal(end);
    numbers::lemma_parse_decimal(total);
}

/// The server reads from the header by which a client resumes a download the
/// byte from which it goes on.
pub proof fn lemma_resume_reads_back(existing: u64)
    ensures
        range_of("bytes="@ + numbers::decimal(existing as nat) + "-"@) == Some(
            (Some(existing), None::<u64>),
        ),
{
    reveal_strlit("-");
    let a = numbers::decimal(existing as nat);
    numbers::lemma_decimal_is_digits(existing as nat, '-');
    let rest = a + seq!['-'] + Seq::<char>::empty();
    text::lemma_split_two(a, '-', Seq::empty());
    assert("bytes="@ + a + "-"@ =~= "bytes="@ + rest);
    text::lemma_behind("bytes="@, rest);
    numbers::lemma_parse_decimal(existing);
}

/// The header of a client is accepted exactly if its token is the expected
/// one.
pub proof fn lemma_token_decides(token: Seq<char>, expected: Seq<char>)
    ensures
        authorized(Some("Bearer "@ + token), Some(expected)) <==> token == expected,
{
    let p = "Bearer "@;
    if p + token == p + expected {
        assert((p + token).skip(p.len() as int) =~= token);
        assert((p + expected).skip(p.len() as int) =~= expected);
    }
}

/// The part of a file that is sent lies in the file and is not empty.
pub proof fn lemma_range_inside(start: Option<u64>, end: Option<u64>, file_size: u64)
    requires
        byte_range(start, end, file_size) is Some,
    ensures
        ({
            let r = byte_range(start, end, file_size)->0;
            r.start <= r.end < file_size && r.length == r.end - r.start + 1 && r.length >= 1
        }),
{
}

/// A client that has part of a file gets the rest: all from there to the end,
/// as long as there is a rest.
pub proof fn lemma_resume_gets_the_rest(existing: u64, file_size: u64)
    ensures
        byte_range(Some(existing), None, file_size) == (if existing < file_size {
            Some(
                ByteRange {
                    start: existing,
                    end: (file_size - 1) as u64,
                    length: (file_size - existing) as u64,
                },
            )
        } else {
            None
        }),
{
}

/// The server takes each part that a client sends, and sees from its content
/// range whether it is the last.
pub proof fn lemma_parts_are_understood(offset: u64, bytes_read: u64, file_size: u64)
    requires
        bytes_read > 0,
        offset + bytes_read <= file_size,
    ensures
        ({
            let end = (offset + bytes_read - 1) as u64;
            let range = remote_cache::content_range(offset as nat, end as nat, file_size as nat);
            &&& content_range_of(range) == Some((offset, end, Some(file_size)))
            &&& chunk_taken(bytes_read, offset, end, Some(file_size)) == Some(
                offset + bytes_read == file_size,
            )
        }),
{
    lemma_content_range_reads_back(offset, (offset + bytes_read - 1) as u64, file_size);
}

/// Whether the keys of the entries go up.
pub open spec fn keys_ordered(entries: Seq<CacheEntryInfo>) -> bool {
    forall|i: int, j: int|
        0 <= i < j < entries.len() ==> order::lex_le((#[trigger] entries[i]).key@, (#[trigger] entries[j]).key@)
}

proof fn lemma_rank_splits(entries: Seq<CacheEntryInfo>, key: Seq<char>, i: int)
    requires
        keys_ordered(entries),
        0 <= i < entries.len(),
    ensures
        i < rank(entries, key) ==> order::lex_le(entries[i].key@, key),
        i >= rank(entries, key) ==> order::lex_le(key, entries[i].key@),
    decreases entries.len(),
{
    let d = entries.drop_last();
    let r = order::text_order();
    order::lemma_text_order_total();
    lemma_rank(d, key);
    assert(r(entries.last().key@, key) || r(key, entries.last().key@));
    if order::lex_le(entries.last().key@, key) {
        if i < d.len() {
            assert(order::lex_le(entries[i].key@, entries[entries.len() - 1].key@));
            assert(r(entries[i].key@, entries.last().key@) && r(entries.last().key@, key));
            assert(r(entries[i].key@, key));
        }
    } else if i < d.len() {
        assert(keys_ordered(d)) by {
            assert forall|a: int, b: int| 0 <= a < b < d.len() implies order::lex_le(
                (#[trigger] d[a]).key@,
                (#[trigger] d[b]).key@,
            ) by {
                assert(order::lex_le(entries[a].key@, entries[b].key@));
            }
        }
        lemma_rank_splits(d, key, i);
    }
}

/// Sorted entries go up in their keys.
pub proof fn lemma_sorted_by_key(entries: Seq<CacheEntryInfo>)
    ensures
        keys_ordered(by_key(entries)),
        by_key(entries).to_multiset() == entries.to_multiset(),
    decreases entries.len(),
{
    if entries.len() > 0 {
        let d = entries.drop_last();
        let e = entries.last();
        let sorted = by_key(d);
        lemma_sorted_by_key(d);
        lemma_rank(sorted, e.key@);
        let p = rank(sorted, e.key@);
        let t = sorted.insert(p, e);
        assert forall|i: int, j: int| 0 <= i < j < t.len() implies order::lex_le(
            (#[trigger] t[i]).key@,
            (#[trigger] t[j]).key@,
        ) by {
            if i < p && p < j {
                assert(t[i] == sorted[i] && t[j] == sorted[j - 1]);
            } else if i < p && j < p {
                assert(t[i] == sorted[i] && t[j] == sorted[j]);
            } else if i > p {
                assert(t[i] == sorted[i - 1] && t[j] == sorted[j - 1]);
            } else if i == p {
                assert(t[j] == sorted[j - 1]);
                lemma_rank_splits(sorted, e.key@, j - 1);
            } else {
                assert(t[i] == sorted[i]);
                lemma_rank_splits(sorted, e.key@, i);
            }
        }
        vstd::seq_lib::to_multiset_insert(sorted, p, e);
        vstd::seq_lib::to_multiset_build(d, e);
        assert(entries =~= d.push(e));
    } else {
        assert(by_key(entries) =~= entries);
    }
}

/// A server without a token takes every request; one with a token takes none
/// without a header, and none whose header does not begin with `Bearer `.
pub proof fn lemma_authorization(header: Seq<char>, expected: Seq<char>)
    ensures
        authorized(None, None),
        authorized(Some(header), None),
        !authorized(None, Some(expected)),
        !text::starts_with(header, "Bearer "@) ==> !authorized(Some(header), Some(expected)),
{
    let p = "Bearer "@;
    if header == p + expected {
        assert(header.take(p.len() as int) =~= p);
    }
}

/// What a client asks for by two positions, by one or by none is read from its
/// header; a header of another unit is not.
pub proof fn lemma_range_reads_back(start: u64, end: u64, header: Seq<char>)
    ensures
        range_of(
            "bytes="@ + numbers::decimal(start as nat) + "-"@ + numbers::decimal(end as nat),
        ) == Some((Some(start), Some(end))),
        range_of("bytes="@ + "-"@ + numbers::decimal(end as nat)) == Some((None::<u64>, Some(end))),
        range_of("bytes="@ + "-"@) == Some((None::<u64>, None::<u64>)),
        !text::starts_with(header, "bytes="@) ==> range_of(header) is None,
{
    reveal_strlit("-");
    let a = numbers::decimal(start as nat);
    let b = numbers::decimal(end as nat);
    let none = Seq::<char>::empty();
    numbers::lemma_decimal_is_digits(start as nat, '-');
    numbers::lemma_decimal_is_digits(end as nat, '-');
    numbers::lemma_parse_decimal(start);
    numbers::lemma_parse_decimal(end);
    text::lemma_split_two(a, '-', b);
    text::lemma_split_two(none, '-', b);
    text::lemma_split_two(none, '-', none);
    assert("bytes="@ + a + "-"@ + b =~= "bytes="@ + (a + seq!['-'] + b));
    assert("bytes="@ + "-"@ + b =~= "bytes="@ + (none + seq!['-'] + b));
    assert("bytes="@ + "-"@ =~= "bytes="@ + (none + seq!['-'] + none));
    text::lemma_behind("bytes="@, a + seq!['-'] + b);
    text::lemma_behind("bytes="@, none + seq!['-'] + b);
    text::lemma_behind("bytes="@, none + seq!['-'] + none);
}

/// A content range of another unit, or with a total that is neither a number
/// nor open, is not understood; one with an open total is.
pub proof fn lemma_content_range_faults(start: u64, end: u64, range: Seq<char>, total: Seq<char>)
    requires
        !total.contains('/'),
        numbers::parse_u64_spec(total) is None,
    ensures
        !text::starts_with(range, "bytes "@) ==> content_range_of(range) is None,
        content_range_of(
            "bytes "@ + numbers::decimal(start as nat) + "-"@ + numbers::decimal(end as nat) + "/"@
                + total,
        ) == (if total == "*"@ {
            Some((start, end, None::<u64>))
        } else {
            None
        }),
{
    reveal_strlit("-");
    reveal_strlit("/");
    let a = numbers::decimal(start as nat);
    let b = numbers::decimal(end as nat);
    numbers::lemma_decimal_is_digits(start as nat, '-');
    numbers::lemma_decimal_is_digits(end as nat, '-');
    numbers::lemma_decimal_is_digits(start as nat, '/');
    numbers::lemma_decimal_is_digits(end as nat, '/');
    numbers::lemma_parse_decimal(start);
    numbers::lemma_parse_decimal(end);
    let span = a + seq!['-'] + b;
    assert(!span.contains('/')) by {
        if span.contains('/') {
            let k = span.index_of('/');
            if k < a.len() {
                assert(a.contains(a[k]));
            } else if k > a.len() {
                assert(b.contains(b[k - a.len() - 1]));
            }
        }
    }
    text::lemma_split_two(a, '-', b);
    text::lemma_split_two(span, '/', total);
    assert("bytes "@ + a + "-"@ + b + "/"@ + total =~= "bytes "@ + (span + seq!['/'] + total));
    text::lemma_behind("bytes "@, span + seq!['/'] + total);
}

/// A part of a file is sent exactly if it begins inside the file, ends inside
/// it and does not end before it begins; without a beginning it begins at the
/// start, without an end it goes to the end.
pub proof fn lemma_range_served(start: u64, end: u64, file_size: u64)
    ensures
        byte_range(Some(start), Some(end), file_size) is Some <==> start <= end < file_size,
        byte_range(Some(start), Some(end), file_size) matches Some(r) ==> r.start == start && r.end
            == end && r.length == end - start + 1,
        byte_range(None, Some(end), file_size) == byte_range(Some(0), Some(end), file_size),
        file_size > 0 ==> byte_range(None, None, file_size) == Some(
            ByteRange { start: 0, end: (file_size - 1) as u64, length: file_size },
        ),
        byte_range(None, None, 0) is None,
{
}

/// A part of an upload is taken exactly if it has the size that its range
/// tells, and completes the upload exactly if it reaches a total that is known.
pub proof fn lemma_chunk_taken(size: u64, start: u64, end: u64, total: u64)
    requires
        start <= end,
    ensures
        chunk_taken(size, start, end, Some(total)) is Some <==> start + size == end + 1,
        chunk_taken(size, start, end, None) is Some <==> start + size == end + 1,
        start + size == end + 1 && end < total ==> chunk_taken(size, start, end, Some(total)) == Some(
            start + size == total,
        ),
        start + size == end + 1 ==> chunk_taken(size, start, end, None) == Some(false),
{
}

/// The key of an entry is read back from the name of its archive.
pub proof fn lemma_key_reads_back(key: Seq<char>)
    ensures
        is_archive(key + ".tar.gz"@),
        key_of(key + ".tar.gz"@) == key,
        !text::ends_with(key, ".tar"@) ==> key_of(key + ".gz"@) == key,
        key.len() > 0 ==> is_archive(key + ".gz"@),
        !is_archive(key + ".json"@),
{
    reveal_strlit(".tar.gz");
    reveal_strlit(".tar");
    reveal_strlit(".gz");
    reveal_strlit(".json");
    let a = key + ".tar.gz"@;
    let b = key + ".gz"@;
    let c = key + ".json"@;
    text::lemma_before_end(key, ".tar.gz"@);
    text::lemma_before_end(key, ".gz"@);
    assert(a.skip(a.len() - 3) =~= ".gz"@);
    assert(b.skip(b.len() - 3) =~= ".gz"@);
    if text::ends_with(b, ".tar.gz"@) {
        assert(b.skip(b.len() - 7) =~= ".tar.gz"@);
        assert(b.skip(b.len() - 7).take(4) =~= ".tar"@);
        assert(key.skip(key.len() - 4) =~= b.skip(b.len() - 7).take(4));
    }
    if text::ends_with(c, ".gz"@) {
        assert(c.skip(c.len() - 3)[2] == 'n');
        assert(".gz"@[2] == 'z');
    }
}

/// Without metadata, or with metadata that do not tell, it is not known when an
/// entry was last used; metadata that tell are believed.
pub proof fn lemma_last_accessed(content: Seq<char>)
    ensures
        last_accessed(None) == "unknown"@,
        digest::json_field(content, "last_accessed"@) is None ==> last_accessed(Some(content))
            == "unknown"@,
        digest::json_field(content, "last_accessed"@) matches Some(t) ==> last_accessed(Some(content))
            == t,
{
}

/// An entry has outlived its time exactly if it was made more than so many days
/// ago; one that does not tell when it was made stays.
pub proof fn lemma_outlived_by_age(content: Seq<char>, created: Seq<char>, t: (i64, u32), now: Timestamp, ttl: i64)
    requires
        digest::json_field(content, "created_at"@) == Some(created),
        clock::rfc3339(created) == Some(t),
        t.1 == 0,
        now.nanos == 0,
    ensures
        outlived(content, now, ttl) <==> now.secs - t.0 > ttl * 86400,
{
    assert((now.secs - t.0) * 1_000_000_000 > ttl * 86400 * 1_000_000_000 <==> now.secs - t.0 > ttl
        * 86400);
}

/// An entry whose metadata do not tell when it was made never outlives its
/// time, and a longer time to live keeps no fewer entries.
pub proof fn lemma_outlived_needs_age(content: Seq<char>, now: Timestamp, short: i64, long: i64)
    requires
        short <= long,
    ensures
        digest::json_field(content, "created_at"@) is None ==> !outlived(content, now, short),
        outlived(content, now, long) ==> outlived(content, now, short),
{
    assert(short * 86400 * 1_000_000_000 <= long * 86400 * 1_000_000_000);
}

/// The archives are counted, and their sizes added, one by one; other files do
/// not count.
pub proof fn lemma_archives_counted(files: Seq<StoredFile>, f: StoredFile)
    ensures
        archive_count(files) == files.filter(|x: StoredFile| is_archive(x.name@)).len(),
        !is_archive(f.name@) ==> archive_count(files.push(f)) == archive_count(files)
            && archive_bytes(files.push(f)) == archive_bytes(files) && archives_per_namespace(
            files.push(f),
        ) == archives_per_namespace(files),
        is_archive(f.name@) && f.size is Some ==> archive_bytes(files.push(f)) == archive_bytes(files)
            + f.size->0,
        is_archive(f.name@) && f.size is None ==> archive_bytes(files.push(f)) == archive_bytes(files),
    decreases files.len(),
{
    assert(files.push(f).drop_last() =~= files);
    reveal(Seq::filter);
    if files.len() > 0 {
        lemma_archives_counted(files.drop_last(), f);
    }
}

/// Whether a file is an archive of a namespace.
pub open spec fn archive_in(namespace: Seq<char>) -> spec_fn(StoredFile) -> bool {
    |x: StoredFile| is_archive(x.name@) && x.namespace is Some && x.namespace->0@ == namespace
}

/// The archives of each namespace are counted apart; a namespace without any is
/// not listed.
pub proof fn lemma_archives_per_namespace(files: Seq<StoredFile>, namespace: Seq<char>)
    requires
        files.len() <= usize::MAX,
    ensures
        ({
            let n = files.filter(archive_in(namespace)).len();
            let counts = archives_per_namespace(files);
            &&& n <= files.len()
            &&& n == 0 ==> !counts.map.contains_key(namespace)
            &&& n > 0 ==> counts.map.contains_key(namespace) && counts.map[namespace] == n
        }),
    decreases files.len(),
{
    reveal(Seq::filter);
    if files.len() > 0 {
        lemma_archives_per_namespace(files.drop_last(), namespace);
    }
}

/// The files of an entry lie in the directory of its namespace, below the
/// storage directory, and differ from each other.
pub proof fn lemma_entry_file_place(
    storage: Seq<char>,
    namespace: Seq<char>,
    key: Seq<char>,
    other: Seq<char>,
    after: Seq<char>,
)
    requires
        storage.len() > 0,
        storage.last() != '/',
        namespace.len() > 0,
        namespace[0] != '/',
        namespace.last() != '/',
        key.len() > 0,
        key[0] != '/',
        other.len() > 0,
        other[0] != '/',
    ensures
        entry_file(storage, namespace, Seq::empty(), key, after) == storage + "/"@ + namespace + "/"@
            + key + after,
        entry_file(storage, namespace, Seq::empty(), key, after) == entry_file(
            storage,
            namespace,
            Seq::empty(),
            other,
            after,
        ) ==> key == other,
{
    paths::lemma_join_relative(storage, namespace);
    let dir = storage + "/"@ + namespace;
    reveal_strlit("/");
    assert(dir.last() == namespace.last());
    let none = Seq::<char>::empty();
    assert(none + key + after =~= key + after);
    assert(none + other + after =~= other + after);
    assert((key + after)[0] == key[0]);
    assert((other + after)[0] == other[0]);
    paths::lemma_join_relative(dir, key + after);
    paths::lemma_join_relative(dir, other + after);
    let a = dir + "/"@ + (key + after);
    let b = dir + "/"@ + (other + after);
    assert(a =~= storage + "/"@ + namespace + "/"@ + key + after);
    if a == b {
        let n = dir.len() as int + 1;
        assert(a.subrange(n, n + key.len()) =~= key);
        assert(b.subrange(n, n + other.len()) =~= other);
        assert(a.len() == b.len());
    }
}

/// The archive of an entry is looked for where its metadata say it lies; where
/// they do not tell the key or the namespace, none is.
pub proof fn lemma_named_archive(storage: Seq<char>, content: Seq<char>, key: Seq<char>, namespace: Seq<char>)
    requires
        storage.len() > 0,
        storage.last() != '/',
        namespace.len() > 0,
        namespace[0] != '/',
        namespace.last() != '/',
        key.len() > 0,
        key[0] != '/',
    ensures
        digest::json_field(content, "key"@) == Some(key) && digest::json_field(content, "namespace"@)
            == Some(namespace) ==> named_archive(storage, content) == Some(
            storage + "/"@ + namespace + "/"@ + key + ".tar.gz"@,
        ),
        digest::json_field(content, "key"@) is None || digest::json_field(content, "namespace"@) is None
            ==> named_archive(storage, content) is None,
{
    reveal_strlit("");
    assert(""@ =~= Seq::<char>::empty());
    lemma_entry_file_place(storage, namespace, key, key, ".tar.gz"@);
}

} // verus!
