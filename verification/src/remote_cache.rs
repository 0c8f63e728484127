//! The client of the remote cache.
use vstd::prelude::*;

use crate::models::{RemoteCacheConfig, RemoteCacheStats};
use crate::numbers;
use crate::numbers::{parse_u64, push_decimal};
use crate::string_map::StringMap;
use crate::text;
use crate::text::{append_str, clone_opt, from_chars, split_str, to_chars, trim_str};

verus! {

/// How many bytes of a large file go into one request.
pub const CHUNK_SIZE: u64 = 10_485_760;

/// Above how many bytes a file goes in more than one request.
pub const LARGE_FILE_THRESHOLD: u64 = 104_857_600;

/// An entry of the remote cache.
#[derive(Debug, Clone)]
pub struct CacheEntryInfo {
    pub key: String,
    pub size_bytes: u64,
    pub last_accessed: String,
}

/// What a server holds and what it was used for.
#[derive(Debug, Clone)]
pub struct ServerStats {
    pub total_entries: usize,
    pub total_size_bytes: u64,
    pub hits_last_24h: u64,
    pub misses_last_24h: u64,
    pub namespace_counts: StringMap<usize>,
}

/// What a server removed.
#[derive(Debug, Clone, Copy, PartialEq, Eq, Structural)]
pub struct GcResult {
    pub removed: usize,
    pub freed_bytes: u64,
}

/// Why the remote cache could not be used.
#[derive(Debug, Clone)]
pub enum RemoteCacheError {
    /// No address is configured.
    NoUrl,
    /// The remote cache is switched off.
    NotEnabled,
    /// The remote cache is switched off or has no address.
    NotConfigured,
    /// The server refused an upload.
    Upload { status: String },
    /// The server refused a part of an upload.
    Chunk { offset: u64, status: String },
    /// The server refused a download.
    Download { status: String },
    /// The server refused a request of that kind.
    Request { kind: String, status: String },
}

impl RemoteCacheError {
    /// The text of the error.
    pub fn message(&self) -> (r: String)
        ensures
            r@ == match *self {
                RemoteCacheError::NoUrl => "Remote cache URL not configured"@,
                RemoteCacheError::NotEnabled => "Remote cache not enabled"@,
                RemoteCacheError::NotConfigured =>
                    "Remote cache is not configured. Please set remote_cache.url in pipeline.yml"@,
                RemoteCacheError::Upload { status } => "Upload failed with status: "@ + status@,
                RemoteCacheError::Chunk { offset, status } => "Chunk upload failed at offset "@
                    + numbers::decimal(offset as nat) + " with status: "@ + status@,
                RemoteCacheError::Download { status } => "Download failed with status: "@ + status@,
                RemoteCacheError::Request { kind, status } => kind@ + " failed with status: "@
                    + status@,
            },
    {
        match self {
            RemoteCacheError::NoUrl => "Remote cache URL not configured".to_owned(),
            RemoteCacheError::NotEnabled => "Remote cache not enabled".to_owned(),
            RemoteCacheError::NotConfigured =>
                "Remote cache is not configured. Please set remote_cache.url in pipeline.yml".to_owned(),
            RemoteCacheError::Upload { status } => {
                let mut s = "Upload failed with status: ".to_owned();
                append_str(&mut s, status.as_str());
                s
            },
            RemoteCacheError::Chunk { offset, status } => {
                let mut s = "Chunk upload failed at offset ".to_owned();
                push_decimal(&mut s, *offset as u128);
                append_str(&mut s, " with status: ");
                append_str(&mut s, status.as_str());
                s
            },
            RemoteCacheError::Download { status } => {
                let mut s = "Download failed with status: ".to_owned();
                append_str(&mut s, status.as_str());
                s
            },
            RemoteCacheError::Request { kind, status } => {
                let mut s = kind.clone();
                append_str(&mut s, " failed with status: ");
                append_str(&mut s, status.as_str());
                s
            },
        }
    }
}

/// The reply of a server to a request.
#[derive(Debug, Clone)]
pub struct Reply {
    /// The status code.
    pub code: u16,
    /// The status as text.
    pub status: String,
}

/// Whether a status code tells of success.
pub open spec fn is_success(code: u16) -> bool {
    200 <= code < 300
}

// ---------------------------------------------------------------------------
// Addresses

/// `s` without the `/` at its end.
pub open spec fn without_slashes(s: Seq<char>) -> Seq<char>
    decreases s.len(),
{
    if s.len() > 0 && s.last() == '/' {
        without_slashes(s.drop_last())
    } else {
        s
    }
}

fn without_slashes_of(s: &str) -> (r: String)
    ensures
        r@ == without_slashes(s@),
{
    let v = to_chars(s);
    let mut n: usize = v.len();
    assert(s@.take(n as int) =~= s@);
    while n > 0 && v[n - 1] == '/'
        invariant
            v@ == s@,
            n <= v@.len(),
            without_slashes(s@) == without_slashes(s@.take(n as int)),
        decreases n,
    {
        assert(s@.take(n as int).drop_last() =~= s@.take(n - 1));
        n = n - 1;
    }
    let part = vstd::slice::slice_subrange(v.as_slice(), 0, n);
    assert(part@ =~= s@.take(n as int));
    from_chars(part)
}

/// The address of an entry.
pub open spec fn entry_url(base: Seq<char>, namespace: Seq<char>, key: Seq<char>) -> Seq<char> {
    without_slashes(base) + "/cache/"@ + namespace + "/"@ + key
}

/// The address of a namespace.
pub open spec fn namespace_url(base: Seq<char>, namespace: Seq<char>) -> Seq<char> {
    without_slashes(base) + "/cache/"@ + namespace
}

/// The client of the remote cache.
#[derive(Debug, Clone)]
pub struct RemoteCacheClient {
    pub config: RemoteCacheConfig,
    pub namespace: String,
    pub stats: RemoteCacheStats,
}

impl RemoteCacheClient {
    /// A client that uses the configured namespace, or the given one if none
    /// is configured.
    pub fn new(config: RemoteCacheConfig, default_namespace: &str) -> (r: RemoteCacheClient)
        ensures
            r.config == config,
            r.namespace@ == (match config.namespace {
                Some(n) => n@,
                None => default_namespace@,
            }),
            r.stats == (RemoteCacheStats { hits: 0, misses: 0, pushes: 0 }),
    {
        let namespace = match &config.namespace {
            Some(n) => n.clone(),
            None => default_namespace.to_owned(),
        };
        RemoteCacheClient {
            config,
            namespace,
            stats: RemoteCacheStats { hits: 0, misses: 0, pushes: 0 },
        }
    }

    /// Whether the remote cache is switched on and has an address.
    pub open spec fn enabled(self) -> bool {
        self.config.enabled && self.config.url is Some
    }

    /// Whether the remote cache is switched on and has an address.
    pub fn is_enabled(&self) -> (r: bool)
        ensures
            r == self.enabled(),
    {
        self.config.enabled && self.config.url.is_some()
    }

    /// Whether commands on the remote cache can be carried out.
    pub fn check_configured(&self) -> (r: Result<(), RemoteCacheError>)
        ensures
            match r {
                Ok(_) => self.enabled(),
                Err(e) => !self.enabled() && e is NotConfigured,
            },
    {
        if self.is_enabled() {
            Ok(())
        } else {
            Err(RemoteCacheError::NotConfigured)
        }
    }

    /// The configured address.
    pub fn base_url(&self) -> (r: Result<String, RemoteCacheError>)
        ensures
            match r {
                Ok(url) => self.config.url == Some(url),
                Err(e) => self.config.url is None && e is NoUrl,
            },
    {
        match clone_opt(&self.config.url) {
            Some(url) => Ok(url),
            None => Err(RemoteCacheError::NoUrl),
        }
    }

    /// The header by which the client shows that it may use the cache.
    pub fn auth_header(&self) -> (r: Option<(String, String)>)
        ensures
            match (r, self.config.token) {
                (Some(h), Some(token)) => h.0@ == "Authorization"@ && h.1@ == "Bearer "@ + token@,
                (None, None) => true,
                _ => false,
            },
    {
        match &self.config.token {
            Some(token) => {
                let mut value = "Bearer ".to_owned();
                append_str(&mut value, token.as_str());
                Some(("Authorization".to_owned(), value))
            },
            None => None,
        }
    }

    /// The address of an entry, if the cache can be used.
    pub fn entry_url(&self, key: &str) -> (r: Option<String>)
        ensures
            match r {
                Some(url) => self.enabled() && url@ == entry_url(
                    self.config.url->0@,
                    self.namespace@,
                    key@,
                ),
                None => !self.enabled(),
            },
    {
        if !self.is_enabled() {
            return None;
        }
        match &self.config.url {
            Some(base) => {
                let mut s = without_slashes_of(base.as_str());
                append_str(&mut s, "/cache/");
                append_str(&mut s, self.namespace.as_str());
                append_str(&mut s, "/");
                append_str(&mut s, key);
                Some(s)
            },
            None => None,
        }
    }

    /// The address of a namespace, by default the client's, if the cache can be
    /// used.
    pub fn namespace_url(&self, namespace: Option<&str>) -> (r: Option<String>)
        ensures
            match r {
                Some(url) => self.enabled() && url@ == namespace_url(
                    self.config.url->0@,
                    match namespace {
                        Some(n) => n@,
                        None => self.namespace@,
                    },
                ),
                None => !self.enabled(),
            },
    {
        if !self.is_enabled() {
            return None;
        }
        match &self.config.url {
            Some(base) => {
                let mut s = without_slashes_of(base.as_str());
                append_str(&mut s, "/cache/");
                match namespace {
                    Some(n) => append_str(&mut s, n),
                    None => append_str(&mut s, self.namespace.as_str()),
                }
                Some(s)
            },
            None => None,
        }
    }

    /// The address of a service of the server.
    pub fn service_url(&self, path: &str) -> (r: Result<String, RemoteCacheError>)
        ensures
            match r {
                Ok(url) => self.enabled() && url@ == without_slashes(self.config.url->0@) + path@,
                Err(e) => !self.enabled() && e is NotEnabled,
            },
    {
        if !self.is_enabled() {
            return Err(RemoteCacheError::NotEnabled);
        }
        match &self.config.url {
            Some(base) => {
                let mut s = without_slashes_of(base.as_str());
                append_str(&mut s, path);
                Ok(s)
            },
            None => Err(RemoteCacheError::NotEnabled),
        }
    }

    /// Takes note of how an upload ended.
    pub fn note_upload(&mut self, ok: bool)
        requires
            ok ==> old(self).stats.pushes < u64::MAX,
        ensures
            *final(self) == (RemoteCacheClient {
                stats: (RemoteCacheStats {
                    pushes: if ok {
                        (old(self).stats.pushes + 1) as u64
                    } else {
                        old(self).stats.pushes
                    },
                    ..old(self).stats
                }),
                ..*old(self)
            }),
    {
        if ok {
            self.stats.pushes = self.stats.pushes + 1;
        }
    }

    /// Takes note of how a download ended: whether the entry was found and
    /// loaded.
    pub fn note_download(&mut self, loaded: bool)
        requires
            loaded ==> old(self).stats.hits < u64::MAX,
            !loaded ==> old(self).stats.misses < u64::MAX,
        ensures
            *final(self) == (RemoteCacheClient {
                stats: (RemoteCacheStats {
                    hits: if loaded {
                        (old(self).stats.hits + 1) as u64
                    } else {
                        old(self).stats.hits
                    },
                    misses: if loaded {
                        old(self).stats.misses
                    } else {
                        (old(self).stats.misses + 1) as u64
                    },
                    ..old(self).stats
                }),
                ..*old(self)
            }),
    {
        if loaded {
            self.stats.hits = self.stats.hits + 1;
        } else {
            self.stats.misses = self.stats.misses + 1;
        }
    }
}

/// Whether the reply to a request tells of success.
pub fn check_reply(kind: &str, reply: &Reply) -> (r: Result<(), RemoteCacheError>)
    ensures
        match r {
            Ok(_) => is_success(reply.code),
            Err(e) => !is_success(reply.code) && (e matches RemoteCacheError::Request {
                kind: k,
                status,
            } && k@ == kind@ && status@ == reply.status@),
        },
{
    if 200 <= reply.code && reply.code < 300 {
        Ok(())
    } else {
        Err(RemoteCacheError::Request { kind: kind.to_owned(), status: reply.status.clone() })
    }
}

// ---------------------------------------------------------------------------
// Uploads

/// Whether a file goes in more than one request.
pub fn is_large(file_size: u64) -> (r: bool)
    ensures
        r == (file_size > LARGE_FILE_THRESHOLD),
{
    file_size > LARGE_FILE_THRESHOLD
}

/// Whether an upload in one request was taken.
pub fn check_upload(reply: &Reply) -> (r: Result<bool, RemoteCacheError>)
    ensures
        match r {
            Ok(b) => is_success(reply.code) && b,
            Err(e) => !is_success(reply.code) && (e matches RemoteCacheError::Upload { status }
                && status@ == reply.status@),
        },
{
    if 200 <= reply.code && reply.code < 300 {
        Ok(true)
    } else {
        Err(RemoteCacheError::Upload { status: reply.status.clone() })
    }
}

/// The place of a part in a file: its first and last byte and the size of the
/// file.
pub open spec fn content_range(start: nat, end: nat, total: nat) -> Seq<char> {
    "bytes "@ + numbers::decimal(start) + "-"@ + numbers::decimal(end) + "/"@ + numbers::decimal(
        total,
    )
}

/// The place of a part in a file.
pub fn content_range_str(start: u64, end: u64, total: u64) -> (r: String)
    ensures
        r@ == content_range(start as nat, end as nat, total as nat),
{
    let mut s = "bytes ".to_owned();
    push_decimal(&mut s, start as u128);
    append_str(&mut s, "-");
    push_decimal(&mut s, end as u128);
    append_str(&mut s, "/");
    push_decimal(&mut s, total as u128);
    s
}

/// How far an upload in parts has come.
#[derive(Debug, Clone, Copy, PartialEq, Eq, Structural)]
pub struct ChunkedUpload {
    pub offset: u64,
    pub file_size: u64,
}

/// What to do next in an upload in parts.
#[derive(Debug, Clone)]
pub enum UploadStep {
    /// The upload is complete.
    Done,
    /// The part that was read is to be sent with this content range.
    Send(String),
}

impl ChunkedUpload {
    /// An upload of which nothing is sent.
    pub fn new(file_size: u64) -> (r: ChunkedUpload)
        ensures
            r == (ChunkedUpload { offset: 0, file_size }),
    {
        ChunkedUpload { offset: 0, file_size }
    }

    /// Whether another part is to be read.
    pub fn wants_more(&self) -> (r: bool)
        ensures
            r == (self.offset < self.file_size),
    {
        self.offset < self.file_size
    }

    /// What to do once so many bytes were read; none mean that the file has
    /// ended.
    pub fn part_read(&self, bytes_read: usize) -> (r: UploadStep)
        requires
            self.offset + bytes_read <= u64::MAX,
        ensures
            match r {
                UploadStep::Done => bytes_read == 0,
                UploadStep::Send(range) => bytes_read > 0 && range@ == content_range(
                    self.offset as nat,
                    (self.offset + bytes_read - 1) as nat,
                    self.file_size as nat,
                ),
            },
    {
        if bytes_read == 0 {
            return UploadStep::Done;
        }
        let end: u64 = self.offset + (bytes_read as u64 - 1);
        UploadStep::Send(content_range_str(self.offset, end, self.file_size))
    }

    /// Goes on behind a part of so many bytes once the server took it.
    pub fn part_sent(&mut self, bytes_read: usize, reply: &Reply) -> (r: Result<(), RemoteCacheError>)
        requires
            old(self).offset + bytes_read <= u64::MAX,
        ensures
            match r {
                Ok(_) => is_success(reply.code) && *final(self) == (ChunkedUpload {
                    offset: (old(self).offset + bytes_read) as u64,
                    file_size: old(self).file_size,
                }),
                Err(e) => !is_success(reply.code) && *final(self) == *old(self) && (e matches
                    RemoteCacheError::Chunk { offset, status } && offset == old(self).offset
                    && status@ == reply.status@),
            },
    {
        if 200 <= reply.code && reply.code < 300 {
            self.offset = self.offset + bytes_read as u64;
            Ok(())
        } else {
            Err(RemoteCacheError::Chunk { offset: self.offset, status: reply.status.clone() })
        }
    }
}

// ---------------------------------------------------------------------------
// Downloads

/// From which byte on to load, given the sizes of the target file and of the
/// partly loaded file, as far as these exist.
pub open spec fn resume_offset(target: Option<u64>, part: Option<u64>) -> u64 {
    match target {
        Some(t) => if t > 0 {
            match part {
                Some(p) => p,
                None => t,
            }
        } else {
            0
        },
        None => 0,
    }
}

/// From which byte on to load.
pub fn resume_from(target: Option<u64>, part: Option<u64>) -> (r: u64)
    ensures
        r == resume_offset(target, part),
{
    match target {
        Some(t) => if t > 0 {
            match part {
                Some(p) => p,
                None => t,
            }
        } else {
            0
        },
        None => 0,
    }
}

/// The header that asks for the bytes from the given one on; none for a whole
/// file.
pub fn range_header(existing: u64) -> (r: Option<String>)
    ensures
        r.deep_view() == (if existing > 0 {
            Some("bytes="@ + numbers::decimal(existing as nat) + "-"@)
        } else {
            None
        }),
{
    if existing > 0 {
        let mut s = "bytes=".to_owned();
        push_decimal(&mut s, existing as u128);
        append_str(&mut s, "-");
        Some(s)
    } else {
        None
    }
}

/// What the reply to a download means.
#[derive(Debug, Clone)]
pub enum DownloadReply {
    /// There is no such entry: the partly loaded file goes.
    NotFound,
    /// The body is to be added to the partly loaded file, which is complete at
    /// this size.
    Append { total_size: u64 },
    /// The body is the whole file, of this size if it is not zero.
    Replace { total_size: u64 },
}

/// The size of the whole file that a content range tells.
pub open spec fn total_of_range(range: Seq<char>) -> Option<u64> {
    let parts = text::split(range, '/');
    if parts.len() == 2 {
        numbers::parse_u64_spec(parts[1])
    } else {
        None
    }
}

fn total_of_range_str(range: &str) -> (r: Option<u64>)
    ensures
        r == total_of_range(range@),
{
    let parts = split_str(range, '/');
    let ghost all = text::split(range@, '/');
    if parts.len() == 2 {
        assert(all[1] == parts@[1]@);
        parse_u64(parts[1].as_str())
    } else {
        None
    }
}

/// The length that a header tells, zero if it tells none.
pub open spec fn told_length(header: Option<Seq<char>>) -> u64 {
    match header {
        Some(h) => match numbers::parse_u64_spec(h) {
            Some(n) => n,
            None => 0,
        },
        None => 0,
    }
}

/// The size of the whole file, given the two headers that may tell it.
pub open spec fn told_total(
    partial: bool,
    existing: u64,
    length: Option<Seq<char>>,
    range: Option<Seq<char>>,
) -> int {
    if partial && existing > 0 {
        match range {
            Some(r) => match total_of_range(r) {
                Some(n) => n as int,
                None => told_length(length) + existing,
            },
            None => told_length(length) + existing,
        }
    } else {
        told_length(length) as int
    }
}

fn told_length_of(header: &Option<String>) -> (r: u64)
    ensures
        r == told_length(header.deep_view()),
{
    match header {
        Some(h) => match parse_u64(h.as_str()) {
            Some(n) => n,
            None => 0,
        },
        None => 0,
    }
}

/// Whether the size of the whole file can be told: what is there already and
/// what a partial reply brings add up to a number of 64 bits.
pub fn sizes_add_up(reply: &Reply, existing: u64, length: &Option<String>) -> (r: bool)
    ensures
        r == (reply.code == 206 ==> told_length(length.deep_view()) + existing <= u64::MAX),
{
    reply.code != 206 || told_length_of(length) <= u64::MAX - existing
}

/// What the reply to a download means, given how many bytes are there already
/// and the headers that tell the length of the body and its place.
pub fn classify_download(
    reply: &Reply,
    existing: u64,
    length: &Option<String>,
    range: &Option<String>,
) -> (r: Result<DownloadReply, RemoteCacheError>)
    requires
        reply.code == 206 ==> told_length(length.deep_view()) + existing <= u64::MAX,
    ensures
        ({
            let total = told_total(
                reply.code == 206,
                existing,
                length.deep_view(),
                range.deep_view(),
            );
            match r {
                Ok(DownloadReply::NotFound) => reply.code == 404,
                Ok(DownloadReply::Append { total_size }) => reply.code == 206 && existing > 0
                    && total_size == total,
                Ok(DownloadReply::Replace { total_size }) => is_success(reply.code) && !(reply.code
                    == 206 && existing > 0) && total_size == total,
                Err(e) => reply.code != 404 && !is_success(reply.code) && (e matches
                    RemoteCacheError::Download { status } && status@ == reply.status@),
            }
        }),
{
    if reply.code == 404 {
        return Ok(DownloadReply::NotFound);
    }
    if !(200 <= reply.code && reply.code < 300) {
        return Err(RemoteCacheError::Download { status: reply.status.clone() });
    }
    let content_length: u64 = told_length_of(length);
    if reply.code == 206 && existing > 0 {
        let told: Option<u64> = match range {
            Some(h) => total_of_range_str(h.as_str()),
            None => None,
        };
        let total_size: u64 = match told {
            Some(n) => n,
            None => content_length + existing,
        };
        Ok(DownloadReply::Append { total_size })
    } else {
        Ok(DownloadReply::Replace { total_size: content_length })
    }
}

/// Whether the partly loaded file, now of that size, becomes the target file.
pub fn is_complete(reply: &DownloadReply, size: u64) -> (r: bool)
    ensures
        r == match *reply {
            DownloadReply::NotFound => false,
            DownloadReply::Append { total_size } => total_size > 0 && size >= total_size,
            DownloadReply::Replace { total_size } => total_size == 0 || size >= total_size,
        },
{
    match reply {
        DownloadReply::NotFound => false,
        DownloadReply::Append { total_size } => size >= *total_size && *total_size > 0,
        DownloadReply::Replace { total_size } => *total_size == 0 || size >= *total_size,
    }
}

/// Whether a download brought something: the target file is there and not
/// empty.
pub fn has_content(target: Option<u64>) -> (r: bool)
    ensures
        r == (target matches Some(n) && n > 0),
{
    match target {
        Some(n) => n > 0,
        None => false,
    }
}

// ---------------------------------------------------------------------------
// Namespaces

/// The branch that a command printed.
pub open spec fn branch_of(success: bool, stdout: Seq<char>) -> Option<Seq<char>> {
    if success && text::trim(stdout).len() > 0 {
        Some(text::trim(stdout))
    } else {
        None
    }
}

/// The branch that a command printed, if it succeeded and printed one.
pub fn detect_git_branch(success: bool, stdout: &str) -> (r: Option<String>)
    ensures
        r.deep_view() == branch_of(success, stdout@),
{
    if success {
        let branch = trim_str(stdout);
        if !branch.as_str().is_empty() {
            return Some(branch);
        }
    }
    None
}

/// The namespace to use if none is configured: the branch, or `default`.
pub fn get_default_namespace(branch: Option<String>) -> (r: String)
    ensures
        r@ == (match branch {
            Some(b) => b@,
            None => "default"@,
        }),
{
    match branch {
        Some(b) => b,
        None => "default".to_owned(),
    }
}

// ---------------------------------------------------------------------------
// Laws

/// Slashes at the end of an address do not matter, and nothing else is taken
/// away.
pub proof fn lemma_slashes_do_not_matter(base: Seq<char>, namespace: Seq<char>, key: Seq<char>)
    ensures
        without_slashes(base.push('/')) == without_slashes(base),
        base.len() == 0 || base.last() != '/' ==> without_slashes(base) == base,
        entry_url(base.push('/'), namespace, key) == entry_url(base, namespace, key),
        namespace_url(base.push('/'), namespace) == namespace_url(base, namespace),
        entry_url(base, namespace, key) == namespace_url(base, namespace) + "/"@ + key,
        base.len() > 0 && base.last() != '/' ==> namespace_url(base, namespace) == base + "/cache/"@
            + namespace,
{
    assert(base.push('/').drop_last() =~= base);
}

/// Of one server and namespace, different keys have different addresses.
pub proof fn lemma_entry_urls_differ(base: Seq<char>, namespace: Seq<char>, a: Seq<char>, b: Seq<char>)
    requires
        entry_url(base, namespace, a) == entry_url(base, namespace, b),
    ensures
        a == b,
{
    let p = without_slashes(base) + "/cache/"@ + namespace + "/"@;
    assert((p + a).skip(p.len() as int) =~= a);
    assert((p + b).skip(p.len() as int) =~= b);
}

/// The total size of a file is read back from a content range.
pub proof fn lemma_total_reads_back(start: nat, end: nat, total: u64)
    ensures
        total_of_range(content_range(start, end, total as nat)) == Some(total),
{
    reveal_strlit("bytes ");
    reveal_strlit("-");
    reveal_strlit("/");
    let a = numbers::decimal(start);
    let b = numbers::decimal(end);
    let c = numbers::decimal(total as nat);
    let front = "bytes "@ + a + "-"@ + b;
    numbers::lemma_decimal_is_digits(start, '/');
    numbers::lemma_decimal_is_digits(end, '/');
    numbers::lemma_decimal_is_digits(total as nat, '/');
    assert(!front.contains('/')) by {
        if front.contains('/') {
            let k = front.index_of('/');
            if k >= 6 && k < 6 + a.len() {
                assert(a.contains(a[k - 6]));
            } else if k > 6 + a.len() {
                assert(b.contains(b[k - 7 - a.len()]));
            }
        }
    }
    assert(front + "/"@ + c =~= front + seq!['/'] + c);
    text::lemma_split_two(front, '/', c);
    numbers::lemma_parse_decimal(total);
}

/// A download goes on where the part that was loaded ends, or where the file
/// ends if nothing tells of the part; one of which nothing is there begins at
/// the start.
pub proof fn lemma_resumes_behind_part(target: u64, part: u64)
    ensures
        target > 0 ==> resume_offset(Some(target), Some(part)) == part,
        target > 0 ==> resume_offset(Some(target), None) == target,
        resume_offset(None, Some(part)) == 0,
        resume_offset(None, None) == 0,
        resume_offset(Some(0), Some(part)) == 0,
{
}

/// The total of a download is the length that the server tells; where only the
/// rest of a file comes, it is the total of the content range, or failing that
/// the rest and what is there.
pub proof fn lemma_total_of_download(existing: u64, length: u64, start: nat, end: nat, total: u64)
    requires
        existing > 0,
    ensures
        told_total(false, existing, Some(numbers::decimal(length as nat)), None) == length,
        told_total(
            true,
            existing,
            Some(numbers::decimal(length as nat)),
            Some(content_range(start, end, total as nat)),
        ) == total,
        told_total(true, existing, Some(numbers::decimal(length as nat)), None) == existing + length,
        told_total(true, 0, Some(numbers::decimal(length as nat)), None) == length,
        told_total(
            true,
            0,
            Some(numbers::decimal(length as nat)),
            Some(content_range(start, end, total as nat)),
        ) == length,
        told_total(false, existing, None, None) == 0,
{
    lemma_total_reads_back(start, end, total);
    numbers::lemma_parse_decimal(length);
}

/// The branch is what was printed, without white space around it, if the
/// command succeeded and printed anything else.
pub proof fn lemma_branch_is_printed(name: Seq<char>, space: Seq<char>)
    requires
        name.len() > 0,
        !text::is_space(name[0]),
        !text::is_space(name.last()),
        forall|i: int| 0 <= i < space.len() ==> text::is_space(#[trigger] space[i]),
    ensures
        branch_of(true, name + space) == Some(name),
        branch_of(false, name + space) is None,
        branch_of(true, space) is None,
{
    let none = Seq::<char>::empty();
    text::lemma_trim_between(none, name, space);
    assert(none + name + space =~= name + space);
    text::lemma_trim_between(space, none, none);
    assert(space + none + none =~= space);
}

/// The codes of success are those from 200 to 299.
pub proof fn lemma_success_codes(code: u16)
    ensures
        is_success(code) <==> code / 100 == 2,
{
}

/// A length that is no number counts as none, and a content range without a
/// total tells none.
pub proof fn lemma_untold_length(header: Seq<char>, range: Seq<char>)
    requires
        numbers::parse_u64_spec(header) is None,
        !range.contains('/'),
    ensures
        told_length(Some(header)) == 0,
        told_length(None) == 0,
        total_of_range(range) is None,
{
    text::lemma_split_one(range, '/');
}

} // verus!
