//! Files that jobs leave for others, and caches.
use vstd::prelude::*;
use vstd::utf8::encode_utf8;

use crate::clock;
use crate::clock::{days_between_of, parse_rfc3339};
use crate::digest;
use crate::digest::{json_field_of, json_object_of, sha256_of};
use crate::letters;
use crate::models::{Job, Timestamp};
use crate::numbers;
use crate::numbers::hex_str;
use crate::order;
use crate::order::sort_strings;
use crate::paths;
use crate::paths::{ci_path_str, join_path_str};
use crate::pattern;
use crate::pattern::regex_matches;
use crate::string_map::DeepClone;
use crate::text;
use crate::text::{append_str, ends_with_str, from_chars, safe_name_str, to_chars};

verus! {

// ---------------------------------------------------------------------------
// Artifacts

/// Where the artifacts of jobs are kept.
#[derive(Debug, Clone)]
pub struct ArtifactManager {
    pub base_dir: String,
}

/// The directory of the artifacts.
pub open spec fn artifacts_path(base: Seq<char>) -> Seq<char> {
    paths::ci_path(base, "artifacts"@)
}

/// The patterns of one entry of a job's artifacts, seen from a directory.
pub open spec fn seen_from(dir: Seq<char>, patterns: Seq<Seq<char>>) -> Seq<Seq<char>> {
    Seq::new(patterns.len(), |i: int| paths::join_path(dir, patterns[i]))
}

/// The patterns of a job's artifacts, seen from a directory.
pub open spec fn artifact_patterns(dir: Seq<char>, artifacts: Seq<Seq<Seq<char>>>) -> Seq<Seq<char>>
    decreases artifacts.len(),
{
    if artifacts.len() == 0 {
        Seq::empty()
    } else {
        artifact_patterns(dir, artifacts.drop_last()) + seen_from(dir, artifacts.last())
    }
}

/// The lists one behind the other.
pub open spec fn flat(lists: Seq<Seq<Seq<char>>>) -> Seq<Seq<char>>
    decreases lists.len(),
{
    if lists.len() == 0 {
        Seq::empty()
    } else {
        flat(lists.drop_last()) + lists.last()
    }
}

impl ArtifactManager {
    /// A manager that keeps artifacts under the given directory.
    pub fn new(base_dir: &str) -> (r: ArtifactManager)
        ensures
            r.base_dir@ == base_dir@,
    {
        ArtifactManager { base_dir: base_dir.to_owned() }
    }

    /// The directory of the artifacts.
    pub fn artifacts_dir(&self) -> (r: String)
        ensures
            r@ == artifacts_path(self.base_dir@),
    {
        ci_path_str(self.base_dir.as_str(), "artifacts")
    }

    /// The archive of a job's artifacts.
    pub fn job_artifact_path(&self, job_name: &str) -> (r: String)
        ensures
            r@ == paths::join_path(
                artifacts_path(self.base_dir@),
                text::safe_name(job_name@) + ".tar.gz"@,
            ),
    {
        let mut name = safe_name_str(job_name);
        append_str(&mut name, ".tar.gz");
        join_path_str(self.artifacts_dir().as_str(), name.as_str())
    }

    /// The directory of a job's artifacts.
    pub fn job_artifact_dir(&self, job_name: &str) -> (r: String)
        ensures
            r@ == paths::join_path(artifacts_path(self.base_dir@), text::safe_name(job_name@)),
    {
        join_path_str(self.artifacts_dir().as_str(), safe_name_str(job_name).as_str())
    }

    /// The patterns of a job's artifacts, seen from a directory.
    pub fn artifact_patterns(&self, job: &Job, working_dir: &str) -> (r: Vec<String>)
        ensures
            r.deep_view() == artifact_patterns(working_dir@, job.deep_view().artifacts),
    {
        let ghost all = job.artifacts.deep_view();
        let mut out: Vec<String> = Vec::new();
        let mut i: usize = 0;
        assert(all.take(0) =~= Seq::<Seq<Seq<char>>>::empty());
        assert(out.deep_view() =~= artifact_patterns(working_dir@, all.take(0)));
        while i < job.artifacts.len()
            invariant
                all == job.artifacts.deep_view(),
                i <= job.artifacts@.len(),
                out.deep_view() == artifact_patterns(working_dir@, all.take(i as int)),
            decreases job.artifacts@.len() - i,
        {
            let entry = &job.artifacts[i].paths;
            let ghost before = out.deep_view();
            let ghost names = entry.deep_view();
            let ghost seen = seen_from(working_dir@, names);
            assert(all[i as int] == names);
            assert(all.take(i + 1).drop_last() =~= all.take(i as int));
            let mut k: usize = 0;
            assert(before + seen.take(0) =~= before);
            while k < entry.len()
                invariant
                    names == entry.deep_view(),
                    seen == seen_from(working_dir@, names),
                    k <= entry@.len(),
                    out.deep_view() == before + seen.take(k as int),
                decreases entry@.len() - k,
            {
                let ghost now = out.deep_view();
                assert(names[k as int] == entry@[k as int]@);
                let path = join_path_str(working_dir, entry[k].as_str());
                out.push(path);
                assert(out.deep_view() =~= now.push(path@));
                assert(out.deep_view() =~= before + seen.take(k + 1));
                k = k + 1;
            }
            assert(seen.take(seen.len() as int) =~= seen);
            i = i + 1;
        }
        assert(all.take(all.len() as int) =~= all);
        out
    }

    /// The files of a job's artifacts, given for each of its patterns the
    /// files that were found for it.
    pub fn collect_artifacts(&self, job: &Job, working_dir: &str, found: &Vec<Vec<String>>) -> (r: Vec<String>)
        requires
            found@.len() == artifact_patterns(working_dir@, job.deep_view().artifacts).len(),
        ensures
            r.deep_view() == flat(found.deep_view()),
    {
        let ghost all = found.deep_view();
        let mut out: Vec<String> = Vec::new();
        let mut i: usize = 0;
        assert(all.take(0) =~= Seq::<Seq<Seq<char>>>::empty());
        assert(out.deep_view() =~= flat(all.take(0)));
        while i < found.len()
            invariant
                all == found.deep_view(),
                i <= found@.len(),
                out.deep_view() == flat(all.take(i as int)),
            decreases found@.len() - i,
        {
            let list = &found[i];
            let ghost before = out.deep_view();
            let ghost names = list.deep_view();
            assert(all[i as int] == names);
            assert(all.take(i + 1).drop_last() =~= all.take(i as int));
            let mut k: usize = 0;
            assert(before + names.take(0) =~= before);
            while k < list.len()
                invariant
                    names == list.deep_view(),
                    k <= list@.len(),
                    out.deep_view() == before + names.take(k as int),
                decreases list@.len() - k,
            {
                let ghost now = out.deep_view();
                out.push(list[k].clone());
                assert(out.deep_view() =~= now.push(names[k as int]));
                assert(out.deep_view() =~= before + names.take(k + 1));
                k = k + 1;
            }
            assert(names.take(names.len() as int) =~= names);
            i = i + 1;
        }
        assert(all.take(all.len() as int) =~= all);
        out
    }

    /// The archive into which the files go, or `None` if there are none.
    pub fn package_path(&self, job: &Job, files: &Vec<String>) -> (r: Option<String>)
        ensures
            r.deep_view() == (if files@.len() == 0 {
                None
            } else {
                Some(
                    paths::join_path(
                        artifacts_path(self.base_dir@),
                        text::safe_name(job.name@) + ".tar.gz"@,
                    ),
                )
            }),
    {
        if files.len() == 0 {
            None
        } else {
            Some(self.job_artifact_path(job.name.as_str()))
        }
    }
}

// ---------------------------------------------------------------------------
// Patterns

/// What a character of a shell pattern is in a regular expression.
pub open spec fn regex_piece(c: char) -> Seq<char> {
    if c == '*' {
        ".*"@
    } else if c == '?' {
        "."@
    } else if c == '.' || c == '+' || c == '(' || c == ')' || c == '[' || c == ']' || c == '|' || c
        == '^' || c == '$' || c == '\\' {
        seq!['\\', c]
    } else {
        seq![c]
    }
}

/// The regular expression pieces of the characters.
pub open spec fn regex_pieces(s: Seq<char>) -> Seq<char>
    decreases s.len(),
{
    if s.len() == 0 {
        Seq::empty()
    } else {
        regex_pieces(s.drop_last()) + regex_piece(s.last())
    }
}

/// The regular expression that stands for a shell pattern.
pub open spec fn regex_of(s: Seq<char>) -> Seq<char> {
    "^"@ + regex_pieces(s) + "$"@
}

/// The regular expression that stands for a shell pattern.
pub fn glob_to_regex(pat: &str) -> (r: String)
    ensures
        r@ == regex_of(pat@),
{
    let v = to_chars(pat);
    let mut s = "^".to_owned();
    let mut i: usize = 0;
    assert(pat@.take(0) =~= Seq::<char>::empty());
    assert("^"@ + regex_pieces(pat@.take(0)) =~= "^"@);
    while i < v.len()
        invariant
            v@ == pat@,
            i <= v@.len(),
            s@ == "^"@ + regex_pieces(pat@.take(i as int)),
        decreases v@.len() - i,
    {
        let ghost before = s@;
        let c = v[i];
        assert(pat@.take(i + 1).drop_last() =~= pat@.take(i as int));
        if c == '*' {
            append_str(&mut s, ".*");
        } else if c == '?' {
            append_str(&mut s, ".");
        } else if c == '.' || c == '+' || c == '(' || c == ')' || c == '[' || c == ']' || c == '|'
            || c == '^' || c == '$' || c == '\\' {
            s.push('\\');
            s.push(c);
        } else {
            s.push(c);
        }
        assert(s@ =~= before + regex_piece(c));
        assert(s@ =~= "^"@ + regex_pieces(pat@.take(i + 1)));
        i = i + 1;
    }
    assert(pat@.take(pat@.len() as int) =~= pat@);
    append_str(&mut s, "$");
    s
}

/// A file found in a directory.
#[derive(Debug, Clone)]
pub struct FoundFile {
    pub name: String,
    pub path: String,
}

/// What is known of a file.
#[verifier::ext_equal]
pub struct FileModel {
    pub name: Seq<char>,
    pub path: Seq<char>,
}

impl DeepView for FoundFile {
    type V = FileModel;

    open spec fn deep_view(&self) -> FileModel {
        FileModel { name: self.name@, path: self.path@ }
    }
}

/// The paths of the files that were hit.
pub open spec fn hit_paths(files: Seq<FileModel>, hits: Seq<bool>) -> Seq<Seq<char>>
    decreases files.len(),
{
    if files.len() == 0 {
        Seq::empty()
    } else {
        let before = hit_paths(files.drop_last(), hits);
        if hits[files.len() - 1] {
            before.push(files.last().path)
        } else {
            before
        }
    }
}

/// A shell pattern that is at most some thousand characters long and counts few
/// repetitions in braces.
pub open spec fn plain_pattern(pat: Seq<char>) -> bool {
    pat.len() < 2500 && pattern::few_repeats(pat)
}

/// Whether `hits` tells of each of the files whether its name matches a shell
/// pattern. The expression of a pattern that is not plain may be refused for
/// the memory that it takes: there is then no hit.
pub open spec fn name_hits(pat: Seq<char>, files: Seq<FileModel>, hits: Seq<bool>) -> bool {
    &&& hits.len() == files.len()
    &&& {
        ||| forall|i: int|
            0 <= i < hits.len() ==> #[trigger] hits[i] == (pattern::regex_match(
                regex_of(pat),
                files[i].name,
            ) == Some(true))
        ||| !plain_pattern(pat) && !hits.contains(true)
    }
}

/// Whether these are the paths of the files whose names match a shell pattern.
pub open spec fn matched(pat: Seq<char>, files: Seq<FileModel>, found: Seq<Seq<char>>) -> bool {
    exists|hits: Seq<bool>|
        #[trigger] name_hits(pat, files, hits) && found == hit_paths(files, hits)
}

/// Whether `r` is what matches a shell pattern, or what a search gave where
/// nothing matches.
pub open spec fn matched_or(
    pat: Seq<char>,
    files: Seq<FileModel>,
    searched: Seq<Seq<char>>,
    r: Seq<Seq<char>>,
) -> bool {
    exists|found: Seq<Seq<char>>|
        #[trigger] matched(pat, files, found) && r == (if found.len() > 0 {
            found
        } else {
            searched
        })
}

proof fn lemma_flat_concat(a: Seq<char>, b: Seq<char>)
    requires
        pattern::flat(a),
        pattern::flat(b),
    ensures
        pattern::flat(a + b),
    decreases a.len(),
{
    if a.len() == 0 {
        assert(a + b =~= b);
    } else {
        assert((a + b)[0] == a[0]);
        assert(b.len() > 0 ==> b[0] != '*');
        if a.len() > 1 {
            assert((a + b)[1] == a[1]);
        } else if b.len() > 0 {
            assert((a + b)[1] == b[0]);
        }
        if a[0] == '\\' || (a[0] == '.' && a.len() > 1 && a[1] == '*') {
            lemma_flat_concat(a.skip(2), b);
            assert((a + b).skip(2) =~= a.skip(2) + b);
        } else {
            lemma_flat_concat(a.skip(1), b);
            assert((a + b).skip(1) =~= a.skip(1) + b);
        }
    }
}

/// The pieces behind a circumflex are flat and at most twice as long as the
/// pattern.
proof fn lemma_pieces_flat(pat: Seq<char>)
    ensures
        regex_pieces(pat).len() <= 2 * pat.len(),
        pattern::flat("^"@ + regex_pieces(pat)),
    decreases pat.len(),
{
    reveal_strlit("^");
    reveal_strlit(".*");
    reveal_strlit(".");
    let start = "^"@;
    reveal_with_fuel(pattern::flat, 3);
    if pat.len() == 0 {
        assert(start + regex_pieces(pat) =~= start);
        assert(start.skip(1) =~= Seq::<char>::empty());
    } else {
        let before = regex_pieces(pat.drop_last());
        let piece = regex_piece(pat.last());
        lemma_pieces_flat(pat.drop_last());
        assert(pattern::flat(piece)) by {
            if piece.len() == 2 {
                assert(piece.skip(2) =~= Seq::<char>::empty());
                assert(piece.skip(1).skip(1) =~= Seq::<char>::empty());
                assert(piece.skip(1)[0] == piece[1]);
            } else {
                assert(piece.skip(1) =~= Seq::<char>::empty());
            }
        }
        lemma_flat_concat(start + before, piece);
        assert(start + (before + piece) =~= (start + before) + piece);
    }
}

/// The pieces behind a circumflex have the braces and numbers of the pattern.
proof fn lemma_pieces_repeats(pat: Seq<char>)
    ensures
        ({
            let e = "^"@ + regex_pieces(pat);
            let n = pat.len() as int;
            &&& pattern::braces(e) == pattern::braces(pat)
            &&& e.last() == '}' <==> n > 0 && pat.last() == '}'
            &&& letters::ascii_digit(e.last()) <==> n > 0 && letters::ascii_digit(pat.last())
            &&& e.len() > 1 && letters::ascii_digit(e.last()) && letters::ascii_digit(e[e.len() - 2])
                ==> n > 1 && letters::ascii_digit(pat[n - 2])
            &&& pattern::unstacked(pat) ==> pattern::unstacked(e)
            &&& pattern::small_numbers(pat) ==> pattern::small_numbers(e)
        }),
    decreases pat.len(),
{
    reveal_strlit("^");
    reveal_strlit(".*");
    reveal_strlit(".");
    let start = "^"@;
    let e = start + regex_pieces(pat);
    if pat.len() == 0 {
        assert(e =~= start);
        assert(start.drop_last() =~= Seq::<char>::empty());
        reveal_with_fuel(pattern::braces, 2);
    } else {
        let d = pat.drop_last();
        let before = start + regex_pieces(d);
        let piece = regex_piece(pat.last());
        lemma_pieces_repeats(d);
        assert(e =~= before + piece);
        assert(before.len() >= 1);
        assert(before[before.len() - 1] == before.last());
        if piece.len() == 1 {
            assert(e =~= before.push(piece[0]));
            assert(e.drop_last() =~= before);
            assert(e[e.len() - 2] == before.last());
            if before.len() > 1 {
                assert(e[e.len() - 3] == before[before.len() - 2]);
            }
            if d.len() > 0 {
                assert(pat[pat.len() - 2] == d.last());
                if d.len() > 1 {
                    assert(pat[pat.len() - 3] == d[d.len() - 2]);
                }
            }
        } else {
            let middle = before.push(piece[0]);
            assert(e =~= middle.push(piece[1]));
            assert(e.drop_last() =~= middle);
            assert(middle.drop_last() =~= before);
            assert(e[e.len() - 2] == piece[0]);
            assert(middle[middle.len() - 2] == before.last());
            assert(pattern::braces(middle) == pattern::braces(before));
            assert(pattern::unstacked(before) ==> pattern::unstacked(middle));
            assert(pattern::small_numbers(before) ==> pattern::small_numbers(middle));
        }
    }
}

/// The expression of a plain pattern is light.
proof fn lemma_plain_is_light(pat: Seq<char>)
    requires
        plain_pattern(pat),
    ensures
        pattern::light(regex_of(pat)),
{
    reveal_strlit("^");
    reveal_strlit("$");
    lemma_pieces_flat(pat);
    lemma_pieces_repeats(pat);
    let e = "^"@ + regex_pieces(pat);
    let all = regex_of(pat);
    assert(all =~= e + "$"@);
    assert(pattern::flat("$"@)) by {
        reveal_with_fuel(pattern::flat, 2);
        assert("$"@.skip(1) =~= Seq::<char>::empty());
    }
    lemma_flat_concat(e, "$"@);
    assert(all.drop_last() =~= e);
    assert(all.last() == '$');
    assert(pattern::braces(all) == pattern::braces(e));
    assert(pattern::unstacked(e) ==> pattern::unstacked(all));
    assert(pattern::small_numbers(e) ==> pattern::small_numbers(all));
}

/// The paths of the files that were hit.
pub fn select_hits(files: &Vec<FoundFile>, hits: &Vec<bool>) -> (r: Vec<String>)
    requires
        hits@.len() == files@.len(),
    ensures
        r.deep_view() == hit_paths(files.deep_view(), hits@),
{
    let ghost all = files.deep_view();
    let mut out: Vec<String> = Vec::new();
    let mut i: usize = 0;
    assert(all.take(0) =~= Seq::<FileModel>::empty());
    assert(out.deep_view() =~= hit_paths(all.take(0), hits@));
    while i < files.len()
        invariant
            all == files.deep_view(),
            hits@.len() == files@.len(),
            i <= files@.len(),
            out.deep_view() == hit_paths(all.take(i as int), hits@),
        decreases files@.len() - i,
    {
        let ghost before = out.deep_view();
        assert(all[i as int] == files@[i as int].deep_view());
        assert(all.take(i + 1).drop_last() =~= all.take(i as int));
        if hits[i] {
            out.push(files[i].path.clone());
            assert(out.deep_view() =~= before.push(all[i as int].path));
        }
        i = i + 1;
    }
    assert(all.take(all.len() as int) =~= all);
    out
}

proof fn lemma_no_hits(files: Seq<FileModel>, hits: Seq<bool>)
    requires
        files.len() <= hits.len(),
        !hits.contains(true),
    ensures
        hit_paths(files, hits) == Seq::<Seq<char>>::empty(),
    decreases files.len(),
{
    if files.len() > 0 {
        lemma_no_hits(files.drop_last(), hits);
        assert(hits.contains(hits[files.len() - 1]));
    }
}

/// The paths of the files whose names match a shell pattern.
pub fn matching_files(pat: &str, files: &Vec<FoundFile>) -> (r: Vec<String>)
    ensures
        matched(pat@, files.deep_view(), r.deep_view()),
{
    let ghost all = files.deep_view();
    let expr = glob_to_regex(pat);
    let mut hits: Vec<bool> = Vec::new();
    let mut i: usize = 0;
    proof {
        if plain_pattern(pat@) {
            lemma_plain_is_light(pat@);
        }
    }
    while i < files.len()
        invariant
            all == files.deep_view(),
            expr@ == regex_of(pat@),
            plain_pattern(pat@) ==> pattern::light(expr@),
            i <= files@.len(),
            hits@.len() == i,
            forall|k: int|
                0 <= k < i ==> #[trigger] hits@[k] == (pattern::regex_match(
                    regex_of(pat@),
                    all[k].name,
                ) == Some(true)),
        decreases files@.len() - i,
    {
        assert(all[i as int] == files@[i as int].deep_view());
        match regex_matches(expr.as_str(), files[i].name.as_str()) {
            Some(hit) => {
                hits.push(hit);
            },
            None => {
                let none: Vec<String> = Vec::new();
                proof {
                    let missed = Seq::new(all.len(), |k: int| false);
                    lemma_no_hits(all, missed);
                    assert(none.deep_view() =~= hit_paths(all, missed));
                    assert(name_hits(pat@, all, missed));
                }
                return none;
            },
        }
        i = i + 1;
    }
    assert(name_hits(pat@, all, hits@));
    select_hits(files, &hits)
}

/// The files for a pattern: the pattern itself if it is the path of a file;
/// else those of its directory, if that exists, whose names match; and where
/// there are none, those that a search by the pattern gave.
pub fn glob_pattern(
    path: &str,
    exists: bool,
    dir_exists: bool,
    name: &str,
    walked: &Vec<FoundFile>,
    searched: &Vec<String>,
) -> (r: Vec<String>)
    ensures
        exists ==> r.deep_view() == seq![path@],
        !exists && !dir_exists ==> r.deep_view() == searched.deep_view(),
        !exists && dir_exists ==> matched_or(
            name@,
            walked.deep_view(),
            searched.deep_view(),
            r.deep_view(),
        ),
{
    if exists {
        let mut out: Vec<String> = Vec::new();
        out.push(path.to_owned());
        assert(out.deep_view() =~= seq![path@]);
        return out;
    }
    if dir_exists {
        let found = matching_files(name, walked);
        if found.len() > 0 {
            return found;
        }
    }
    searched.deep_clone()
}

// ---------------------------------------------------------------------------
// Caches

/// Where caches are kept, and for how many days.
#[derive(Debug, Clone)]
pub struct CacheManager {
    pub base_dir: String,
    pub ttl_days: i64,
}

/// The directory of the caches.
pub open spec fn cache_path(base: Seq<char>) -> Seq<char> {
    paths::ci_path(base, "cache"@)
}

/// The archive of a cache.
pub open spec fn cache_archive(base: Seq<char>, key: Seq<char>) -> Seq<char> {
    paths::join_path(cache_path(base), key + ".tar.gz"@)
}

/// The metadata of a cache.
pub open spec fn cache_metadata(base: Seq<char>, key: Seq<char>) -> Seq<char> {
    paths::join_path(cache_path(base), key + ".json"@)
}

/// The bytes of the texts one behind the other.
pub open spec fn all_bytes(texts: Seq<Seq<char>>) -> Seq<u8>
    decreases texts.len(),
{
    if texts.len() == 0 {
        Seq::empty()
    } else {
        all_bytes(texts.drop_last()) + encode_utf8(texts.last())
    }
}

/// The key of the cache of a job: its name and the first 16 digits of the hash
/// of its name and its cached paths in order.
pub open spec fn stable_key(job: Seq<char>, cached: Seq<Seq<char>>) -> Seq<char> {
    "cache-"@ + text::safe_name(job) + "-"@ + numbers::hex(
        digest::sha256(encode_utf8(job) + all_bytes(order::sort_texts(cached))),
    ).take(16)
}

/// A file that goes into a hash, with its content as far as it could be read.
#[derive(Debug, Clone)]
pub struct HashedFile {
    pub path: String,
    pub content: Option<Vec<u8>>,
}

/// The bytes of files that go into a hash.
pub open spec fn file_bytes(files: Seq<HashedFile>) -> Seq<u8>
    decreases files.len(),
{
    if files.len() == 0 {
        Seq::empty()
    } else {
        let f = files.last();
        file_bytes(files.drop_last()) + encode_utf8(f.path@) + (match f.content {
            Some(c) => c@,
            None => Seq::empty(),
        })
    }
}

/// Whether metadata tells of a cache that is older than `ttl` whole days.
/// Metadata that does not tell when the cache was made never does.
pub open spec fn expired(content: Seq<char>, now: Timestamp, ttl: i64) -> bool {
    match digest::json_field(content, "created_at"@) {
        Some(created) => match clock::rfc3339(created) {
            Some(t) => clock::days_between((t.0 as int, t.1 as int), now.instant()) > ttl,
            None => false,
        },
        None => false,
    }
}

/// The metadata of a cache that is new: its key, when it was made, and the
/// paths that it holds.
pub open spec fn new_cache_metadata(
    key: Seq<char>,
    created: Seq<char>,
    cached: Seq<Seq<char>>,
) -> Seq<char> {
    digest::json_object(
        seq![("key"@, key), ("created_at"@, created)],
        seq![("paths"@, cached)],
        seq![],
    )
}

fn append_bytes(out: &mut Vec<u8>, bytes: &[u8])
    ensures
        final(out)@ == old(out)@ + bytes@,
{
    let ghost start = out@;
    let mut i: usize = 0;
    assert(start + bytes@.take(0) =~= start);
    while i < bytes.len()
        invariant
            i <= bytes@.len(),
            out@ == start + bytes@.take(i as int),
        decreases bytes@.len() - i,
    {
        out.push(bytes[i]);
        assert(out@ =~= start + bytes@.take(i + 1));
        i = i + 1;
    }
    assert(bytes@.take(bytes@.len() as int) =~= bytes@);
}

/// Whether a cache made at the given instant is older than `ttl` whole days.
pub fn too_old(created_secs: i64, created_nanos: u32, now: Timestamp, ttl: i64) -> (r: bool)
    ensures
        r == (clock::days_between((created_secs as int, created_nanos as int), now.instant()) > ttl),
{
    days_between_of(created_secs, created_nanos, now.secs, now.nanos) > ttl as i128
}

/// Whether metadata tells of a cache that is older than `ttl` whole days.
pub fn is_expired(content: &str, now: Timestamp, ttl: i64) -> (r: bool)
    ensures
        r == expired(content@, now, ttl),
{
    match json_field_of(content, "created_at") {
        Some(created) => match parse_rfc3339(created.as_str()) {
            Some((secs, nanos)) => too_old(secs, nanos, now, ttl),
            None => false,
        },
        None => false,
    }
}

/// What to do with a metadata file when caches are cleaned up.
#[derive(Debug, Clone)]
pub enum Cleanup {
    /// The cache is kept.
    Keep,
    /// The metadata file goes, and the archive too if the metadata name it.
    Remove(Option<String>),
}

impl CacheManager {
    /// A manager that keeps caches under the given directory for so many days.
    pub fn new(base_dir: &str, ttl_days: i64) -> (r: CacheManager)
        ensures
            r.base_dir@ == base_dir@,
            r.ttl_days == ttl_days,
    {
        CacheManager { base_dir: base_dir.to_owned(), ttl_days }
    }

    /// The directory of the caches.
    pub fn cache_dir(&self) -> (r: String)
        ensures
            r@ == cache_path(self.base_dir@),
    {
        ci_path_str(self.base_dir.as_str(), "cache")
    }

    /// The key of the cache that holds the given files, in their order.
    pub fn compute_cache_key(&self, files: &Vec<HashedFile>) -> (r: String)
        ensures
            r@ == numbers::hex(digest::sha256(file_bytes(files@))),
    {
        let mut bytes: Vec<u8> = Vec::new();
        let mut i: usize = 0;
        assert(files@.take(0) =~= Seq::<HashedFile>::empty());
        assert(bytes@ =~= file_bytes(files@.take(0)));
        while i < files.len()
            invariant
                i <= files@.len(),
                bytes@ == file_bytes(files@.take(i as int)),
            decreases files@.len() - i,
        {
            assert(files@.take(i + 1).drop_last() =~= files@.take(i as int));
            append_bytes(&mut bytes, files[i].path.as_str().as_bytes());
            if let Some(content) = &files[i].content {
                append_bytes(&mut bytes, content.as_slice());
            }
            assert(bytes@ =~= file_bytes(files@.take(i + 1)));
            i = i + 1;
        }
        assert(files@.take(files@.len() as int) =~= files@);
        hex_str(sha256_of(bytes.as_slice()).as_slice())
    }

    /// The key of the cache of a job.
    pub fn compute_stable_cache_key(&self, job_name: &str, cached: &Vec<String>) -> (r: String)
        ensures
            r@ == stable_key(job_name@, cached.deep_view()),
    {
        let sorted = sort_strings(cached);
        let ghost all = sorted.deep_view();
        let mut bytes: Vec<u8> = Vec::new();
        append_bytes(&mut bytes, job_name.as_bytes());
        assert(bytes@ =~= encode_utf8(job_name@));
        let mut i: usize = 0;
        assert(all.take(0) =~= Seq::<Seq<char>>::empty());
        assert(bytes@ =~= encode_utf8(job_name@) + all_bytes(all.take(0)));
        while i < sorted.len()
            invariant
                all == sorted.deep_view(),
                i <= sorted@.len(),
                bytes@ == encode_utf8(job_name@) + all_bytes(all.take(i as int)),
            decreases sorted@.len() - i,
        {
            assert(all[i as int] == sorted@[i as int]@);
            assert(all.take(i + 1).drop_last() =~= all.take(i as int));
            append_bytes(&mut bytes, sorted[i].as_str().as_bytes());
            assert(bytes@ =~= encode_utf8(job_name@) + all_bytes(all.take(i + 1)));
            i = i + 1;
        }
        assert(all.take(all.len() as int) =~= all);
        let hash = sha256_of(bytes.as_slice());
        let full = to_chars(hex_str(hash.as_slice()).as_str());
        proof {
            numbers::lemma_hex_len(hash@);
        }
        let head = vstd::slice::slice_subrange(full.as_slice(), 0, 16);
        assert(head@ =~= full@.take(16));
        let mut s = "cache-".to_owned();
        append_str(&mut s, safe_name_str(job_name).as_str());
        append_str(&mut s, "-");
        append_str(&mut s, from_chars(head).as_str());
        s
    }

    /// The archive of a cache.
    pub fn cache_entry_path(&self, cache_key: &str) -> (r: String)
        ensures
            r@ == cache_archive(self.base_dir@, cache_key@),
    {
        let mut name = cache_key.to_owned();
        append_str(&mut name, ".tar.gz");
        join_path_str(self.cache_dir().as_str(), name.as_str())
    }

    /// The metadata of a cache.
    pub fn cache_metadata_path(&self, cache_key: &str) -> (r: String)
        ensures
            r@ == cache_metadata(self.base_dir@, cache_key@),
    {
        let mut name = cache_key.to_owned();
        append_str(&mut name, ".json");
        join_path_str(self.cache_dir().as_str(), name.as_str())
    }

    /// The metadata of a cache that was made at the given instant; `None` if
    /// that has no notation. The age of the cache is counted from that instant,
    /// in the years of four digits, and cleaning up finds its archive.
    pub fn metadata_of(&self, cache_key: &str, paths: &Vec<String>, created: &Timestamp) -> (r: Option<
        String,
    >)
        ensures
            r.deep_view() == (match clock::rfc3339_text(created.secs, created.nanos, created.offset) {
                Some(made) => Some(new_cache_metadata(cache_key@, made, paths.deep_view())),
                None => None,
            }),
            clock::in_four_digit_years(*created) && created.nanos < 1_000_000_000 ==> r is Some,
            r matches Some(t) ==> {
                &&& digest::json_field(t@, "key"@) == Some(cache_key@)
                &&& clock::in_four_digit_years(*created) ==> forall|now: Timestamp, ttl: i64| #[trigger]
                    expired(t@, now, ttl) == (clock::days_between(created.instant(), now.instant())
                        > ttl)
            },
    {
        let made = match created.to_rfc3339() {
            Some(s) => s,
            None => {
                return None;
            },
        };
        let mut texts: Vec<(String, String)> = Vec::new();
        texts.push(("key".to_owned(), cache_key.to_owned()));
        texts.push(("created_at".to_owned(), made));
        let mut lists: Vec<(String, Vec<String>)> = Vec::new();
        lists.push(("paths".to_owned(), paths.deep_clone()));
        let numbers: Vec<(String, u64)> = Vec::new();
        proof {
            reveal_strlit("key");
            reveal_strlit("created_at");
            reveal_strlit("paths");
        }
        let ghost keys = digest::all_keys(
            texts.deep_view(),
            lists.deep_view(),
            numbers.deep_view(),
        );
        assert(keys =~= seq!["key"@, "created_at"@, "paths"@]);
        assert(digest::clear_keys(keys)) by {
            assert(keys[0].len() == 3 && keys[1].len() == 10 && keys[2].len() == 5);
        }
        let r = json_object_of(&texts, &lists, &numbers);
        assert(texts@[0].0@ == "key"@);
        assert(texts@[1].0@ == "created_at"@);
        assert(texts.deep_view() =~= seq![("key"@, cache_key@), ("created_at"@, made@)]);
        assert(lists.deep_view() =~= seq![("paths"@, paths.deep_view())]);
        assert(numbers.deep_view() =~= seq![]);
        Some(r)
    }

    /// Whether a cache is too old to be used, given its metadata if there are
    /// any that could be read.
    pub fn is_stale(&self, metadata: &Option<String>, now: Timestamp) -> (r: bool)
        ensures
            r == (metadata matches Some(content) && expired(content@, now, self.ttl_days)),
    {
        match metadata {
            Some(content) => is_expired(content.as_str(), now, self.ttl_days),
            None => false,
        }
    }

    /// What to do with a file of the cache directory when caches are cleaned
    /// up.
    pub fn cleanup_of(&self, file_name: &str, content: &str, now: Timestamp) -> (r: Cleanup)
        ensures
            match r {
                Cleanup::Keep => !(text::ends_with(file_name@, ".json"@) && expired(
                    content@,
                    now,
                    self.ttl_days,
                )),
                Cleanup::Remove(archive) => {
                    &&& text::ends_with(file_name@, ".json"@)
                    &&& expired(content@, now, self.ttl_days)
                    &&& archive.deep_view() == (match digest::json_field(content@, "key"@) {
                        Some(key) => Some(cache_archive(self.base_dir@, key)),
                        None => None,
                    })
                },
            },
    {
        if !ends_with_str(file_name, ".json") || !is_expired(content, now, self.ttl_days) {
            return Cleanup::Keep;
        }
        match json_field_of(content, "key") {
            Some(key) => Cleanup::Remove(Some(self.cache_entry_path(key.as_str()))),
            None => Cleanup::Remove(None),
        }
    }
}

/// The hash of a file's content.
pub fn compute_file_hash(content: &[u8]) -> (r: String)
    ensures
        r@ == numbers::hex(digest::sha256(content@)),
{
    hex_str(sha256_of(content).as_slice())
}

// ---------------------------------------------------------------------------
// Laws

/// The key of the cache of a job does not depend on the order in which its
/// cached paths are named.
pub proof fn lemma_stable_key_ignores_order(job: Seq<char>, a: Seq<Seq<char>>, b: Seq<Seq<char>>)
    requires
        a.to_multiset() == b.to_multiset(),
    ensures
        stable_key(job, a) == stable_key(job, b),
{
    order::lemma_sort_ignores_order(a, b);
}

/// A cache that is too old for some number of days is too old for any smaller
/// number.
pub proof fn lemma_expired_monotonic(content: Seq<char>, now: Timestamp, short: i64, long: i64)
    requires
        short <= long,
        expired(content, now, long),
    ensures
        expired(content, now, short),
{
}

/// A pattern becomes an expression character by character: a star stands for
/// any text, a question mark for any character, and what has a meaning in an
/// expression is escaped.
pub proof fn lemma_regex_by_char(a: Seq<char>, b: Seq<char>, c: char)
    ensures
        regex_pieces(a + b) == regex_pieces(a) + regex_pieces(b),
        regex_of(a) == "^"@ + regex_pieces(a) + "$"@,
        regex_pieces(seq!['*']) == seq!['.', '*'],
        regex_pieces(seq!['?']) == seq!['.'],
        regex_pieces(seq!['.']) == seq!['\\', '.'],
        letters::ascii_letter(c) || letters::ascii_digit(c) || c == '/' || c == '-' || c == '_'
            ==> regex_pieces(seq![c]) == seq![c],
        c == '+' || c == '(' || c == ')' || c == '[' || c == ']' || c == '|' || c == '^' || c == '$' || c
            == '\\' ==> regex_pieces(seq![c]) == seq!['\\', c],
    decreases b.len(),
{
    reveal_strlit(".*");
    reveal_strlit(".");
    let none = Seq::<char>::empty();
    assert(seq!['*'].drop_last() =~= none);
    assert(seq!['?'].drop_last() =~= none);
    assert(seq!['.'].drop_last() =~= none);
    assert(seq![c].drop_last() =~= none);
    assert(regex_pieces(none) =~= none);
    assert(regex_pieces(seq!['*']) =~= seq!['.', '*']);
    assert(regex_pieces(seq!['?']) =~= seq!['.']);
    assert(regex_pieces(seq!['.']) =~= seq!['\\', '.']);
    assert(regex_pieces(seq![c]) =~= regex_piece(c));
    if b.len() == 0 {
        assert(a + b =~= a);
        assert(regex_pieces(a) + regex_pieces(b) =~= regex_pieces(a));
    } else {
        lemma_regex_by_char(a, b.drop_last(), c);
        assert((a + b).drop_last() =~= a + b.drop_last());
        assert((a + b).last() == b.last());
        assert(regex_pieces(a + b) =~= regex_pieces(a) + regex_pieces(b));
    }
}

/// The files that are found are exactly those that were hit.
pub proof fn lemma_hit_files_found(files: Seq<FileModel>, hits: Seq<bool>, path: Seq<char>)
    requires
        hits.len() == files.len(),
    ensures
        hit_paths(files, hits).contains(path) <==> exists|i: int|
            0 <= i < files.len() && hits[i] && (#[trigger] files[i]).path == path,
        !hits.contains(false) ==> hit_paths(files, hits).len() == files.len(),
        !hits.contains(true) ==> hit_paths(files, hits).len() == 0,
{
    lemma_hit_some(files, hits, files.len() as int, path);
    assert(files.take(files.len() as int) =~= files);
}

proof fn lemma_hit_some(files: Seq<FileModel>, hits: Seq<bool>, n: int, path: Seq<char>)
    requires
        0 <= n <= files.len() == hits.len(),
    ensures
        hit_paths(files.take(n), hits).contains(path) <==> exists|i: int|
            0 <= i < n && hits[i] && (#[trigger] files[i]).path == path,
        !hits.contains(false) ==> hit_paths(files.take(n), hits).len() == n,
        !hits.contains(true) ==> hit_paths(files.take(n), hits).len() == 0,
    decreases n,
{
    if n > 0 {
        let part = files.take(n);
        assert(part.drop_last() =~= files.take(n - 1));
        lemma_hit_some(files, hits, n - 1, path);
        let before = hit_paths(files.take(n - 1), hits);
        let all = hit_paths(part, hits);
        assert(hits.contains(hits[n - 1]));
        assert(part.last() == files[n - 1]);
        if before.contains(path) {
            let k = before.index_of(path);
            assert(all[k] == path);
        }
        if hits[n - 1] {
            assert(all[all.len() - 1] == files[n - 1].path);
        }
        if all.contains(path) && !before.contains(path) {
            let k = all.index_of(path);
            if k < before.len() {
                assert(before[k] == path);
            }
            assert(files[n - 1].path == path);
        }
    }
}

proof fn lemma_added_holds<A>(a: Seq<A>, b: Seq<A>, x: A)
    ensures
        (a + b).contains(x) <==> a.contains(x) || b.contains(x),
{
    if a.contains(x) {
        assert((a + b)[a.index_of(x)] == x);
    }
    if b.contains(x) {
        assert((a + b)[a.len() + b.index_of(x)] == x);
    }
    if (a + b).contains(x) {
        let i = (a + b).index_of(x);
        if i < a.len() {
            assert(a[i] == x);
        } else {
            assert(b[i - a.len()] == x);
        }
    }
}

/// The patterns of all artifacts are looked for, each from the working
/// directory.
pub proof fn lemma_all_patterns_sought(dir: Seq<char>, artifacts: Seq<Seq<Seq<char>>>, i: int, k: int)
    requires
        0 <= i < artifacts.len(),
        0 <= k < artifacts[i].len(),
    ensures
        artifact_patterns(dir, artifacts).contains(paths::join_path(dir, artifacts[i][k])),
    decreases artifacts.len(),
{
    let x = paths::join_path(dir, artifacts[i][k]);
    let before = artifact_patterns(dir, artifacts.drop_last());
    let last = seen_from(dir, artifacts.last());
    if i < artifacts.len() - 1 {
        lemma_all_patterns_sought(dir, artifacts.drop_last(), i, k);
    } else {
        assert(last[k] == x);
    }
    lemma_added_holds(before, last, x);
}

/// Lists one behind the other hold what each of them holds.
pub proof fn lemma_flat_holds_all(lists: Seq<Seq<Seq<char>>>, x: Seq<char>)
    ensures
        flat(lists).contains(x) <==> exists|i: int|
            0 <= i < lists.len() && (#[trigger] lists[i]).contains(x),
    decreases lists.len(),
{
    if lists.len() > 0 {
        let d = lists.drop_last();
        lemma_flat_holds_all(d, x);
        lemma_added_holds(flat(d), lists.last(), x);
        if flat(d).contains(x) {
            let i = choose|i: int| 0 <= i < d.len() && (#[trigger] d[i]).contains(x);
            assert(lists[i] == d[i]);
        }
        assert(lists[lists.len() - 1] == lists.last());
        if exists|i: int| 0 <= i < lists.len() && (#[trigger] lists[i]).contains(x) {
            let i = choose|i: int| 0 <= i < lists.len() && (#[trigger] lists[i]).contains(x);
            if i < d.len() {
                assert(d[i].contains(x));
            }
        }
    }
}

/// The archive and the metadata of a cache lie in the cache directory, under
/// its key, with different endings.
pub proof fn lemma_cache_files(base: Seq<char>, key: Seq<char>)
    requires
        base.len() > 0,
        base.last() != '/',
        key.len() > 0,
        key[0] != '/',
    ensures
        cache_archive(base, key) == base + "/.ci/cache/"@ + key + ".tar.gz"@,
        cache_metadata(base, key) == base + "/.ci/cache/"@ + key + ".json"@,
        artifacts_path(base) == base + "/.ci/artifacts"@,
{
    reveal_strlit("/");
    reveal_strlit("cache");
    reveal_strlit("artifacts");
    reveal_strlit("/.ci/");
    reveal_strlit("/.ci/cache/");
    reveal_strlit("/.ci/artifacts");
    paths::lemma_ci_path(base, "cache"@);
    paths::lemma_ci_path(base, "artifacts"@);
    let dir = base + "/.ci/"@ + "cache"@;
    assert(dir.last() == 'e');
    let a = key + ".tar.gz"@;
    let b = key + ".json"@;
    assert(a[0] == key[0] && b[0] == key[0]);
    paths::lemma_join_relative(dir, a);
    paths::lemma_join_relative(dir, b);
    assert(dir + "/"@ + a =~= base + "/.ci/cache/"@ + key + ".tar.gz"@);
    assert(dir + "/"@ + b =~= base + "/.ci/cache/"@ + key + ".json"@);
    assert(base + "/.ci/"@ + "artifacts"@ =~= base + "/.ci/artifacts"@);
}

/// The key of a job's cache begins with its name, made safe, and ends with
/// sixteen digits.
pub proof fn lemma_stable_key_form(job: Seq<char>, cached: Seq<Seq<char>>)
    requires
        numbers::hex(
            digest::sha256(encode_utf8(job) + all_bytes(order::sort_texts(cached))),
        ).len() >= 16,
    ensures
        stable_key(job, cached).len() == 7 + job.len() + 16,
        stable_key(job, cached).take(7 + job.len() as int) == "cache-"@ + text::safe_name(job) + "-"@,
{
    reveal_strlit("cache-");
    reveal_strlit("-");
    text::lemma_safe_name(job);
    assert(stable_key(job, cached).take(7 + job.len() as int) =~= "cache-"@ + text::safe_name(job)
        + "-"@);
}

/// What goes into a hash is the path and the content of each file, in their
/// order; a file that cannot be read goes in with its path alone.
pub proof fn lemma_file_bytes_in_turn(files: Seq<HashedFile>, f: HashedFile)
    ensures
        f.content is None ==> file_bytes(files.push(f)) == file_bytes(files) + encode_utf8(f.path@),
        f.content matches Some(c) ==> file_bytes(files.push(f)) == file_bytes(files) + encode_utf8(
            f.path@,
        ) + c@,
{
    assert(files.push(f).drop_last() =~= files);
    if f.content is None {
        assert(file_bytes(files) + encode_utf8(f.path@) + Seq::<u8>::empty() =~= file_bytes(files)
            + encode_utf8(f.path@));
    }
}

/// A cache has expired exactly if it was made more than so many whole days ago.
pub proof fn lemma_expired_by_age(
    content: Seq<char>,
    created: Seq<char>,
    t: (i64, u32),
    now: Timestamp,
    ttl: i64,
)
    requires
        digest::json_field(content, "created_at"@) == Some(created),
        clock::rfc3339(created) == Some(t),
        t.1 == 0,
        now.nanos == 0,
        t.0 <= now.secs,
    ensures
        expired(content, now, ttl) <==> (now.secs - t.0) / 86400 > ttl,
{
    let n = clock::nanos_between((t.0 as int, t.1 as int), now.instant());
    assert(n == (now.secs - t.0) * 1_000_000_000);
    assert(n / 1_000_000_000 == now.secs - t.0);
}

/// A cache that does not tell when it was made does not expire.
pub proof fn lemma_undated_cache_stays(content: Seq<char>, now: Timestamp, ttl: i64)
    requires
        digest::json_field(content, "created_at"@) is None,
    ensures
        !expired(content, now, ttl),
{
}

/// With a plain pattern, the files that are found are exactly those whose names
/// match it; where there are none, those that were searched out otherwise take
/// their place.
pub proof fn lemma_matched_files(
    pat: Seq<char>,
    files: Seq<FileModel>,
    searched: Seq<Seq<char>>,
    r: Seq<Seq<char>>,
    path: Seq<char>,
)
    requires
        plain_pattern(pat),
        matched_or(pat, files, searched, r),
    ensures
        (exists|i: int|
            0 <= i < files.len() && pattern::regex_match(regex_of(pat), (#[trigger] files[i]).name)
                == Some(true)) ==> (r.contains(path) <==> exists|i: int|
            0 <= i < files.len() && pattern::regex_match(regex_of(pat), (#[trigger] files[i]).name)
                == Some(true) && files[i].path == path),
        (forall|i: int|
            0 <= i < files.len() ==> pattern::regex_match(regex_of(pat), (#[trigger] files[i]).name)
                != Some(true)) ==> r == searched,
{
    let found = choose|found: Seq<Seq<char>>|
        #[trigger] matched(pat, files, found) && r == (if found.len() > 0 {
            found
        } else {
            searched
        });
    let hits = choose|hits: Seq<bool>|
        #[trigger] name_hits(pat, files, hits) && found == hit_paths(files, hits);
    lemma_hit_files_found(files, hits, path);
    if exists|i: int|
        0 <= i < files.len() && pattern::regex_match(regex_of(pat), (#[trigger] files[i]).name) == Some(
            true,
        ) {
        let i = choose|i: int|
            0 <= i < files.len() && pattern::regex_match(regex_of(pat), (#[trigger] files[i]).name)
                == Some(true);
        assert(hits[i]);
        lemma_hit_files_found(files, hits, files[i].path);
        assert(found.contains(files[i].path));
        assert(found.len() > 0);
        if found.contains(path) {
            let k = choose|k: int|
                0 <= k < files.len() && hits[k] && (#[trigger] files[k]).path == path;
            assert(pattern::regex_match(regex_of(pat), files[k].name) == Some(true));
        }
        if exists|k: int|
            0 <= k < files.len() && pattern::regex_match(regex_of(pat), (#[trigger] files[k]).name)
                == Some(true) && files[k].path == path {
            let k = choose|k: int|
                0 <= k < files.len() && pattern::regex_match(regex_of(pat), (#[trigger] files[k]).name)
                    == Some(true) && files[k].path == path;
            assert(hits[k]);
        }
    } else {
        assert(!hits.contains(true)) by {
            if hits.contains(true) {
                let k = hits.index_of(true);
                assert(hits[k]);
                assert(pattern::regex_match(regex_of(pat), files[k].name) == Some(true));
            }
        }
    }
}

/// The digits of the key of a job's cache are those of the hash of its name and
/// of what it caches, one path behind the other.
pub proof fn lemma_stable_key_hash(job: Seq<char>, texts: Seq<Seq<char>>, path: Seq<char>)
    requires
        numbers::hex(digest::sha256(encode_utf8(job) + encode_utf8(path))).len() >= 16,
    ensures
        all_bytes(texts.push(path)) == all_bytes(texts) + encode_utf8(path),
        stable_key(job, seq![path]).skip(7 + job.len() as int) == numbers::hex(
            digest::sha256(encode_utf8(job) + encode_utf8(path)),
        ).take(16),
{
    reveal_strlit("cache-");
    reveal_strlit("-");
    assert(texts.push(path).drop_last() =~= texts);
    text::lemma_safe_name(job);
    order::lemma_sort_one(path);
    assert(seq![path].drop_last() =~= Seq::<Seq<char>>::empty());
    assert(all_bytes(Seq::<Seq<char>>::empty()) =~= Seq::<u8>::empty());
    assert(all_bytes(seq![path]) =~= encode_utf8(path));
    let h = numbers::hex(digest::sha256(encode_utf8(job) + encode_utf8(path))).take(16);
    assert(stable_key(job, seq![path]).skip(7 + job.len() as int) =~= h);
}

} // verus!
