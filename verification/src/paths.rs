//! Paths with `/` between their components.
use vstd::prelude::*;

use crate::order;
use crate::order::str_le;
use crate::text;
use crate::text::{append_str, ends_with_str, join_strs, split_str, starts_with_str, str_eq};

verus! {

/// The path of `rel` seen from `base`: `rel` itself if it begins at the root,
/// else `base` and `rel` with one `/` between them, unless `base` is empty or
/// ends in one.
pub open spec fn join_path(base: Seq<char>, rel: Seq<char>) -> Seq<char> {
    if text::starts_with(rel, "/"@) {
        rel
    } else if base.len() == 0 || text::ends_with(base, "/"@) {
        base + rel
    } else {
        base + "/"@ + rel
    }
}

/// The path of `rel` seen from `base`.
pub fn join_path_str(base: &str, rel: &str) -> (r: String)
    ensures
        r@ == join_path(base@, rel@),
{
    if starts_with_str(rel, "/") {
        return rel.to_owned();
    }
    let mut s = base.to_owned();
    if !base.is_empty() && !ends_with_str(base, "/") {
        append_str(&mut s, "/");
    }
    append_str(&mut s, rel);
    s
}

/// The directory in which a run keeps its files.
pub open spec fn ci_dir(base: Seq<char>) -> Seq<char> {
    join_path(base, ".ci"@)
}

/// The path of something that a run keeps.
pub open spec fn ci_path(base: Seq<char>, name: Seq<char>) -> Seq<char> {
    join_path(ci_dir(base), name)
}

/// The directory in which a run keeps its files.
pub fn ci_dir_str(base: &str) -> (r: String)
    ensures
        r@ == ci_dir(base@),
{
    join_path_str(base, ".ci")
}

/// The path of something that a run keeps.
pub fn ci_path_str(base: &str, name: &str) -> (r: String)
    ensures
        r@ == ci_path(base@, name@),
{
    join_path_str(ci_dir_str(base).as_str(), name)
}

// ---------------------------------------------------------------------------
// Components

/// Whether a piece of a path counts as a component: it is not empty, and it is
/// not `.` unless the path begins with it.
pub open spec fn counts(piece: Seq<char>, first: bool) -> bool {
    piece.len() > 0 && (piece != "."@ || first)
}

/// The first `n` pieces, without those that do not count.
pub open spec fn counting(pieces: Seq<Seq<char>>, n: int) -> Seq<Seq<char>>
    decreases n,
{
    if n <= 0 {
        Seq::empty()
    } else if counts(pieces[n - 1], n == 1) {
        counting(pieces, n - 1).push(pieces[n - 1])
    } else {
        counting(pieces, n - 1)
    }
}

/// The components of a path: `/` if it begins at the root, then the pieces
/// between slashes that count.
pub open spec fn components(path: Seq<char>) -> Seq<Seq<char>> {
    let pieces = text::split(path, '/');
    (if text::starts_with(path, "/"@) {
        seq!["/"@]
    } else {
        Seq::empty()
    }) + counting(pieces, pieces.len() as int)
}

/// The components of a path.
pub fn components_of(path: &str) -> (r: Vec<String>)
    ensures
        r.deep_view() == components(path@),
{
    let pieces = split_str(path, '/');
    let ghost all = text::split(path@, '/');
    let mut out: Vec<String> = Vec::new();
    if starts_with_str(path, "/") {
        out.push("/".to_owned());
        assert(out.deep_view() =~= seq!["/"@]);
    }
    let ghost head = out.deep_view();
    let mut i: usize = 0;
    assert(out.deep_view() =~= head + counting(all, 0));
    while i < pieces.len()
        invariant
            all == pieces.deep_view(),
            i <= pieces@.len(),
            out.deep_view() == head + counting(all, i as int),
        decreases pieces@.len() - i,
    {
        let ghost before = out.deep_view();
        assert(all[i as int] == pieces@[i as int]@);
        if !pieces[i].as_str().is_empty() && (i == 0 || !str_eq(pieces[i].as_str(), ".")) {
            out.push(pieces[i].clone());
            assert(out.deep_view() =~= before.push(all[i as int]));
        }
        assert(out.deep_view() =~= head + counting(all, i + 1));
        i = i + 1;
    }
    assert(head =~= if text::starts_with(path@, "/"@) {
        seq!["/"@]
    } else {
        Seq::empty()
    });
    out
}

/// The path that has the given components.
pub open spec fn path_of(parts: Seq<Seq<char>>) -> Seq<char> {
    if parts.len() > 0 && parts[0] == "/"@ {
        "/"@ + text::join(parts.skip(1), "/"@)
    } else {
        text::join(parts, "/"@)
    }
}

/// Whether a component is a name: neither `/` nor `.` nor `..`.
pub open spec fn is_name(part: Seq<char>) -> bool {
    part != "/"@ && part != "."@ && part != ".."@
}

/// The path under which a file goes into an archive: what is left of its path
/// behind the directory; its name if it lies elsewhere; and its whole path if
/// that does not end in a name.
pub open spec fn archived(path: Seq<char>, dir: Seq<char>) -> Seq<char> {
    let parts = components(path);
    let base = components(dir);
    if base.is_prefix_of(parts) {
        path_of(parts.skip(base.len() as int))
    } else if parts.len() > 0 && is_name(parts.last()) {
        parts.last()
    } else {
        path
    }
}

fn path_of_strs(parts: &Vec<String>, start: usize) -> (r: String)
    requires
        start <= parts@.len(),
    ensures
        r@ == path_of(parts.deep_view().skip(start as int)),
{
    let ghost all = parts.deep_view().skip(start as int);
    let rooted = start < parts.len() && str_eq(parts[start].as_str(), "/");
    let mut from: usize = start;
    let mut out = String::new();
    if rooted {
        append_str(&mut out, "/");
        from = start + 1;
    }
    let mut rest: Vec<String> = Vec::new();
    let mut i: usize = from;
    while i < parts.len()
        invariant
            from <= i <= parts@.len(),
            rest.deep_view() == parts.deep_view().subrange(from as int, i as int),
        decreases parts@.len() - i,
    {
        let ghost before = rest.deep_view();
        rest.push(parts[i].clone());
        assert(rest.deep_view() =~= before.push(parts@[i as int]@));
        assert(parts.deep_view().subrange(from as int, i + 1) =~= parts.deep_view().subrange(
            from as int,
            i as int,
        ).push(parts@[i as int]@));
        i = i + 1;
    }
    assert(rest.deep_view() =~= if rooted {
        all.skip(1)
    } else {
        all
    });
    assert(start < parts@.len() ==> all[0] == parts@[start as int]@);
    append_str(&mut out, join_strs(&rest, "/").as_str());
    assert(out@ =~= path_of(all));
    out
}

/// The path under which a file goes into an archive of a directory.
pub fn archived_name(path: &str, dir: &str) -> (r: String)
    ensures
        r@ == archived(path@, dir@),
{
    let parts = components_of(path);
    let base = components_of(dir);
    let ghost p = parts.deep_view();
    let ghost b = base.deep_view();
    let mut same: usize = 0;
    while same < base.len() && same < parts.len() && str_eq(base[same].as_str(), parts[same].as_str())
        invariant
            p == parts.deep_view(),
            b == base.deep_view(),
            same <= base@.len(),
            same <= parts@.len(),
            forall|k: int| 0 <= k < same ==> #[trigger] b[k] == p[k],
        decreases base@.len() - same,
    {
        assert(b[same as int] == base@[same as int]@);
        assert(p[same as int] == parts@[same as int]@);
        same = same + 1;
    }
    if same == base.len() {
        assert(b =~= p.take(b.len() as int));
        assert(b.is_prefix_of(p));
        return path_of_strs(&parts, same);
    }
    assert(!b.is_prefix_of(p)) by {
        if b.is_prefix_of(p) {
            assert(b[same as int] == p.take(b.len() as int)[same as int]);
            assert(b[same as int] == base@[same as int]@);
            assert(p[same as int] == parts@[same as int]@);
        }
    }
    if parts.len() > 0 {
        let last = &parts[parts.len() - 1];
        assert(p.last() == last@);
        if !str_eq(last.as_str(), "/") && !str_eq(last.as_str(), ".") && !str_eq(last.as_str(), "..") {
            return last.clone();
        }
    }
    path.to_owned()
}

// ---------------------------------------------------------------------------
// Order

/// The place of a component among the others: the root comes first, then `.`,
/// `..` and names.
pub open spec fn class(part: Seq<char>) -> int {
    if part == "/"@ {
        0
    } else if part == "."@ {
        1
    } else if part == ".."@ {
        2
    } else {
        3
    }
}

/// Whether a component comes before another, or equals it.
pub open spec fn part_le(a: Seq<char>, b: Seq<char>) -> bool {
    class(a) < class(b) || (class(a) == class(b) && order::lex_le(a, b))
}

/// Whether components come before others, or equal them, by the first in which
/// they differ.
pub open spec fn parts_le(a: Seq<Seq<char>>, b: Seq<Seq<char>>) -> bool
    decreases a.len(),
{
    if a.len() == 0 {
        true
    } else if b.len() == 0 {
        false
    } else if a[0] == b[0] {
        parts_le(a.drop_first(), b.drop_first())
    } else {
        part_le(a[0], b[0])
    }
}

/// Whether a path comes before another, component by component, or has the
/// same.
pub open spec fn path_le(a: Seq<char>, b: Seq<char>) -> bool {
    parts_le(components(a), components(b))
}

fn class_of(part: &str) -> (r: u8)
    ensures
        r == class(part@),
{
    if str_eq(part, "/") {
        0
    } else if str_eq(part, ".") {
        1
    } else if str_eq(part, "..") {
        2
    } else {
        3
    }
}

/// Whether a path comes before another, or has the same components.
pub fn path_le_of(a: &str, b: &str) -> (r: bool)
    ensures
        r == path_le(a@, b@),
{
    let x = components_of(a);
    let y = components_of(b);
    let ghost p = x.deep_view();
    let ghost q = y.deep_view();
    let mut i: usize = 0;
    assert(p.skip(0) =~= p);
    assert(q.skip(0) =~= q);
    loop
        invariant
            p == x.deep_view(),
            q == y.deep_view(),
            p == components(a@),
            q == components(b@),
            i <= x@.len(),
            i <= y@.len(),
            path_le(a@, b@) == parts_le(p.skip(i as int), q.skip(i as int)),
        decreases x@.len() - i,
    {
        if i == x.len() {
            return true;
        }
        if i == y.len() {
            return false;
        }
        assert(p.skip(i as int)[0] == x@[i as int]@);
        assert(q.skip(i as int)[0] == y@[i as int]@);
        if !str_eq(x[i].as_str(), y[i].as_str()) {
            let c = class_of(x[i].as_str());
            let d = class_of(y[i].as_str());
            return c < d || (c == d && str_le(x[i].as_str(), y[i].as_str()));
        }
        assert(p.skip(i as int).drop_first() =~= p.skip(i + 1));
        assert(q.skip(i as int).drop_first() =~= q.skip(i + 1));
        i = i + 1;
    }
}

/// How many leading paths come before the given one.
pub open spec fn path_rank(sorted: Seq<Seq<char>>, path: Seq<char>) -> int
    decreases sorted.len(),
{
    if sorted.len() == 0 || path_le(sorted.last(), path) {
        sorted.len() as int
    } else {
        path_rank(sorted.drop_last(), path)
    }
}

/// The paths in order; those with the same components stay in the order in
/// which they came.
pub open spec fn sorted_paths(paths: Seq<Seq<char>>) -> Seq<Seq<char>>
    decreases paths.len(),
{
    if paths.len() == 0 {
        Seq::empty()
    } else {
        let sorted = sorted_paths(paths.drop_last());
        sorted.insert(path_rank(sorted, paths.last()), paths.last())
    }
}

/// The paths in order.
pub fn sort_paths(paths: &Vec<String>) -> (r: Vec<String>)
    ensures
        r.deep_view() == sorted_paths(paths.deep_view()),
{
    let ghost all = paths.deep_view();
    let mut out: Vec<String> = Vec::new();
    let mut i: usize = 0;
    assert(all.take(0) =~= Seq::<Seq<char>>::empty());
    assert(out.deep_view() =~= sorted_paths(all.take(0)));
    while i < paths.len()
        invariant
            all == paths.deep_view(),
            i <= paths@.len(),
            out.deep_view() == sorted_paths(all.take(i as int)),
        decreases paths@.len() - i,
    {
        let ghost before = out.deep_view();
        let ghost x = paths@[i as int]@;
        assert(all[i as int] == x);
        assert(all.take(i + 1).drop_last() =~= all.take(i as int));
        let mut pos: usize = out.len();
        assert(before.take(pos as int) =~= before);
        while pos > 0 && !path_le_of(out[pos - 1].as_str(), paths[i].as_str())
            invariant
                before == out.deep_view(),
                i < paths@.len(),
                x == paths@[i as int]@,
                pos <= out@.len(),
                path_rank(before, x) == path_rank(before.take(pos as int), x),
            decreases pos,
        {
            assert(before[pos - 1] == out@[pos - 1]@);
            assert(before.take(pos as int).drop_last() =~= before.take(pos - 1));
            pos = pos - 1;
        }
        proof {
            if pos > 0 {
                assert(before[pos - 1] == out@[pos - 1]@);
            }
        }
        assert(path_rank(before, x) == pos);
        out.insert(pos, paths[i].clone());
        assert(out.deep_view() =~= before.insert(pos as int, x));
        i = i + 1;
    }
    assert(all.take(all.len() as int) =~= all);
    out
}

// ---------------------------------------------------------------------------
// Laws

proof fn lemma_part_le_total(a: Seq<char>, b: Seq<char>)
    ensures
        part_le(a, b) || part_le(b, a),
        part_le(a, b) && part_le(b, a) ==> a == b,
{
    order::lemma_text_order_total();
    let le = order::text_order();
    assert(le(a, b) || le(b, a));
    if le(a, b) && le(b, a) {
        assert(a == b);
    }
}

proof fn lemma_part_le_transitive(a: Seq<char>, b: Seq<char>, c: Seq<char>)
    requires
        part_le(a, b),
        part_le(b, c),
    ensures
        part_le(a, c),
{
    order::lemma_text_order_total();
    let le = order::text_order();
    if le(a, b) && le(b, c) {
        assert(le(a, c));
    }
}

proof fn lemma_parts_le_total(a: Seq<Seq<char>>, b: Seq<Seq<char>>)
    ensures
        parts_le(a, b) || parts_le(b, a),
    decreases a.len(),
{
    if a.len() > 0 && b.len() > 0 {
        lemma_part_le_total(a[0], b[0]);
        if a[0] == b[0] {
            lemma_parts_le_total(a.drop_first(), b.drop_first());
        }
    }
}

proof fn lemma_parts_le_transitive(a: Seq<Seq<char>>, b: Seq<Seq<char>>, c: Seq<Seq<char>>)
    requires
        parts_le(a, b),
        parts_le(b, c),
    ensures
        parts_le(a, c),
    decreases a.len(),
{
    if a.len() > 0 && b.len() > 0 && c.len() > 0 {
        if a[0] == b[0] && b[0] == c[0] {
            lemma_parts_le_transitive(a.drop_first(), b.drop_first(), c.drop_first());
        } else if a[0] != b[0] && b[0] != c[0] {
            lemma_part_le_transitive(a[0], b[0], c[0]);
            if a[0] == c[0] {
                lemma_part_le_total(a[0], b[0]);
            }
        }
    }
}

/// The order of paths is total, and what comes before a path comes before all
/// behind it.
pub proof fn lemma_path_order(a: Seq<char>, b: Seq<char>, c: Seq<char>)
    ensures
        path_le(a, b) || path_le(b, a),
        path_le(a, b) && path_le(b, c) ==> path_le(a, c),
{
    lemma_parts_le_total(components(a), components(b));
    if path_le(a, b) && path_le(b, c) {
        lemma_parts_le_transitive(components(a), components(b), components(c));
    }
}

/// Whether the paths are in order.
pub open spec fn paths_ordered(s: Seq<Seq<char>>) -> bool {
    forall|i: int, j: int| 0 <= i < j < s.len() ==> path_le(#[trigger] s[i], #[trigger] s[j])
}

proof fn lemma_path_rank(sorted: Seq<Seq<char>>, path: Seq<char>)
    requires
        paths_ordered(sorted),
    ensures
        0 <= path_rank(sorted, path) <= sorted.len(),
        forall|i: int| 0 <= i < path_rank(sorted, path) ==> path_le(#[trigger] sorted[i], path),
        forall|i: int|
            path_rank(sorted, path) <= i < sorted.len() ==> path_le(path, #[trigger] sorted[i]),
    decreases sorted.len(),
{
    if sorted.len() > 0 {
        let d = sorted.drop_last();
        if path_le(sorted.last(), path) {
            assert forall|i: int| 0 <= i < sorted.len() implies path_le(#[trigger] sorted[i], path) by {
                if i < sorted.len() - 1 {
                    assert(path_le(sorted[i], sorted[sorted.len() - 1]));
                    lemma_path_order(sorted[i], sorted.last(), path);
                }
            }
        } else {
            assert forall|i: int, j: int| 0 <= i < j < d.len() implies path_le(
                #[trigger] d[i],
                #[trigger] d[j],
            ) by {
                assert(d[i] == sorted[i] && d[j] == sorted[j]);
            }
            lemma_path_rank(d, path);
            lemma_path_order(sorted.last(), path, path);
            assert forall|i: int| 0 <= i < path_rank(sorted, path) implies path_le(
                #[trigger] sorted[i],
                path,
            ) by {
                assert(d[i] == sorted[i]);
            }
            assert forall|i: int| path_rank(sorted, path) <= i < sorted.len() implies path_le(
                path,
                #[trigger] sorted[i],
            ) by {
                if i < d.len() {
                    assert(d[i] == sorted[i]);
                }
            }
        }
    }
}

/// Sorting puts the paths in order, and gives the same paths, as many of them.
pub proof fn lemma_sorted_paths(paths: Seq<Seq<char>>)
    ensures
        paths_ordered(sorted_paths(paths)),
        sorted_paths(paths).to_multiset() == paths.to_multiset(),
    decreases paths.len(),
{
    if paths.len() > 0 {
        let d = paths.drop_last();
        let x = paths.last();
        let sorted = sorted_paths(d);
        lemma_sorted_paths(d);
        lemma_path_rank(sorted, x);
        let p = path_rank(sorted, x);
        let t = sorted.insert(p, x);
        assert forall|i: int, j: int| 0 <= i < j < t.len() implies path_le(
            #[trigger] t[i],
            #[trigger] t[j],
        ) by {
            if i < p {
                assert(t[i] == sorted[i]);
            } else if i > p {
                assert(t[i] == sorted[i - 1]);
            }
            if j < p {
                assert(t[j] == sorted[j]);
            } else if j > p {
                assert(t[j] == sorted[j - 1]);
            }
        }
        vstd::seq_lib::to_multiset_insert(sorted, p, x);
        vstd::seq_lib::to_multiset_build(d, x);
        assert(paths =~= d.push(x));
    } else {
        assert(sorted_paths(paths) =~= paths);
    }
}

// ---------------------------------------------------------------------------
// Laws

/// A relative path goes below a directory, behind one slash; an absolute one
/// stands for itself.
pub proof fn lemma_join_relative(base: Seq<char>, rel: Seq<char>)
    ensures
        rel.len() > 0 && rel[0] == '/' ==> join_path(base, rel) == rel,
        (rel.len() == 0 || rel[0] != '/') && base.len() > 0 && base.last() != '/' ==> join_path(
            base,
            rel,
        ) == base + "/"@ + rel,
        (rel.len() == 0 || rel[0] != '/') && base.len() > 0 && base.last() == '/' ==> join_path(
            base,
            rel,
        ) == base + rel,
        (rel.len() == 0 || rel[0] != '/') ==> join_path(Seq::empty(), rel) == rel,
{
    reveal_strlit("/");
    if rel.len() > 0 {
        assert(rel.take(1) =~= seq![rel[0]]);
    }
    if text::starts_with(rel, "/"@) {
        assert(rel.take(1)[0] == '/');
    }
    assert("/"@ =~= seq!['/']);
    if base.len() > 0 {
        assert(base.skip(base.len() - 1) =~= seq![base.last()]);
    }
    if text::ends_with(base, "/"@) {
        assert(base.skip(base.len() - 1)[0] == '/');
    }
    assert(Seq::<char>::empty() + rel =~= rel);
}

/// Joining three relative paths does not depend on which two are joined first.
pub proof fn lemma_join_in_turn(a: Seq<char>, b: Seq<char>, c: Seq<char>)
    requires
        a.len() > 0,
        a.last() != '/',
        b.len() > 0,
        b[0] != '/',
        b.last() != '/',
        c.len() > 0,
        c[0] != '/',
    ensures
        join_path(join_path(a, b), c) == join_path(a, join_path(b, c)),
{
    reveal_strlit("/");
    lemma_join_relative(a, b);
    lemma_join_relative(b, c);
    let ab = a + "/"@ + b;
    let bc = b + "/"@ + c;
    assert(ab.last() == b.last());
    assert(bc[0] == b[0]);
    lemma_join_relative(ab, c);
    lemma_join_relative(a, bc);
    assert(ab + "/"@ + c =~= a + "/"@ + bc);
}

/// What the project keeps lies in its own directory below the base.
pub proof fn lemma_ci_path(base: Seq<char>, name: Seq<char>)
    requires
        base.len() > 0,
        base.last() != '/',
        name.len() > 0,
        name[0] != '/',
    ensures
        ci_path(base, name) == base + "/.ci/"@ + name,
{
    reveal_strlit("/");
    reveal_strlit(".ci");
    reveal_strlit("/.ci/");
    lemma_join_relative(base, ".ci"@);
    let dir = base + "/"@ + ".ci"@;
    assert(dir.last() == 'i');
    lemma_join_relative(dir, name);
    assert(dir + "/"@ + name =~= base + "/.ci/"@ + name);
}

/// Splitting a text with the character between two parts gives the pieces of
/// the one and then those of the other.
proof fn lemma_split_parts(a: Seq<char>, c: char, b: Seq<char>)
    ensures
        text::split(a + seq![c] + b, c) == text::split(a, c) + text::split(b, c),
    decreases b.len(),
{
    let s = a + seq![c] + b;
    text::lemma_split_nonempty(a, c);
    text::lemma_split_nonempty(b, c);
    if b.len() == 0 {
        assert(s.drop_last() =~= a);
        assert(s.last() == c);
        assert(text::split(s, c) =~= text::split(a, c) + text::split(b, c));
    } else {
        let d = b.drop_last();
        lemma_split_parts(a, c, d);
        text::lemma_split_nonempty(d, c);
        assert(s.drop_last() =~= a + seq![c] + d);
        assert(s.last() == b.last());
        let x = text::split(a, c);
        let y = text::split(d, c);
        if b.last() == c {
            assert((x + y).push(Seq::<char>::empty()) =~= x + y.push(Seq::<char>::empty()));
        } else {
            let grown = y.last().push(b.last());
            assert((x + y).last() == y.last());
            assert((x + y).update((x + y).len() - 1, grown) =~= x + y.update(y.len() - 1, grown));
        }
    }
}

proof fn lemma_counting_parts(a: Seq<Seq<char>>, b: Seq<Seq<char>>, n: int)
    requires
        a.len() > 0,
        0 <= n <= b.len(),
        forall|i: int| 0 <= i < b.len() ==> (#[trigger] b[i]).len() > 0 && b[i] != "."@,
    ensures
        counting(a + b, a.len() + n) == counting(a, a.len() as int) + b.take(n),
    decreases n,
{
    let s = a + b;
    if n > 0 {
        lemma_counting_parts(a, b, n - 1);
        assert(s[a.len() + n - 1] == b[n - 1]);
        assert(b[n - 1].len() > 0 && b[n - 1] != "."@);
        assert(counting(s, a.len() + n) =~= counting(a, a.len() as int) + b.take(n)) by {
            assert(b.take(n) =~= b.take(n - 1).push(b[n - 1]));
        }
    } else {
        lemma_counting_same(s, a, a.len() as int);
        assert(b.take(0) =~= Seq::<Seq<char>>::empty());
        assert(counting(a, a.len() as int) + b.take(0) =~= counting(a, a.len() as int));
    }
}

proof fn lemma_counting_same(s: Seq<Seq<char>>, a: Seq<Seq<char>>, n: int)
    requires
        0 <= n <= a.len() <= s.len(),
        forall|i: int| 0 <= i < a.len() ==> #[trigger] s[i] == a[i],
    ensures
        counting(s, n) == counting(a, n),
    decreases n,
{
    if n > 0 {
        assert(s[n - 1] == a[n - 1]);
        lemma_counting_same(s, a, n - 1);
    }
}

/// A file below a directory is archived under its path from there: what is
/// behind the directory and a slash, where that is made of plain names.
pub proof fn lemma_archived_below(dir: Seq<char>, rel: Seq<char>)
    requires
        dir.len() > 0,
        rel.len() > 0,
        rel[0] != '/',
        forall|i: int|
            0 <= i < text::split(rel, '/').len() ==> (#[trigger] text::split(rel, '/')[i]).len() > 0
                && text::split(rel, '/')[i] != "."@,
    ensures
        archived(dir + "/"@ + rel, dir) == rel,
        components(dir + "/"@ + rel) == components(dir) + text::split(rel, '/'),
{
    reveal_strlit("/");
    let path = dir + "/"@ + rel;
    let a = text::split(dir, '/');
    let b = text::split(rel, '/');
    assert("/"@ =~= seq!['/']);
    assert(path =~= dir + seq!['/'] + rel);
    lemma_split_parts(dir, '/', rel);
    text::lemma_split_nonempty(dir, '/');
    text::lemma_split_nonempty(rel, '/');
    lemma_counting_parts(a, b, b.len() as int);
    assert(b.take(b.len() as int) =~= b);
    assert(text::starts_with(path, "/"@) == text::starts_with(dir, "/"@)) by {
        assert(path.take(1) =~= dir.take(1));
    }
    let base = components(dir);
    let parts = components(path);
    assert(parts =~= base + b);
    assert(base.is_prefix_of(parts)) by {
        assert(parts.subrange(0, base.len() as int) =~= base);
    }
    assert(parts.skip(base.len() as int) =~= b);
    text::lemma_join_split(rel, '/');
    assert(b[0] != "/"@) by {
        if b[0] == "/"@ {
            assert(b[0].contains('/')) by {
                assert(b[0][0] == '/');
            }
        }
    }
    assert(path_of(b) == text::join(b, "/"@));
}

/// A file that is not below a directory is archived under its name alone.
pub proof fn lemma_archived_elsewhere(parent: Seq<char>, name: Seq<char>, dir: Seq<char>)
    requires
        parent.len() > 0,
        name.len() > 0,
        !name.contains('/'),
        name != "."@,
        name != ".."@,
        !components(dir).is_prefix_of(components(parent + "/"@ + name)),
    ensures
        archived(parent + "/"@ + name, dir) == name,
{
    reveal_strlit("/");
    text::lemma_split_one(name, '/');
    assert(text::split(name, '/')[0] == name);
    assert(name[0] != '/') by {
        assert(name.contains(name[0]));
    }
    lemma_archived_below(parent, name);
    let parts = components(parent + "/"@ + name);
    assert(parts.last() == name);
    assert(name != "/"@) by {
        if name == "/"@ {
            assert(name[0] == '/');
        }
    }
}

proof fn lemma_parts_le_behind(x: Seq<Seq<char>>, a: Seq<char>, b: Seq<char>)
    requires
        a != b,
    ensures
        parts_le(x + seq![a], x + seq![b]) == part_le(a, b),
    decreases x.len(),
{
    let s = x + seq![a];
    let t = x + seq![b];
    if x.len() > 0 {
        assert(s[0] == x[0] && t[0] == x[0]);
        assert(s.drop_first() =~= x.drop_first() + seq![a]);
        assert(t.drop_first() =~= x.drop_first() + seq![b]);
        lemma_parts_le_behind(x.drop_first(), a, b);
    } else {
        assert(s[0] == a && t[0] == b);
    }
}

/// Files in one directory come in the order of their names.
pub proof fn lemma_names_order_paths(dir: Seq<char>, a: Seq<char>, b: Seq<char>)
    requires
        dir.len() > 0,
        a.len() > 0,
        b.len() > 0,
        a != b,
        !a.contains('/'),
        !b.contains('/'),
        a != "."@ && a != ".."@,
        b != "."@ && b != ".."@,
    ensures
        path_le(dir + "/"@ + a, dir + "/"@ + b) <==> order::lex_le(a, b),
{
    reveal_strlit("/");
    text::lemma_split_one(a, '/');
    text::lemma_split_one(b, '/');
    assert(text::split(a, '/')[0] == a);
    assert(text::split(b, '/')[0] == b);
    assert(a.contains(a[0]) && b.contains(b[0]));
    lemma_archived_below(dir, a);
    lemma_archived_below(dir, b);
    lemma_parts_le_behind(components(dir), a, b);
    assert(a != "/"@ && b != "/"@) by {
        if a == "/"@ {
            assert(a[0] == '/');
        }
        if b == "/"@ {
            assert(b[0] == '/');
        }
    }
}

/// A dot and an empty piece between two names do not count.
pub proof fn lemma_dots_do_not_count(a: Seq<char>, b: Seq<char>)
    requires
        a.len() > 0,
        b.len() > 0,
        b[0] != '/',
        forall|i: int|
            0 <= i < text::split(b, '/').len() ==> (#[trigger] text::split(b, '/')[i]).len() > 0
                && text::split(b, '/')[i] != "."@,
    ensures
        components(a + "/./"@ + b) == components(a + "/"@ + b),
        components(a + "//"@ + b) == components(a + "/"@ + b),
{
    reveal_strlit("/");
    reveal_strlit(".");
    reveal_strlit("/./");
    reveal_strlit("//");
    let none = Seq::<char>::empty();
    let x = text::split(a, '/');
    let y = text::split(b, '/');
    text::lemma_split_nonempty(a, '/');
    lemma_archived_below(a, b);
    // With the dot.
    let s = a + "/./"@ + b;
    let ad = a + seq!['/'] + "."@;
    assert(s =~= ad + seq!['/'] + b);
    lemma_split_parts(ad, '/', b);
    lemma_split_parts(a, '/', "."@);
    text::lemma_split_one("."@, '/');
    let xd = x + seq!["."@];
    assert(text::split(ad, '/') =~= xd);
    lemma_counting_parts(xd, y, y.len() as int);
    assert(y.take(y.len() as int) =~= y);
    lemma_counting_same(xd, x, x.len() as int);
    assert(counting(xd, xd.len() as int) == counting(x, x.len() as int)) by {
        assert(xd[xd.len() - 1] == "."@);
    }
    assert(text::starts_with(s, "/"@) == text::starts_with(a, "/"@)) by {
        assert(s.take(1) =~= a.take(1));
    }
    assert(components(s) =~= components(a) + y);
    // With the empty piece.
    let t = a + "//"@ + b;
    let ae = a + seq!['/'] + none;
    assert(t =~= ae + seq!['/'] + b);
    lemma_split_parts(ae, '/', b);
    lemma_split_parts(a, '/', none);
    text::lemma_split_one(none, '/');
    let xe = x + seq![none];
    assert(text::split(ae, '/') =~= xe);
    lemma_counting_parts(xe, y, y.len() as int);
    lemma_counting_same(xe, x, x.len() as int);
    assert(counting(xe, xe.len() as int) == counting(x, x.len() as int)) by {
        assert(xe[xe.len() - 1] == none);
    }
    assert(text::starts_with(t, "/"@) == text::starts_with(a, "/"@)) by {
        assert(t.take(1) =~= a.take(1));
    }
    assert(components(t) =~= components(a) + y);
}

} // verus!
