//! Text as sequences of characters: trimming, splitting, joining, replacing,
//! ordering and padding.
use vstd::prelude::*;
use vstd::slice::slice_subrange;
use vstd::string::StringExecFns;

verus! {

/// `String::push` appends one character to the end of the string.
pub assume_specification[ String::push ](s: &mut String, c: char)
    ensures
        final(s)@ == old(s)@.push(c),
;

/// The characters of a string, as a vector.
pub fn to_chars(s: &str) -> (r: Vec<char>)
    ensures
        r@ == s@,
{
    let mut out: Vec<char> = Vec::new();
    for c in it: s.chars()
        invariant
            out@ == s@.take(it.index()),
            it.seq() == s@,
    {
        out.push(c);
        assert(s@.take(it.index() + 1) =~= s@.take(it.index()).push(c));
    }
    assert(s@.take(s@.len() as int) =~= s@);
    out
}

/// The string made of the given characters.
pub fn from_chars(v: &[char]) -> (r: String)
    ensures
        r@ == v@,
{
    let mut out = String::new();
    let mut i: usize = 0;
    while i < v.len()
        invariant
            i <= v@.len(),
            out@ == v@.take(i as int),
        decreases v@.len() - i,
    {
        out.push(v[i]);
        assert(v@.take(i + 1) =~= v@.take(i as int).push(v@[i as int]));
        i = i + 1;
    }
    assert(v@.take(v@.len() as int) =~= v@);
    out
}

/// Appends a string to another.
pub fn append_str(s: &mut String, other: &str)
    ensures
        final(s)@ == old(s)@ + other@,
{
    s.append(other);
}

/// Whether two character slices hold the same characters.
pub fn chars_eq(a: &[char], b: &[char]) -> (r: bool)
    ensures
        r == (a@ == b@),
{
    if a.len() != b.len() {
        return false;
    }
    let mut i: usize = 0;
    while i < a.len()
        invariant
            i <= a@.len(),
            a@.len() == b@.len(),
            forall|k: int| 0 <= k < i ==> a@[k] == b@[k],
        decreases a@.len() - i,
    {
        if a[i] != b[i] {
            return false;
        }
        i = i + 1;
    }
    assert(a@ =~= b@);
    true
}

/// Whether two strings hold the same characters.
pub fn str_eq(a: &str, b: &str) -> (r: bool)
    ensures
        r == (a@ == b@),
{
    let x = to_chars(a);
    let y = to_chars(b);
    chars_eq(x.as_slice(), y.as_slice())
}

/// A copy of an optional string.
pub fn clone_opt(o: &Option<String>) -> (r: Option<String>)
    ensures
        r == *o,
{
    match o {
        Some(s) => Some(s.clone()),
        None => None,
    }
}

/// Whether a list of strings holds the given one.
pub fn contains_str(v: &Vec<String>, s: &str) -> (r: bool)
    ensures
        r == v.deep_view().contains(s@),
{
    let mut i: usize = 0;
    while i < v.len()
        invariant
            i <= v@.len(),
            forall|k: int| 0 <= k < i ==> v@[k]@ != s@,
        decreases v@.len() - i,
    {
        if str_eq(v[i].as_str(), s) {
            assert(v.deep_view()[i as int] == s@);
            return true;
        }
        i = i + 1;
    }
    false
}

// ---------------------------------------------------------------------------
// White space and trimming

/// The characters with Unicode's White_Space property.
pub open spec fn is_space(c: char) -> bool {
    ||| 0x09 <= c as u32 <= 0x0d
    ||| c as u32 == 0x20
    ||| c as u32 == 0x85
    ||| c as u32 == 0xa0
    ||| c as u32 == 0x1680
    ||| 0x2000 <= c as u32 <= 0x200a
    ||| c as u32 == 0x2028
    ||| c as u32 == 0x2029
    ||| c as u32 == 0x202f
    ||| c as u32 == 0x205f
    ||| c as u32 == 0x3000
}

/// Whether a character is white space.
pub fn char_is_space(c: char) -> (r: bool)
    ensures
        r == is_space(c),
{
    let u: u32 = c as u32;
    (0x09 <= u && u <= 0x0d) || u == 0x20 || u == 0x85 || u == 0xa0 || u == 0x1680 || (0x2000 <= u
        && u <= 0x200a) || u == 0x2028 || u == 0x2029 || u == 0x202f || u == 0x205f || u == 0x3000
}

/// `s` without its leading white space.
pub open spec fn trim_start(s: Seq<char>) -> Seq<char>
    decreases s.len(),
{
    if s.len() > 0 && is_space(s[0]) {
        trim_start(s.drop_first())
    } else {
        s
    }
}

/// `s` without its trailing white space.
pub open spec fn trim_end(s: Seq<char>) -> Seq<char>
    decreases s.len(),
{
    if s.len() > 0 && is_space(s.last()) {
        trim_end(s.drop_last())
    } else {
        s
    }
}

/// `s` without leading and trailing white space.
pub open spec fn trim(s: Seq<char>) -> Seq<char> {
    trim_end(trim_start(s))
}

/// Trimming never makes text longer.
pub proof fn lemma_trim_len(s: Seq<char>)
    ensures
        trim(s).len() <= s.len(),
{
    lemma_trim_start_len(s);
    lemma_trim_end_len(trim_start(s));
}

proof fn lemma_trim_start_len(s: Seq<char>)
    ensures
        trim_start(s).len() <= s.len(),
    decreases s.len(),
{
    if s.len() > 0 && is_space(s[0]) {
        lemma_trim_start_len(s.drop_first());
    }
}

proof fn lemma_trim_end_len(s: Seq<char>)
    ensures
        trim_end(s).len() <= s.len(),
    decreases s.len(),
{
    if s.len() > 0 && is_space(s.last()) {
        lemma_trim_end_len(s.drop_last());
    }
}

/// Trimmed text neither begins nor ends with white space.
pub proof fn lemma_trim_ends(s: Seq<char>)
    ensures
        trim(s).len() > 0 ==> !is_space(trim(s)[0]) && !is_space(trim(s).last()),
{
    lemma_trim_start_first(s);
    lemma_trim_end_ends(trim_start(s));
}

proof fn lemma_trim_start_first(s: Seq<char>)
    ensures
        trim_start(s).len() > 0 ==> !is_space(trim_start(s)[0]),
    decreases s.len(),
{
    if s.len() > 0 && is_space(s[0]) {
        lemma_trim_start_first(s.drop_first());
    }
}

proof fn lemma_trim_end_ends(s: Seq<char>)
    ensures
        trim_end(s).len() > 0 ==> !is_space(trim_end(s).last()) && trim_end(s)[0] == s[0],
    decreases s.len(),
{
    if s.len() > 0 && is_space(s.last()) {
        lemma_trim_end_ends(s.drop_last());
    }
}

/// Text that neither begins nor ends with white space is trimmed already.
pub proof fn lemma_trim_id(s: Seq<char>)
    requires
        s.len() > 0 ==> !is_space(s[0]) && !is_space(s.last()),
    ensures
        trim(s) == s,
{
}

/// Trimming twice is trimming once.
pub proof fn lemma_trim_twice(s: Seq<char>)
    ensures
        trim(trim(s)) == trim(s),
{
    lemma_trim_ends(s);
    lemma_trim_id(trim(s));
}

proof fn lemma_trim_start_push(s: Seq<char>, c: char)
    ensures
        trim_start(s.push(c)) == (if trim_start(s).len() > 0 {
            trim_start(s).push(c)
        } else if is_space(c) {
            Seq::empty()
        } else {
            seq![c]
        }),
    decreases s.len(),
{
    if s.len() == 0 {
        assert(s.push(c) =~= seq![c]);
        if is_space(c) {
            assert(seq![c].drop_first() =~= Seq::<char>::empty());
            assert(trim_start(seq![c]) == trim_start(Seq::<char>::empty()));
        }
    } else if is_space(s[0]) {
        assert(s.push(c).drop_first() =~= s.drop_first().push(c));
        lemma_trim_start_push(s.drop_first(), c);
    }
}

/// White space at the end is gone after trimming, whether it was cut off
/// before or not.
pub proof fn lemma_trim_after_end(s: Seq<char>)
    ensures
        trim(trim_end(s)) == trim(s),
    decreases s.len(),
{
    if s.len() > 0 && is_space(s.last()) {
        let d = s.drop_last();
        lemma_trim_after_end(d);
        assert(s =~= d.push(s.last()));
        lemma_trim_start_push(d, s.last());
        if trim_start(d).len() > 0 {
            assert(trim_start(d).push(s.last()).drop_last() =~= trim_start(d));
        } else {
            assert(trim_start(d) =~= Seq::<char>::empty());
        }
    }
}

/// White space at the end is cut off behind any first character that is not
/// white space itself.
pub proof fn lemma_trim_end_behind(c: char, s: Seq<char>)
    requires
        !is_space(c),
    ensures
        trim(seq![c] + s) == seq![c] + trim_end(s),
    decreases s.len(),
{
    let t = seq![c] + s;
    assert(t[0] == c);
    if s.len() > 0 && is_space(s.last()) {
        assert(t.last() == s.last());
        assert(t.drop_last() =~= seq![c] + s.drop_last());
        assert(t.drop_last()[0] == c);
        lemma_trim_end_behind(c, s.drop_last());
    } else {
        assert(s.len() == 0 ==> t.last() == c);
        assert(s.len() > 0 ==> t.last() == s.last());
    }
}

/// The trimmed part of a slice of characters.
pub fn trim_chars(v: &[char]) -> (r: &[char])
    ensures
        r@ == trim(v@),
        r@.len() <= v@.len(),
{
    let mut a: usize = 0;
    assert(v@.skip(0) =~= v@);
    while a < v.len() && char_is_space(v[a])
        invariant
            a <= v@.len(),
            trim_start(v@) == trim_start(v@.skip(a as int)),
        decreases v@.len() - a,
    {
        assert(v@.skip(a as int).drop_first() =~= v@.skip(a + 1));
        a = a + 1;
    }
    let ghost t = v@.skip(a as int);
    assert(trim_start(v@) == t);
    let mut b: usize = v.len();
    assert(t =~= v@.subrange(a as int, b as int));
    while a < b && char_is_space(v[b - 1])
        invariant
            a <= b <= v@.len(),
            trim_end(t) == trim_end(v@.subrange(a as int, b as int)),
        decreases b - a,
    {
        assert(v@.subrange(a as int, b as int).drop_last() =~= v@.subrange(a as int, b - 1));
        assert(v@.subrange(a as int, b as int).last() == v@[b - 1]);
        b = b - 1;
    }
    slice_subrange(v, a, b)
}

/// The trimmed copy of a string.
pub fn trim_str(s: &str) -> (r: String)
    ensures
        r@ == trim(s@),
{
    let v = to_chars(s);
    from_chars(trim_chars(v.as_slice()))
}

// ---------------------------------------------------------------------------
// Prefixes, suffixes and searching

/// Whether `s` begins with `p`.
pub open spec fn starts_with(s: Seq<char>, p: Seq<char>) -> bool {
    p.len() <= s.len() && s.take(p.len() as int) == p
}

/// Whether `s` ends with `p`.
pub open spec fn ends_with(s: Seq<char>, p: Seq<char>) -> bool {
    p.len() <= s.len() && s.skip(s.len() - p.len()) == p
}

/// Whether `p` stands in `s` at position `i`.
pub open spec fn occurs_at(s: Seq<char>, p: Seq<char>, i: int) -> bool {
    0 <= i && i + p.len() <= s.len() && s.subrange(i, i + p.len()) == p
}

/// Whether `p` stands in `s` at position `i`.
pub fn occurs_at_chars(s: &[char], p: &[char], i: usize) -> (r: bool)
    ensures
        r == occurs_at(s@, p@, i as int),
{
    if p.len() > s.len() || i > s.len() - p.len() {
        return false;
    }
    chars_eq(slice_subrange(s, i, i + p.len()), p)
}

/// Whether a string begins with another.
pub fn starts_with_str(s: &str, p: &str) -> (r: bool)
    ensures
        r == starts_with(s@, p@),
{
    let x = to_chars(s);
    let y = to_chars(p);
    assert(p@.len() <= s@.len() ==> s@.take(p@.len() as int) =~= s@.subrange(0, p@.len() as int));
    occurs_at_chars(x.as_slice(), y.as_slice(), 0)
}

/// Whether a string ends with another.
pub fn ends_with_str(s: &str, p: &str) -> (r: bool)
    ensures
        r == ends_with(s@, p@),
{
    let x = to_chars(s);
    let y = to_chars(p);
    if y.len() > x.len() {
        return false;
    }
    assert(s@.skip(s@.len() - p@.len()) =~= s@.subrange(s@.len() - p@.len(), s@.len() as int));
    occurs_at_chars(x.as_slice(), y.as_slice(), x.len() - y.len())
}

/// `s` without `p` at its beginning.
pub open spec fn behind(s: Seq<char>, p: Seq<char>) -> Option<Seq<char>> {
    if starts_with(s, p) {
        Some(s.skip(p.len() as int))
    } else {
        None
    }
}

/// `s` without `p` at its beginning.
pub fn behind_str(s: &str, p: &str) -> (r: Option<String>)
    ensures
        r.deep_view() == behind(s@, p@),
{
    if !starts_with_str(s, p) {
        return None;
    }
    let v = to_chars(s);
    let n: usize = to_chars(p).len();
    let part = slice_subrange(v.as_slice(), n, v.len());
    assert(part@ =~= s@.skip(p@.len() as int));
    Some(from_chars(part))
}

/// `s` without `p` at its end.
pub open spec fn before_end(s: Seq<char>, p: Seq<char>) -> Option<Seq<char>> {
    if ends_with(s, p) {
        Some(s.take(s.len() - p.len()))
    } else {
        None
    }
}

/// `s` without `p` at its end.
pub fn before_end_str(s: &str, p: &str) -> (r: Option<String>)
    ensures
        r.deep_view() == before_end(s@, p@),
{
    if !ends_with_str(s, p) {
        return None;
    }
    let v = to_chars(s);
    let n: usize = to_chars(p).len();
    let part = slice_subrange(v.as_slice(), 0, v.len() - n);
    assert(part@ =~= s@.take(s@.len() - p@.len()));
    Some(from_chars(part))
}

/// Text behind a prefix is found again.
pub proof fn lemma_behind(p: Seq<char>, s: Seq<char>)
    ensures
        behind(p + s, p) == Some(s),
{
    assert((p + s).take(p.len() as int) =~= p);
    assert((p + s).skip(p.len() as int) =~= s);
}

/// The first position at or after `from` where `p` stands in `s`.
pub open spec fn find_from(s: Seq<char>, p: Seq<char>, from: int) -> Option<int>
    decreases s.len() - from + 1,
{
    if from < 0 || from + p.len() > s.len() {
        None
    } else if occurs_at(s, p, from) {
        Some(from)
    } else {
        find_from(s, p, from + 1)
    }
}

/// The first position where `p` stands in `s`.
pub fn find_chars(s: &[char], p: &[char]) -> (r: Option<usize>)
    ensures
        match r {
            Some(i) => find_from(s@, p@, 0) == Some(i as int) && i + p@.len() <= s@.len(),
            None => find_from(s@, p@, 0) is None,
        },
{
    if p.len() > s.len() {
        return None;
    }
    let last: usize = s.len() - p.len();
    let mut i: usize = 0;
    loop
        invariant
            p@.len() <= s@.len(),
            last == s@.len() - p@.len(),
            i <= last,
            find_from(s@, p@, 0) == find_from(s@, p@, i as int),
        decreases last - i,
    {
        if occurs_at_chars(s, p, i) {
            return Some(i);
        }
        if i == last {
            assert(find_from(s@, p@, i + 1) is None);
            return None;
        }
        i = i + 1;
    }
}

/// A character that does not occur in `a` is first found behind it.
pub proof fn lemma_find_behind(a: Seq<char>, c: char, rest: Seq<char>)
    requires
        !a.contains(c),
    ensures
        find_from(a + seq![c] + rest, seq![c], 0) == Some(a.len() as int),
{
    lemma_find_behind_from(a, c, rest, 0);
}

proof fn lemma_find_behind_from(a: Seq<char>, c: char, rest: Seq<char>, i: int)
    requires
        !a.contains(c),
        0 <= i <= a.len(),
    ensures
        find_from(a + seq![c] + rest, seq![c], i) == Some(a.len() as int),
    decreases a.len() - i,
{
    let s = a + seq![c] + rest;
    assert(s.subrange(i, i + 1) =~= seq![s[i]]);
    if i < a.len() {
        assert(s[i] == a[i]);
        assert(s.subrange(i, i + 1)[0] != seq![c][0]);
        lemma_find_behind_from(a, c, rest, i + 1);
    } else {
        assert(s[i] == c);
    }
}

// ---------------------------------------------------------------------------
// Splitting and joining

/// The pieces of `s` between the occurrences of `c`.
pub open spec fn split(s: Seq<char>, c: char) -> Seq<Seq<char>>
    decreases s.len(),
{
    if s.len() == 0 {
        seq![Seq::<char>::empty()]
    } else {
        let head = split(s.drop_last(), c);
        if s.last() == c {
            head.push(Seq::<char>::empty())
        } else {
            head.update(head.len() - 1, head.last().push(s.last()))
        }
    }
}

/// A text always has at least one piece.
pub proof fn lemma_split_nonempty(s: Seq<char>, c: char)
    ensures
        split(s, c).len() >= 1,
    decreases s.len(),
{
    if s.len() > 0 {
        lemma_split_nonempty(s.drop_last(), c);
    }
}

/// Text without the character is one piece.
pub proof fn lemma_split_one(s: Seq<char>, c: char)
    requires
        !s.contains(c),
    ensures
        split(s, c) == seq![s],
    decreases s.len(),
{
    if s.len() > 0 {
        let d = s.drop_last();
        assert(!d.contains(c)) by {
            if d.contains(c) {
                let i = d.index_of(c);
                assert(s[i] == c);
            }
        }
        assert(s[s.len() - 1] != c) by {
            assert(s.contains(s[s.len() - 1]));
        }
        lemma_split_one(d, c);
        assert(d.push(s.last()) =~= s);
        assert(seq![d].update(0, s) =~= seq![s]);
    } else {
        assert(s =~= Seq::<char>::empty());
    }
}

/// Two texts without the character, with the character between them, are two
/// pieces.
pub proof fn lemma_split_two(a: Seq<char>, c: char, b: Seq<char>)
    requires
        !a.contains(c),
        !b.contains(c),
    ensures
        split(a + seq![c] + b, c) == seq![a, b],
    decreases b.len(),
{
    let s = a + seq![c] + b;
    if b.len() == 0 {
        assert(s.drop_last() =~= a);
        assert(s.last() == c);
        lemma_split_one(a, c);
        assert(b =~= Seq::<char>::empty());
        assert(seq![a].push(Seq::<char>::empty()) =~= seq![a, b]);
    } else {
        let d = b.drop_last();
        assert(!d.contains(c)) by {
            if d.contains(c) {
                let i = d.index_of(c);
                assert(b[i] == c);
            }
        }
        assert(b[b.len() - 1] != c) by {
            assert(b.contains(b[b.len() - 1]));
        }
        lemma_split_two(a, c, d);
        assert(s.drop_last() =~= a + seq![c] + d);
        assert(s.last() == b.last());
        assert(d.push(b.last()) =~= b);
        assert(seq![a, d].update(1, b) =~= seq![a, b]);
    }
}

/// The pieces of a string between the occurrences of a character.
pub fn split_str(s: &str, c: char) -> (r: Vec<String>)
    ensures
        r.deep_view() == split(s@, c),
        r@.len() >= 1,
{
    let v = to_chars(s);
    let mut out: Vec<String> = Vec::new();
    let mut cur = String::new();
    let mut i: usize = 0;
    assert(s@.take(0) =~= Seq::<char>::empty());
    assert(out.deep_view().push(cur@) =~= split(s@.take(0), c));
    while i < v.len()
        invariant
            v@ == s@,
            i <= v@.len(),
            out.deep_view().push(cur@) == split(s@.take(i as int), c),
        decreases v@.len() - i,
    {
        let ghost before = out.deep_view().push(cur@);
        assert(s@.take(i + 1).drop_last() =~= s@.take(i as int));
        if v[i] == c {
            out.push(cur);
            assert(out.deep_view() =~= before);
            cur = String::new();
        } else {
            cur.push(v[i]);
            assert(out.deep_view().push(cur@) =~= before.update(
                before.len() - 1,
                before.last().push(v@[i as int]),
            ));
        }
        i = i + 1;
    }
    assert(s@.take(s@.len() as int) =~= s@);
    let ghost before = out.deep_view().push(cur@);
    out.push(cur);
    assert(out.deep_view() =~= before);
    out
}

/// The texts of `parts` with `sep` between neighbours.
pub open spec fn join(parts: Seq<Seq<char>>, sep: Seq<char>) -> Seq<char>
    decreases parts.len(),
{
    if parts.len() == 0 {
        Seq::empty()
    } else if parts.len() == 1 {
        parts[0]
    } else {
        join(parts.drop_last(), sep) + sep + parts.last()
    }
}

/// The strings of a list with a separator between neighbours.
pub fn join_strs(parts: &Vec<String>, sep: &str) -> (r: String)
    ensures
        r@ == join(parts.deep_view(), sep@),
{
    let mut out = String::new();
    let mut i: usize = 0;
    let ghost all = parts.deep_view();
    while i < parts.len()
        invariant
            i <= parts@.len(),
            all == parts.deep_view(),
            out@ == join(all.take(i as int), sep@),
        decreases parts@.len() - i,
    {
        assert(all.take(i + 1).drop_last() =~= all.take(i as int));
        if i > 0 {
            out.append(sep);
            out.append(parts[i].as_str());
        } else {
            out.append(parts[i].as_str());
            assert(out@ =~= parts@[0]@);
        }
        i = i + 1;
    }
    assert(all.take(all.len() as int) =~= all);
    out
}

// ---------------------------------------------------------------------------
// Replacing

/// `s` with every `c` replaced by `with`.
pub open spec fn replace(s: Seq<char>, c: char, with: Seq<char>) -> Seq<char>
    decreases s.len(),
{
    if s.len() == 0 {
        Seq::empty()
    } else if s.last() == c {
        replace(s.drop_last(), c, with) + with
    } else {
        replace(s.drop_last(), c, with).push(s.last())
    }
}

/// The copy of a string with every occurrence of a character replaced.
pub fn replace_str(s: &str, c: char, with: &str) -> (r: String)
    ensures
        r@ == replace(s@, c, with@),
{
    let v = to_chars(s);
    let mut out = String::new();
    let mut i: usize = 0;
    while i < v.len()
        invariant
            v@ == s@,
            i <= v@.len(),
            out@ == replace(s@.take(i as int), c, with@),
        decreases v@.len() - i,
    {
        assert(s@.take(i + 1).drop_last() =~= s@.take(i as int));
        if v[i] == c {
            out.append(with);
        } else {
            out.push(v[i]);
        }
        i = i + 1;
    }
    assert(s@.take(s@.len() as int) =~= s@);
    out
}

/// A name that can stand as one path component: `/` and spaces become `_`.
pub open spec fn safe_name(s: Seq<char>) -> Seq<char> {
    replace(replace(s, '/', "_"@), ' ', "_"@)
}

/// A name that can stand as one path component.
pub fn safe_name_str(s: &str) -> (r: String)
    ensures
        r@ == safe_name(s@),
{
    let a = replace_str(s, '/', "_");
    replace_str(a.as_str(), ' ', "_")
}

// ---------------------------------------------------------------------------
// Laws

/// Text begins with a prefix exactly if it is the prefix with something behind
/// it, and ends with a suffix exactly if it is the suffix with something before
/// it.
pub proof fn lemma_prefix_and_suffix(s: Seq<char>, p: Seq<char>)
    ensures
        starts_with(s, p) <==> exists|t: Seq<char>| s == #[trigger] (p + t),
        ends_with(s, p) <==> exists|t: Seq<char>| s == #[trigger] (t + p),
{
    if starts_with(s, p) {
        assert(s =~= p + s.skip(p.len() as int));
    }
    if exists|t: Seq<char>| s == #[trigger] (p + t) {
        let t = choose|t: Seq<char>| s == #[trigger] (p + t);
        assert((p + t).take(p.len() as int) =~= p);
    }
    if ends_with(s, p) {
        assert(s =~= s.take(s.len() - p.len()) + p);
    }
    if exists|t: Seq<char>| s == #[trigger] (t + p) {
        let t = choose|t: Seq<char>| s == #[trigger] (t + p);
        assert((t + p).skip(s.len() - p.len()) =~= p);
    }
}

/// Text before an ending is found again, and what has another ending has none.
pub proof fn lemma_before_end(s: Seq<char>, p: Seq<char>)
    ensures
        before_end(s + p, p) == Some(s),
        before_end(s, p) matches Some(t) ==> s == t + p,
        behind(s, p) matches Some(t) ==> s == p + t,
{
    assert((s + p).skip((s + p).len() - p.len()) =~= p);
    assert((s + p).take(s.len() as int) =~= s);
    if before_end(s, p) is Some {
        assert(s =~= s.take(s.len() - p.len()) + p);
    }
    if behind(s, p) is Some {
        assert(s =~= p + s.skip(p.len() as int));
    }
}

/// A search finds the first place at which a text stands, and nothing exactly
/// if it stands nowhere.
pub proof fn lemma_find_from(s: Seq<char>, p: Seq<char>, from: int)
    requires
        0 <= from,
    ensures
        match find_from(s, p, from) {
            Some(i) => {
                &&& from <= i
                &&& i + p.len() <= s.len()
                &&& s.subrange(i, i + p.len()) == p
                &&& forall|j: int| from <= j < i ==> #[trigger] s.subrange(j, j + p.len()) != p
            },
            None => forall|j: int|
                from <= j && j + p.len() <= s.len() ==> #[trigger] s.subrange(j, j + p.len()) != p,
        },
    decreases s.len() - from + 1,
{
    if from + p.len() <= s.len() && !occurs_at(s, p, from) {
        lemma_find_from(s, p, from + 1);
    }
}

/// Trimming takes away white space at both ends, and nothing else.
pub proof fn lemma_trim_parts(s: Seq<char>) -> (r: (Seq<char>, Seq<char>))
    ensures
        s == r.0 + trim(s) + r.1,
        forall|i: int| 0 <= i < r.0.len() ==> is_space(#[trigger] r.0[i]),
        forall|i: int| 0 <= i < r.1.len() ==> is_space(#[trigger] r.1[i]),
        trim(s).len() > 0 ==> !is_space(trim(s)[0]) && !is_space(trim(s).last()),
{
    lemma_trim_ends(s);
    let a = lemma_trim_start_part(s);
    let b = lemma_trim_end_part(trim_start(s));
    assert(s =~= a + trim(s) + b);
    (a, b)
}

proof fn lemma_trim_start_part(s: Seq<char>) -> (a: Seq<char>)
    ensures
        s == a + trim_start(s),
        forall|i: int| 0 <= i < a.len() ==> is_space(#[trigger] a[i]),
    decreases s.len(),
{
    if s.len() > 0 && is_space(s[0]) {
        let d = s.drop_first();
        let a = lemma_trim_start_part(d);
        let r = seq![s[0]] + a;
        assert(s =~= seq![s[0]] + d);
        assert(seq![s[0]] + (a + trim_start(d)) =~= r + trim_start(d));
        assert forall|i: int| 0 <= i < r.len() implies is_space(#[trigger] r[i]) by {
            if i > 0 {
                assert(r[i] == a[i - 1]);
            }
        }
        r
    } else {
        assert(s =~= Seq::<char>::empty() + s);
        Seq::empty()
    }
}

proof fn lemma_trim_end_part(s: Seq<char>) -> (b: Seq<char>)
    ensures
        s == trim_end(s) + b,
        forall|i: int| 0 <= i < b.len() ==> is_space(#[trigger] b[i]),
    decreases s.len(),
{
    if s.len() > 0 && is_space(s.last()) {
        let d = s.drop_last();
        let b = lemma_trim_end_part(d);
        assert(s =~= d.push(s.last()));
        assert((trim_end(d) + b).push(s.last()) =~= trim_end(d) + b.push(s.last()));
        b.push(s.last())
    } else {
        assert(s =~= s + Seq::<char>::empty());
        Seq::empty()
    }
}

/// One text joined is that text, and none is no text.
pub proof fn lemma_join_one(a: Seq<char>, sep: Seq<char>)
    ensures
        join(seq![a], sep) == a,
        join(Seq::empty(), sep) == Seq::<char>::empty(),
{
}

/// Joining one more text puts the separator and the text behind the others.
pub proof fn lemma_join_more(parts: Seq<Seq<char>>, a: Seq<char>, sep: Seq<char>)
    requires
        parts.len() > 0,
    ensures
        join(parts.push(a), sep) == join(parts, sep) + sep + a,
{
    assert(parts.push(a).drop_last() =~= parts);
}

/// The pieces of a text, joined by the character between them, are the text.
pub proof fn lemma_join_split(s: Seq<char>, c: char)
    ensures
        join(split(s, c), seq![c]) == s,
        forall|i: int|
            0 <= i < split(s, c).len() ==> !(#[trigger] split(s, c)[i]).contains(c),
    decreases s.len(),
{
    lemma_split_nonempty(s, c);
    if s.len() == 0 {
        lemma_join_one(Seq::empty(), seq![c]);
        assert(s =~= Seq::<char>::empty());
    } else {
        let d = s.drop_last();
        let head = split(d, c);
        lemma_split_nonempty(d, c);
        lemma_join_split(d, c);
        if s.last() == c {
            lemma_join_more(head, Seq::empty(), seq![c]);
            assert(s =~= d + seq![c] + Seq::<char>::empty());
        } else {
            let grown = head.last().push(s.last());
            let all = split(s, c);
            assert(!head[head.len() - 1].contains(c));
            assert(!grown.contains(c)) by {
                if grown.contains(c) {
                    let k = grown.index_of(c);
                    if k < head.last().len() {
                        assert(head.last()[k] == c);
                    }
                }
            }
            if head.len() == 1 {
                assert(all =~= seq![grown]);
                assert(head =~= seq![head[0]]);
                lemma_join_one(grown, seq![c]);
                lemma_join_one(head[0], seq![c]);
                assert(s =~= grown);
            } else {
                let front = head.drop_last();
                assert(all =~= front.push(grown));
                assert(head =~= front.push(head.last()));
                lemma_join_more(front, grown, seq![c]);
                lemma_join_more(front, head.last(), seq![c]);
                let start = join(front, seq![c]) + seq![c];
                assert(s =~= d.push(s.last()));
                assert((start + head.last()).push(s.last()) =~= start + grown);
            }
        }
    }
}

/// Replacing a character by another changes each of its occurrences, and
/// nothing else.
pub proof fn lemma_replace_char(s: Seq<char>, c: char, d: char)
    ensures
        replace(s, c, seq![d]).len() == s.len(),
        forall|i: int|
            0 <= i < s.len() ==> #[trigger] replace(s, c, seq![d])[i] == (if s[i] == c {
                d
            } else {
                s[i]
            }),
    decreases s.len(),
{
    if s.len() > 0 {
        lemma_replace_char(s.drop_last(), c, d);
    }
}

/// Replacing goes character by character.
pub proof fn lemma_replace_parts(a: Seq<char>, b: Seq<char>, x: char, c: char, with: Seq<char>)
    ensures
        replace(a + b, c, with) == replace(a, c, with) + replace(b, c, with),
        replace(seq![c], c, with) == with,
        x != c ==> replace(seq![x], c, with) == seq![x],
    decreases b.len(),
{
    assert(seq![c].drop_last() =~= Seq::<char>::empty());
    assert(seq![x].drop_last() =~= Seq::<char>::empty());
    assert(replace(Seq::empty(), c, with) =~= Seq::<char>::empty());
    assert(replace(seq![c], c, with) =~= with);
    if x != c {
        assert(replace(seq![x], c, with) =~= seq![x]);
    }
    if b.len() == 0 {
        assert(a + b =~= a);
        assert(replace(a, c, with) + replace(b, c, with) =~= replace(a, c, with));
    } else {
        lemma_replace_parts(a, b.drop_last(), x, c, with);
        assert((a + b).drop_last() =~= a + b.drop_last());
        assert((a + b).last() == b.last());
        assert(replace(a + b, c, with) =~= replace(a, c, with) + replace(b, c, with));
    }
}

/// A safe name has `_` wherever the name has a slash or a space, and is the
/// name everywhere else.
pub proof fn lemma_safe_name(s: Seq<char>)
    ensures
        safe_name(s).len() == s.len(),
        forall|i: int|
            0 <= i < s.len() ==> #[trigger] safe_name(s)[i] == (if s[i] == '/' || s[i] == ' ' {
                '_'
            } else {
                s[i]
            }),
{
    reveal_strlit("_");
    assert("_"@ =~= seq!['_']);
    lemma_replace_char(s, '/', '_');
    lemma_replace_char(replace(s, '/', "_"@), ' ', '_');
}

/// White space around text is taken away, whatever it is made of.
pub proof fn lemma_trim_between(a: Seq<char>, s: Seq<char>, b: Seq<char>)
    requires
        forall|i: int| 0 <= i < a.len() ==> is_space(#[trigger] a[i]),
        forall|i: int| 0 <= i < b.len() ==> is_space(#[trigger] b[i]),
        s.len() > 0 ==> !is_space(s[0]) && !is_space(s.last()),
    ensures
        trim(a + s + b) == s,
    decreases a.len() + b.len(),
{
    let t = a + s + b;
    if a.len() > 0 {
        assert(t[0] == a[0]);
        assert(t.drop_first() =~= a.drop_first() + s + b);
        assert forall|i: int| 0 <= i < a.drop_first().len() implies is_space(
            #[trigger] a.drop_first()[i],
        ) by {
            assert(a.drop_first()[i] == a[i + 1]);
        }
        lemma_trim_between(a.drop_first(), s, b);
    } else if s.len() > 0 {
        assert(t =~= s + b);
        assert(t[0] == s[0]);
        lemma_trim_end_spaces(s, b);
    } else {
        assert(t =~= b);
        lemma_trim_start_spaces(b);
        assert(trim_end(Seq::<char>::empty()) =~= Seq::<char>::empty());
        assert(s =~= Seq::<char>::empty());
    }
}

proof fn lemma_trim_start_spaces(b: Seq<char>)
    requires
        forall|i: int| 0 <= i < b.len() ==> is_space(#[trigger] b[i]),
    ensures
        trim_start(b) == Seq::<char>::empty(),
    decreases b.len(),
{
    if b.len() > 0 {
        assert(is_space(b[0]));
        assert forall|i: int| 0 <= i < b.drop_first().len() implies is_space(
            #[trigger] b.drop_first()[i],
        ) by {
            assert(b.drop_first()[i] == b[i + 1]);
        }
        lemma_trim_start_spaces(b.drop_first());
    } else {
        assert(b =~= Seq::<char>::empty());
    }
}

proof fn lemma_trim_end_spaces(s: Seq<char>, b: Seq<char>)
    requires
        s.len() > 0,
        !is_space(s.last()),
        forall|i: int| 0 <= i < b.len() ==> is_space(#[trigger] b[i]),
    ensures
        trim_end(s + b) == s,
    decreases b.len(),
{
    if b.len() > 0 {
        assert((s + b).last() == b[b.len() - 1]);
        assert((s + b).drop_last() =~= s + b.drop_last());
        lemma_trim_end_spaces(s, b.drop_last());
    } else {
        assert(s + b =~= s);
    }
}

} // verus!
