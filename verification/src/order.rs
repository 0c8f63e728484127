//! The order of texts: by code point, from the first character on.
use vstd::prelude::*;
use vstd::relations::*;

use crate::text::to_chars;

verus! {

/// Whether `a` comes before `b` in the order by code point, or equals it.
pub open spec fn lex_le(a: Seq<char>, b: Seq<char>) -> bool
    decreases a.len(),
{
    if a.len() == 0 {
        true
    } else if b.len() == 0 {
        false
    } else if a[0] == b[0] {
        lex_le(a.drop_first(), b.drop_first())
    } else {
        (a[0] as int) < (b[0] as int)
    }
}

/// `lex_le` as a relation.
pub open spec fn text_order() -> spec_fn(Seq<char>, Seq<char>) -> bool {
    |a: Seq<char>, b: Seq<char>| lex_le(a, b)
}

/// The texts of `s` in order.
pub open spec fn sort_texts(s: Seq<Seq<char>>) -> Seq<Seq<char>> {
    s.sort_by(text_order())
}

proof fn lemma_le_reflexive(a: Seq<char>)
    ensures
        lex_le(a, a),
    decreases a.len(),
{
    if a.len() > 0 {
        lemma_le_reflexive(a.drop_first());
    }
}

proof fn lemma_le_total(a: Seq<char>, b: Seq<char>)
    ensures
        lex_le(a, b) || lex_le(b, a),
    decreases a.len(),
{
    if a.len() > 0 && b.len() > 0 && a[0] == b[0] {
        lemma_le_total(a.drop_first(), b.drop_first());
    }
}

proof fn lemma_le_antisymmetric(a: Seq<char>, b: Seq<char>)
    requires
        lex_le(a, b),
        lex_le(b, a),
    ensures
        a == b,
    decreases a.len(),
{
    if a.len() == 0 || b.len() == 0 {
        assert(a =~= b);
    } else {
        lemma_le_antisymmetric(a.drop_first(), b.drop_first());
        assert(a =~= seq![a[0]] + a.drop_first());
        assert(b =~= seq![b[0]] + b.drop_first());
    }
}

proof fn lemma_le_transitive(a: Seq<char>, b: Seq<char>, c: Seq<char>)
    requires
        lex_le(a, b),
        lex_le(b, c),
    ensures
        lex_le(a, c),
    decreases a.len(),
{
    if a.len() > 0 && b.len() > 0 && c.len() > 0 && a[0] == b[0] && b[0] == c[0] {
        lemma_le_transitive(a.drop_first(), b.drop_first(), c.drop_first());
    }
}

/// The order of texts is total.
pub proof fn lemma_text_order_total()
    ensures
        total_ordering(text_order()),
{
    let r = text_order();
    assert forall|x: Seq<char>| #[trigger] r(x, x) by {
        lemma_le_reflexive(x);
    }
    assert forall|x: Seq<char>, y: Seq<char>| #[trigger] r(x, y) && #[trigger] r(y, x) implies x
        == y by {
        lemma_le_antisymmetric(x, y);
    }
    assert forall|x: Seq<char>, y: Seq<char>, z: Seq<char>| #[trigger]
        r(x, y) && #[trigger] r(y, z) implies r(x, z) by {
        lemma_le_transitive(x, y, z);
    }
    assert forall|x: Seq<char>, y: Seq<char>| #[trigger] r(x, y) || #[trigger] r(y, x) by {
        lemma_le_total(x, y);
    }
}

/// Sorting forgets the order in which the texts were given.
pub proof fn lemma_sort_ignores_order(a: Seq<Seq<char>>, b: Seq<Seq<char>>)
    requires
        a.to_multiset() == b.to_multiset(),
    ensures
        sort_texts(a) == sort_texts(b),
{
    lemma_text_order_total();
    a.lemma_sort_by_ensures(text_order());
    b.lemma_sort_by_ensures(text_order());
    vstd::seq_lib::lemma_sorted_unique(sort_texts(a), sort_texts(b), text_order());
}

/// Sorting gives the same texts, as many of them.
pub proof fn lemma_sort_keeps(s: Seq<Seq<char>>, x: Seq<char>)
    ensures
        sort_texts(s).len() == s.len(),
        sort_texts(s).contains(x) <==> s.contains(x),
{
    lemma_text_order_total();
    s.lemma_sort_by_ensures(text_order());
    s.to_multiset_ensures();
    sort_texts(s).to_multiset_ensures();
    assert(s.to_multiset().count(x) == sort_texts(s).to_multiset().count(x));
}

/// Whether one string comes before another in the order by code point, or
/// equals it.
pub fn str_le(a: &str, b: &str) -> (r: bool)
    ensures
        r == lex_le(a@, b@),
{
    let x = to_chars(a);
    let y = to_chars(b);
    let mut i: usize = 0;
    assert(x@.skip(0) =~= x@);
    assert(y@.skip(0) =~= y@);
    loop
        invariant
            x@ == a@,
            y@ == b@,
            i <= x@.len(),
            i <= y@.len(),
            lex_le(a@, b@) == lex_le(x@.skip(i as int), y@.skip(i as int)),
        decreases x@.len() - i,
    {
        if i == x.len() {
            return true;
        }
        if i == y.len() {
            return false;
        }
        assert(x@.skip(i as int)[0] == x@[i as int]);
        assert(y@.skip(i as int)[0] == y@[i as int]);
        if x[i] != y[i] {
            return x[i] < y[i];
        }
        assert(x@.skip(i as int).drop_first() =~= x@.skip(i + 1));
        assert(y@.skip(i as int).drop_first() =~= y@.skip(i + 1));
        i = i + 1;
    }
}

/// The strings of a list in order.
pub fn sort_strings(v: &Vec<String>) -> (r: Vec<String>)
    ensures
        r.deep_view() == sort_texts(v.deep_view()),
{
    let ghost le = text_order();
    let ghost all = v.deep_view();
    let mut out: Vec<String> = Vec::new();
    let mut i: usize = 0;
    proof {
        lemma_text_order_total();
        assert(all.take(0) =~= out.deep_view());
    }
    while i < v.len()
        invariant
            i <= v@.len(),
            all == v.deep_view(),
            le == text_order(),
            total_ordering(le),
            sorted_by(out.deep_view(), le),
            out.deep_view().to_multiset() == all.take(i as int).to_multiset(),
        decreases v@.len() - i,
    {
        let mut k: usize = 0;
        while k < out.len() && str_le(out[k].as_str(), v[i].as_str())
            invariant
                i < v@.len(),
                k <= out@.len(),
                le == text_order(),
                forall|j: int| 0 <= j < k ==> #[trigger] le(out.deep_view()[j], v@[i as int]@),
            decreases out@.len() - k,
        {
            k = k + 1;
        }
        let ghost before = out.deep_view();
        let ghost x = v@[i as int]@;
        assert(k < before.len() ==> le(x, before[k as int])) by {
            if k < before.len() {
                assert(!le(before[k as int], x));
                assert(le(before[k as int], x) || le(x, before[k as int]));
            }
        }
        out.insert(k, v[i].clone());
        assert(out.deep_view() =~= before.insert(k as int, x));
        assert forall|a: int, b: int| 0 <= a < b < out.deep_view().len() implies #[trigger] le(
            out.deep_view()[a],
            out.deep_view()[b],
        ) by {
            let s = out.deep_view();
            if a < k {
                assert(s[a] == before[a]);
                if b < k {
                    assert(s[b] == before[b]);
                } else if b == k {
                } else {
                    assert(s[b] == before[b - 1]);
                }
            } else if a == k {
                assert(s[b] == before[b - 1]);
                if b - 1 > k {
                    assert(le(before[k as int], before[b - 1]));
                    assert(le(x, before[k as int]));
                }
            } else {
                assert(s[a] == before[a - 1]);
                assert(s[b] == before[b - 1]);
            }
        }
        proof {
            broadcast use vstd::seq_lib::to_multiset_insert, vstd::seq_lib::to_multiset_build;

            assert(all.take(i + 1) =~= all.take(i as int).push(x));
            assert(before.insert(k as int, x).to_multiset() == before.to_multiset().insert(x));
            assert(all.take(i as int).push(x).to_multiset() == all.take(
                i as int,
            ).to_multiset().insert(x));
        }
        i = i + 1;
    }
    proof {
        assert(all.take(all.len() as int) =~= all);
        all.lemma_sort_by_ensures(le);
        vstd::seq_lib::lemma_sorted_unique(out.deep_view(), all.sort_by(le), le);
    }
    out
}

// ---------------------------------------------------------------------------
// Laws

/// Text comes before other text or equals it exactly if the other goes on where
/// it ends, or the first character at which they differ is smaller in it.
pub proof fn lemma_first_difference_decides(a: Seq<char>, b: Seq<char>, n: int)
    requires
        0 <= n <= a.len(),
        n <= b.len(),
        a.take(n) == b.take(n),
        n < a.len() && n < b.len() ==> a[n] != b[n],
    ensures
        lex_le(a, b) <==> n == a.len() || (n < b.len() && (a[n] as int) < (b[n] as int)),
    decreases n,
{
    if n > 0 {
        assert(a.take(n)[0] == a[0]);
        assert(b.take(n)[0] == b[0]);
        assert(a.drop_first().take(n - 1) =~= a.take(n).drop_first());
        assert(b.drop_first().take(n - 1) =~= b.take(n).drop_first());
        lemma_first_difference_decides(a.drop_first(), b.drop_first(), n - 1);
    }
}

/// Sorting puts the texts in order, each as often as it was given.
pub proof fn lemma_sort_sorts(s: Seq<Seq<char>>, i: int, j: int)
    requires
        0 <= i <= j < s.len(),
    ensures
        sort_texts(s).len() == s.len(),
        lex_le(sort_texts(s)[i], sort_texts(s)[j]),
        sort_texts(s).to_multiset() == s.to_multiset(),
{
    lemma_text_order_total();
    s.lemma_sort_by_ensures(text_order());
    lemma_sort_keeps(s, s[i]);
    if i == j {
        lemma_le_reflexive(sort_texts(s)[i]);
    } else {
        assert(text_order()(sort_texts(s)[i], sort_texts(s)[j]));
    }
}

/// One text is in order.
pub proof fn lemma_sort_one(a: Seq<char>)
    ensures
        sort_texts(seq![a]) == seq![a],
{
    let s = seq![a];
    lemma_sort_keeps(s, a);
    assert(s[0] == a);
    let r = sort_texts(s);
    assert(r.contains(a));
    assert(r[0] == a);
    assert(r =~= s);
}

/// Two texts are put in order, whichever comes first.
pub proof fn lemma_sort_two(a: Seq<char>, b: Seq<char>)
    requires
        lex_le(a, b),
        a != b,
    ensures
        sort_texts(seq![a, b]) == seq![a, b],
        sort_texts(seq![b, a]) == seq![a, b],
{
    let s = seq![a, b];
    let t = seq![b, a];
    lemma_sort_pair(s, a, b);
    lemma_sort_pair(t, a, b);
}

proof fn lemma_sort_pair(s: Seq<Seq<char>>, a: Seq<char>, b: Seq<char>)
    requires
        s.len() == 2,
        s == seq![a, b] || s == seq![b, a],
        lex_le(a, b),
        a != b,
    ensures
        sort_texts(s) == seq![a, b],
{
    lemma_sort_keeps(s, a);
    lemma_sort_keeps(s, b);
    lemma_sort_sorts(s, 0, 1);
    let r = sort_texts(s);
    assert(s.contains(a)) by {
        assert(s[0] == a || s[1] == a);
    }
    assert(s.contains(b)) by {
        assert(s[0] == b || s[1] == b);
    }
    let i = r.index_of(a);
    let j = r.index_of(b);
    assert(r[i] == a && r[j] == b);
    if i == 1 {
        assert(j == 0);
        lemma_le_antisymmetric(a, b);
    }
    assert(r =~= seq![a, b]);
}

} // verus!
