//! Maps from strings, kept in the order in which their keys came.
use vstd::prelude::*;

use crate::text::str_eq;

verus! {

/// The texts other than `k`.
pub open spec fn other_than(k: Seq<char>) -> spec_fn(Seq<char>) -> bool {
    |x: Seq<char>| x != k
}

/// What a string map holds: the value of each key, and the keys in the order
/// in which they were first inserted.
#[verifier::ext_equal]
pub struct Table<V> {
    pub map: Map<Seq<char>, V>,
    pub order: Seq<Seq<char>>,
}

impl<V> Table<V> {
    /// The table without entries.
    pub open spec fn empty() -> Table<V> {
        Table { map: Map::empty(), order: Seq::empty() }
    }

    /// The keys in order are the keys of the map, each once.
    pub open spec fn wf(self) -> bool {
        &&& self.order.no_duplicates()
        &&& forall|k: Seq<char>| #[trigger] self.map.contains_key(k) <==> self.order.contains(k)
    }

    /// The value of a key.
    pub open spec fn get(self, k: Seq<char>) -> Option<V> {
        if self.map.contains_key(k) {
            Some(self.map[k])
        } else {
            None
        }
    }

    /// The table with `k` set to `v`; a new key comes last.
    pub open spec fn insert(self, k: Seq<char>, v: V) -> Table<V> {
        Table {
            map: self.map.insert(k, v),
            order: if self.map.contains_key(k) {
                self.order
            } else {
                self.order.push(k)
            },
        }
    }

    /// The table without `k`.
    pub open spec fn remove(self, k: Seq<char>) -> Table<V> {
        Table { map: self.map.remove(k), order: self.order.filter(other_than(k)) }
    }

    /// The table without the first `n` of the given keys.
    pub open spec fn remove_first(self, keys: Seq<Seq<char>>, n: int) -> Table<V>
        decreases n,
    {
        if n <= 0 {
            self
        } else {
            self.remove_first(keys, n - 1).remove(keys[n - 1])
        }
    }

    /// The table without the given keys.
    pub open spec fn remove_all(self, keys: Seq<Seq<char>>) -> Table<V> {
        self.remove_first(keys, keys.len() as int)
    }

    /// Removing keys leaves every other key as it was.
    pub proof fn lemma_remove_first_get(self, keys: Seq<Seq<char>>, n: int, k: Seq<char>)
        requires
            0 <= n <= keys.len(),
        ensures
            self.remove_first(keys, n).get(k) == (if exists|i: int|
                0 <= i < n && #[trigger] keys[i] == k {
                None
            } else {
                self.get(k)
            }),
        decreases n,
    {
        if n > 0 {
            self.lemma_remove_first_get(keys, n - 1, k);
            if keys[n - 1] != k {
                assert((exists|i: int| 0 <= i < n && #[trigger] keys[i] == k) == (exists|i: int|
                    0 <= i < n - 1 && #[trigger] keys[i] == k));
            }
        }
    }

    /// The table with the entries of `other` set one after the other.
    pub open spec fn insert_all(self, other: Table<V>) -> Table<V> {
        self.insert_first(other, other.order.len() as int)
    }

    /// The table with the first `n` entries of `other` set.
    pub open spec fn insert_first(self, other: Table<V>, n: int) -> Table<V>
        decreases n,
    {
        if n <= 0 {
            self
        } else {
            self.insert_first(other, n - 1).insert(other.order[n - 1], other.map[other.order[n - 1]])
        }
    }

    /// The values in the order of their keys.
    pub open spec fn values(self) -> Seq<V> {
        Seq::new(self.order.len(), |i: int| self.map[self.order[i]])
    }

    /// Inserting keeps the keys of the map and the keys in order the same.
    pub proof fn lemma_insert_wf(self, k: Seq<char>, v: V)
        requires
            self.wf(),
        ensures
            self.insert(k, v).wf(),
    {
        let t = self.insert(k, v);
        assert forall|x: Seq<char>| #[trigger] t.map.contains_key(x) <==> t.order.contains(x) by {
            if !self.map.contains_key(k) {
                if self.order.contains(x) {
                    let i = self.order.index_of(x);
                    assert(t.order[i] == x);
                }
                assert(t.order[self.order.len() as int] == k);
            }
        }
    }

    /// Setting all entries of `other` gives each of its keys its value there
    /// and leaves every other key as it was.
    pub proof fn lemma_insert_all_get(self, other: Table<V>, k: Seq<char>)
        requires
            other.wf(),
        ensures
            self.insert_all(other).get(k) == (if other.map.contains_key(k) {
                other.get(k)
            } else {
                self.get(k)
            }),
    {
        self.lemma_insert_first_get(other, other.order.len() as int, k);
        if other.order.contains(k) {
            let i = other.order.index_of(k);
            assert(other.order[i] == k);
        }
    }

    /// Setting entries keeps the keys of the map and the keys in order the same.
    pub proof fn lemma_insert_all_wf(self, other: Table<V>)
        requires
            self.wf(),
        ensures
            self.insert_all(other).wf(),
    {
        self.lemma_insert_first_wf(other, other.order.len() as int);
    }

    proof fn lemma_insert_first_wf(self, other: Table<V>, n: int)
        requires
            self.wf(),
        ensures
            self.insert_first(other, n).wf(),
        decreases n,
    {
        if n > 0 {
            self.lemma_insert_first_wf(other, n - 1);
            self.insert_first(other, n - 1).lemma_insert_wf(
                other.order[n - 1],
                other.map[other.order[n - 1]],
            );
        }
    }

    /// A key that is set has its new value, every other key the value it had;
    /// a key that is removed has none.
    pub proof fn lemma_get_after(self, k: Seq<char>, v: V, x: Seq<char>)
        ensures
            self.insert(k, v).get(x) == (if x == k {
                Some(v)
            } else {
                self.get(x)
            }),
            self.remove(k).get(x) == (if x == k {
                None
            } else {
                self.get(x)
            }),
            Table::<V>::empty().get(x) is None,
    {
    }

    /// A key that was there keeps its place, a new one comes last.
    pub proof fn lemma_order_after(self, k: Seq<char>, v: V)
        requires
            self.wf(),
        ensures
            self.order.contains(k) ==> self.insert(k, v).order == self.order,
            !self.order.contains(k) ==> self.insert(k, v).order == self.order.push(k),
            self.values().len() == self.order.len(),
            forall|i: int|
                0 <= i < self.order.len() ==> self.get(self.order[i]) == Some(
                    #[trigger] self.values()[i],
                ),
    {
        assert forall|i: int| 0 <= i < self.order.len() implies self.get(self.order[i]) == Some(
            #[trigger] self.values()[i],
        ) by {
            assert(self.order.contains(self.order[i]));
        }
    }

    proof fn lemma_insert_first_get(self, other: Table<V>, n: int, k: Seq<char>)
        requires
            0 <= n <= other.order.len(),
        ensures
            self.insert_first(other, n).get(k) == (if exists|i: int|
                0 <= i < n && #[trigger] other.order[i] == k {
                Some(other.map[k])
            } else {
                self.get(k)
            }),
        decreases n,
    {
        if n > 0 {
            self.lemma_insert_first_get(other, n - 1, k);
            if other.order[n - 1] != k {
                assert((exists|i: int| 0 <= i < n && #[trigger] other.order[i] == k) == (exists|
                    i: int,
                |
                    0 <= i < n - 1 && #[trigger] other.order[i] == k));
            }
        }
    }
}

/// Values that can be copied without changing what they hold.
pub trait DeepClone: DeepView + Sized {
    fn deep_clone(&self) -> (r: Self)
        ensures
            r.deep_view() == self.deep_view(),
    ;
}

impl DeepClone for String {
    fn deep_clone(&self) -> (r: Self) {
        self.clone()
    }
}

impl DeepClone for u64 {
    fn deep_clone(&self) -> (r: Self) {
        *self
    }
}

impl DeepClone for usize {
    fn deep_clone(&self) -> (r: Self) {
        *self
    }
}

impl<T: DeepClone> DeepClone for Option<T> {
    fn deep_clone(&self) -> (r: Self) {
        match self {
            Some(x) => Some(x.deep_clone()),
            None => None,
        }
    }
}

impl<T: DeepClone> DeepClone for Vec<T> {
    fn deep_clone(&self) -> (r: Self) {
        let mut out: Vec<T> = Vec::new();
        let mut i: usize = 0;
        while i < self.len()
            invariant
                i <= self@.len(),
                out@.len() == i,
                forall|k: int| 0 <= k < i ==> (#[trigger] out@[k]).deep_view() == self@[k].deep_view(),
            decreases self@.len() - i,
        {
            out.push(self[i].deep_clone());
            i = i + 1;
        }
        assert(out.deep_view() =~= self.deep_view());
        out
    }
}

/// A map from strings to values of type `V`.
///
/// Keys are distinct. Entries stay in the order in which their keys came.
#[derive(Debug)]
pub struct StringMap<V> {
    entries: Vec<(String, V)>,
}

impl<V: DeepView> DeepView for StringMap<V> {
    type V = Table<V::V>;

    closed spec fn deep_view(&self) -> Table<V::V> {
        entries_table(self.entries@)
    }
}

spec fn entry_keys<V>(entries: Seq<(String, V)>) -> Seq<Seq<char>> {
    Seq::new(entries.len(), |i: int| entries[i].0@)
}

spec fn entries_table<V: DeepView>(entries: Seq<(String, V)>) -> Table<V::V> {
    Table {
        map: Map::new(
            |k: Seq<char>| entry_keys(entries).contains(k),
            |k: Seq<char>| entries[entry_keys(entries).index_of(k)].1.deep_view(),
        ),
        order: entry_keys(entries),
    }
}

proof fn lemma_entry<V: DeepView>(entries: Seq<(String, V)>, i: int)
    requires
        entry_keys(entries).no_duplicates(),
        0 <= i < entries.len(),
    ensures
        entries_table(entries).map.contains_key(entries[i].0@),
        entries_table(entries).map[entries[i].0@] == entries[i].1.deep_view(),
        entries_table(entries).order[i] == entries[i].0@,
{
    let keys = entry_keys(entries);
    assert(keys[i] == entries[i].0@);
    assert(keys.contains(keys[i]));
    let j = keys.index_of(keys[i]);
    assert(keys[j] == keys[i]);
    assert(j == i);
}

proof fn lemma_entries_wf<V: DeepView>(entries: Seq<(String, V)>)
    requires
        entry_keys(entries).no_duplicates(),
    ensures
        entries_table(entries).wf(),
{
}

proof fn lemma_same_table<V: DeepView>(a: Seq<(String, V)>, t: Table<V::V>)
    requires
        entry_keys(a).no_duplicates(),
        t.wf(),
        t.order == entry_keys(a),
        forall|i: int| 0 <= i < a.len() ==> t.map[#[trigger] a[i].0@] == a[i].1.deep_view(),
    ensures
        entries_table(a) == t,
{
    let u = entries_table(a);
    assert forall|k: Seq<char>| u.map.contains_key(k) implies #[trigger] u.map[k] == t.map[k] by {
        let i = entry_keys(a).index_of(k);
        assert(entry_keys(a)[i] == k);
        lemma_entry(a, i);
        assert(a[i].0@ == k);
    }
    assert(u.map =~= t.map);
}

impl<V> StringMap<V> {
    #[verifier::type_invariant]
    spec fn keys_distinct(self) -> bool {
        entry_keys(self.entries@).no_duplicates()
    }
}

impl<V: DeepView> StringMap<V> {
    /// A map without entries.
    pub fn new() -> (r: Self)
        ensures
            r.deep_view() == Table::<V::V>::empty(),
    {
        let r = StringMap { entries: Vec::new() };
        assert(r.deep_view() =~= Table::<V::V>::empty());
        r
    }

    /// The number of entries.
    pub fn len(&self) -> (r: usize)
        ensures
            r == self.deep_view().order.len(),
            self.deep_view().wf(),
    {
        proof {
            use_type_invariant(&*self);
            lemma_entries_wf(self.entries@);
        }
        self.entries.len()
    }

    /// Whether there are no entries.
    pub fn is_empty(&self) -> (r: bool)
        ensures
            r == (self.deep_view().order.len() == 0),
    {
        self.entries.len() == 0
    }

    /// The key at a position.
    pub fn key_at(&self, i: usize) -> (r: &String)
        requires
            i < self.deep_view().order.len(),
        ensures
            r@ == self.deep_view().order[i as int],
            self.deep_view().map.contains_key(r@),
    {
        proof {
            use_type_invariant(&*self);
            lemma_entry(self.entries@, i as int);
        }
        &self.entries[i].0
    }

    /// The value at a position.
    pub fn value_at(&self, i: usize) -> (r: &V)
        requires
            i < self.deep_view().order.len(),
        ensures
            r.deep_view() == self.deep_view().map[self.deep_view().order[i as int]],
            self.deep_view().map.contains_key(self.deep_view().order[i as int]),
    {
        proof {
            use_type_invariant(&*self);
            lemma_entry(self.entries@, i as int);
        }
        &self.entries[i].1
    }

    fn position(&self, key: &str) -> (r: Option<usize>)
        ensures
            match r {
                Some(i) => i < self.entries@.len() && self.entries@[i as int].0@ == key@,
                None => !entry_keys(self.entries@).contains(key@),
            },
    {
        let mut i: usize = 0;
        while i < self.entries.len()
            invariant
                i <= self.entries@.len(),
                forall|k: int| 0 <= k < i ==> (#[trigger] self.entries@[k]).0@ != key@,
            decreases self.entries@.len() - i,
        {
            if str_eq(self.entries[i].0.as_str(), key) {
                return Some(i);
            }
            i = i + 1;
        }
        None
    }

    /// The value of a key.
    pub fn get(&self, key: &str) -> (r: Option<&V>)
        ensures
            match r {
                Some(v) => self.deep_view().get(key@) == Some(v.deep_view()),
                None => self.deep_view().get(key@) is None,
            },
    {
        match self.position(key) {
            Some(i) => {
                proof {
                    use_type_invariant(&*self);
                    lemma_entry(self.entries@, i as int);
                }
                Some(&self.entries[i].1)
            },
            None => None,
        }
    }

    /// Whether a key has a value.
    pub fn contains_key(&self, key: &str) -> (r: bool)
        ensures
            r == self.deep_view().map.contains_key(key@),
    {
        self.get(key).is_some()
    }

    /// Sets the value of a key.
    pub fn insert(&mut self, key: String, value: V)
        ensures
            final(self).deep_view() == old(self).deep_view().insert(key@, value.deep_view()),
    {
        proof {
            use_type_invariant(&*self);
        }
        let ghost before = self.entries@;
        let ghost t = entries_table(before).insert(key@, value.deep_view());
        proof {
            lemma_entries_wf(before);
            entries_table(before).lemma_insert_wf(key@, value.deep_view());
        }
        let found = self.position(key.as_str());
        let mut entries: Vec<(String, V)> = Vec::new();
        std::mem::swap(&mut entries, &mut self.entries);
        match found {
            Some(i) => {
                let ghost k = before[i as int].0@;
                proof {
                    lemma_entry(before, i as int);
                }
                entries[i] = (key, value);
                assert(entry_keys(entries@) =~= entry_keys(before));
                assert forall|j: int| 0 <= j < entries@.len() implies t.map[#[trigger] entries@[j].0@]
                    == entries@[j].1.deep_view() by {
                    lemma_entry(before, j);
                    assert(entry_keys(before)[j] == before[j].0@);
                    assert(entry_keys(before)[i as int] == k);
                }
            },
            None => {
                entries.push((key, value));
                assert(entry_keys(entries@) =~= entry_keys(before).push(key@));
                assert forall|j: int| 0 <= j < entries@.len() implies t.map[#[trigger] entries@[j].0@]
                    == entries@[j].1.deep_view() by {
                    if j < before.len() {
                        lemma_entry(before, j);
                        assert(entry_keys(before)[j] == before[j].0@);
                    }
                }
            },
        }
        proof {
            lemma_same_table(entries@, t);
        }
        self.entries = entries;
    }

    /// Takes a key and its value out of the map.
    pub fn remove(&mut self, key: &str) -> (r: Option<V>)
        ensures
            final(self).deep_view() == old(self).deep_view().remove(key@),
            match r {
                Some(v) => old(self).deep_view().get(key@) == Some(v.deep_view()),
                None => old(self).deep_view().get(key@) is None,
            },
    {
        proof {
            use_type_invariant(&*self);
        }
        let ghost before = self.entries@;
        let ghost keys = entry_keys(before);
        let found = self.position(key);
        let mut entries: Vec<(String, V)> = Vec::new();
        std::mem::swap(&mut entries, &mut self.entries);
        match found {
            Some(i) => {
                proof {
                    lemma_entry(before, i as int);
                    lemma_filter_one(keys, i as int);
                }
                let (_, value) = entries.remove(i);
                assert(entry_keys(entries@) =~= keys.remove(i as int));
                proof {
                    let t = entries_table(before).remove(key@);
                    assert(keys[i as int] == key@);
                    assert forall|k: Seq<char>| #[trigger] t.map.contains_key(k) <==> t.order.contains(
                        k,
                    ) by {
                        if keys.contains(k) && k != key@ {
                            let j = keys.index_of(k);
                            let m = if j < i {
                                j
                            } else {
                                j - 1
                            };
                            assert(keys.remove(i as int)[m] == k);
                        }
                        if t.order.contains(k) {
                            let m = t.order.index_of(k);
                            let j = if m < i {
                                m
                            } else {
                                m + 1
                            };
                            assert(keys[j] == k);
                        }
                    }
                    assert forall|j: int| 0 <= j < entries@.len() implies t.map[#[trigger] entries@[j].0@]
                        == entries@[j].1.deep_view() by {
                        let m = if j < i {
                            j
                        } else {
                            j + 1
                        };
                        assert(entries@[j] == before[m]);
                        lemma_entry(before, m);
                        assert(keys[m] == before[m].0@);
                    }
                    lemma_same_table(entries@, t);
                }
                self.entries = entries;
                Some(value)
            },
            None => {
                proof {
                    let t = entries_table(before);
                    lemma_filter_all(keys, key@);
                    assert(t.map.remove(key@) =~= t.map);
                    assert(t.remove(key@) =~= t);
                }
                self.entries = entries;
                None
            },
        }
    }
}

proof fn lemma_filter_all(keys: Seq<Seq<char>>, k: Seq<char>)
    requires
        !keys.contains(k),
    ensures
        keys.filter(other_than(k)) == keys,
    decreases keys.len(),
{
    reveal(Seq::filter);
    if keys.len() > 0 {
        assert(keys.last() == keys[keys.len() - 1]);
        assert(!keys.drop_last().contains(k)) by {
            if keys.drop_last().contains(k) {
                let i = keys.drop_last().index_of(k);
                assert(keys[i] == k);
            }
        }
        lemma_filter_all(keys.drop_last(), k);
        assert(keys.drop_last().push(keys.last()) =~= keys);
    } else {
        assert(keys.filter(other_than(k)) =~= keys);
    }
}

proof fn lemma_filter_one(keys: Seq<Seq<char>>, i: int)
    requires
        keys.no_duplicates(),
        0 <= i < keys.len(),
    ensures
        keys.filter(other_than(keys[i])) == keys.remove(i),
    decreases keys.len(),
{
    reveal(Seq::filter);
    let k = keys[i];
    if i == keys.len() - 1 {
        assert(!keys.drop_last().contains(k));
        lemma_filter_all(keys.drop_last(), k);
        assert(keys.remove(i) =~= keys.drop_last());
    } else {
        lemma_filter_one(keys.drop_last(), i);
        assert(keys.last() != k);
        assert(keys.remove(i) =~= keys.drop_last().remove(i).push(keys.last()));
    }
}

impl<V: DeepClone> DeepClone for StringMap<V> {
    fn deep_clone(&self) -> (r: Self) {
        proof {
            use_type_invariant(&*self);
            lemma_entries_wf(self.entries@);
        }
        let mut out: Vec<(String, V)> = Vec::new();
        let mut i: usize = 0;
        while i < self.entries.len()
            invariant
                i <= self.entries@.len(),
                out@.len() == i,
                forall|k: int|
                    0 <= k < i ==> (#[trigger] out@[k]).0@ == self.entries@[k].0@
                        && out@[k].1.deep_view() == self.entries@[k].1.deep_view(),
            decreases self.entries@.len() - i,
        {
            let e = &self.entries[i];
            out.push((e.0.clone(), e.1.deep_clone()));
            i = i + 1;
        }
        assert(entry_keys(out@) =~= entry_keys(self.entries@));
        proof {
            assert forall|j: int| 0 <= j < out@.len() implies entries_table(
                self.entries@,
            ).map[#[trigger] out@[j].0@] == out@[j].1.deep_view() by {
                lemma_entry(self.entries@, j);
            }
            lemma_same_table(out@, entries_table(self.entries@));
        }
        StringMap { entries: out }
    }
}

impl<V: DeepClone> StringMap<V> {
    /// Sets a copy of every entry of another map.
    pub fn insert_all(&mut self, other: &StringMap<V>)
        ensures
            final(self).deep_view() == old(self).deep_view().insert_all(other.deep_view()),
    {
        let n: usize = other.len();
        let mut i: usize = 0;
        while i < n
            invariant
                n == other.deep_view().order.len(),
                i <= n,
                self.deep_view() == old(self).deep_view().insert_first(other.deep_view(), i as int),
            decreases n - i,
        {
            let value = other.value_at(i).deep_clone();
            self.insert(other.key_at(i).clone(), value);
            i = i + 1;
        }
    }
}

impl<V: DeepClone> Clone for StringMap<V> {
    fn clone(&self) -> (r: Self)
        ensures
            r.deep_view() == self.deep_view(),
    {
        self.deep_clone()
    }
}

} // verus!
