use vstd::prelude::*;

use crate::text::{chars_eq, slice_chars, to_chars};

verus! {

/// Lexicographic order of character sequences by code point (the order of
/// `String`'s `Ord`, since UTF-8 preserves code-point order).
pub open spec fn key_lt(a: Seq<char>, b: Seq<char>) -> bool
    decreases a.len(),
{
    if a.len() == 0 {
        b.len() > 0
    } else if b.len() == 0 {
        false
    } else if a[0] != b[0] {
        a[0] < b[0]
    } else {
        key_lt(a.drop_first(), b.drop_first())
    }
}

/// The value stored under `k`: the first entry with that key.
pub open spec fn lookup<V>(s: Seq<(Seq<char>, V)>, k: Seq<char>) -> Option<V>
    decreases s.len(),
{
    if s.len() == 0 {
        None
    } else if s[0].0 == k {
        Some(s[0].1)
    } else {
        lookup(s.drop_first(), k)
    }
}

/// `s` with `(k, v)` put in key order: an entry with key `k` is replaced,
/// otherwise the pair goes before the first larger key.
pub open spec fn sorted_insert<V>(s: Seq<(Seq<char>, V)>, k: Seq<char>, v: V) -> Seq<
    (Seq<char>, V),
>
    decreases s.len(),
{
    if s.len() == 0 {
        seq![(k, v)]
    } else if s[0].0 == k {
        s.update(0, (k, v))
    } else if key_lt(k, s[0].0) {
        seq![(k, v)] + s
    } else {
        seq![s[0]] + sorted_insert(s.drop_first(), k, v)
    }
}

/// `s` without its first entry with key `k`.
pub open spec fn remove_key<V>(s: Seq<(Seq<char>, V)>, k: Seq<char>) -> Seq<(Seq<char>, V)>
    decreases s.len(),
{
    if s.len() == 0 {
        s
    } else if s[0].0 == k {
        s.drop_first()
    } else {
        seq![s[0]] + remove_key(s.drop_first(), k)
    }
}

/// Keys strictly increase along the sequence.
pub open spec fn strictly_sorted<V>(s: Seq<(Seq<char>, V)>) -> bool {
    forall|i: int, j: int| 0 <= i < j < s.len() ==> key_lt(#[trigger] s[i].0, #[trigger] s[j].0)
}

pub open spec fn has_key<V>(s: Seq<(Seq<char>, V)>, k: Seq<char>) -> bool {
    exists|i: int| 0 <= i < s.len() && #[trigger] s[i].0 == k
}

// ─── Facts about the order ──────────────────────────────────────────────────

pub proof fn lemma_key_lt_irreflexive(a: Seq<char>)
    ensures
        !key_lt(a, a),
    decreases a.len(),
{
    if a.len() > 0 {
        lemma_key_lt_irreflexive(a.drop_first());
    }
}

pub proof fn lemma_key_lt_transitive(a: Seq<char>, b: Seq<char>, c: Seq<char>)
    requires
        key_lt(a, b),
        key_lt(b, c),
    ensures
        key_lt(a, c),
    decreases a.len(),
{
    if a.len() > 0 && b.len() > 0 && c.len() > 0 {
        if a[0] == b[0] && b[0] == c[0] {
            lemma_key_lt_transitive(a.drop_first(), b.drop_first(), c.drop_first());
        }
    }
}

pub proof fn lemma_key_lt_total(a: Seq<char>, b: Seq<char>)
    ensures
        a == b || key_lt(a, b) || key_lt(b, a),
    decreases a.len(),
{
    if a.len() > 0 && b.len() > 0 {
        if a[0] != b[0] {
        } else {
            lemma_key_lt_total(a.drop_first(), b.drop_first());
            if a.drop_first() == b.drop_first() {
                assert(a =~= seq![a[0]] + a.drop_first());
                assert(b =~= seq![b[0]] + b.drop_first());
            }
        }
    } else if a.len() == 0 && b.len() == 0 {
        assert(a =~= b);
    }
}

// ─── Laws of the sorted sequence ────────────────────────────────────────────

/// The keys of `sorted_insert(s, k, v)` are `k` and the keys of `s`.
proof fn lemma_insert_keys<V>(s: Seq<(Seq<char>, V)>, k: Seq<char>, v: V)
    ensures
        forall|j: int|
            0 <= j < sorted_insert(s, k, v).len() ==> #[trigger] sorted_insert(s, k, v)[j].0 == k
                || has_key(s, sorted_insert(s, k, v)[j].0),
    decreases s.len(),
{
    let t = sorted_insert(s, k, v);
    if s.len() == 0 {
    } else if s[0].0 == k {
        assert forall|j: int| 0 <= j < t.len() implies #[trigger] t[j].0 == k || has_key(s, t[j].0) by {
            if j > 0 {
                assert(t[j] == s[j]);
            }
        }
    } else if key_lt(k, s[0].0) {
        assert forall|j: int| 0 <= j < t.len() implies #[trigger] t[j].0 == k || has_key(s, t[j].0) by {
            if j > 0 {
                assert(t[j] == s[j - 1]);
            }
        }
    } else {
        let rest = s.drop_first();
        lemma_insert_keys(rest, k, v);
        assert forall|j: int| 0 <= j < t.len() implies #[trigger] t[j].0 == k || has_key(s, t[j].0) by {
            if j == 0 {
                assert(t[0] == s[0]);
            } else {
                let u = sorted_insert(rest, k, v);
                assert(t[j] == u[j - 1]);
                if u[j - 1].0 != k {
                    let i = choose|i: int| 0 <= i < rest.len() && #[trigger] rest[i].0 == u[j - 1].0;
                    assert(s[i + 1] == rest[i]);
                }
            }
        }
    }
}

/// The keys of `remove_key(s, k)` are keys of `s`.
proof fn lemma_remove_keys<V>(s: Seq<(Seq<char>, V)>, k: Seq<char>)
    ensures
        forall|j: int| 0 <= j < remove_key(s, k).len() ==> has_key(s, #[trigger] remove_key(s, k)[j].0),
    decreases s.len(),
{
    let t = remove_key(s, k);
    if s.len() == 0 {
    } else if s[0].0 == k {
        assert forall|j: int| 0 <= j < t.len() implies has_key(s, #[trigger] t[j].0) by {
            assert(t[j] == s[j + 1]);
        }
    } else {
        let rest = s.drop_first();
        lemma_remove_keys(rest, k);
        assert forall|j: int| 0 <= j < t.len() implies has_key(s, #[trigger] t[j].0) by {
            if j == 0 {
                assert(t[0] == s[0]);
            } else {
                let u = remove_key(rest, k);
                assert(t[j] == u[j - 1]);
                let i = choose|i: int| 0 <= i < rest.len() && #[trigger] rest[i].0 == u[j - 1].0;
                assert(s[i + 1] == rest[i]);
            }
        }
    }
}

proof fn lemma_lookup_absent<V>(s: Seq<(Seq<char>, V)>, k: Seq<char>)
    requires
        !has_key(s, k),
    ensures
        lookup(s, k) is None,
    decreases s.len(),
{
    if s.len() > 0 {
        assert(s[0].0 != k);
        assert forall|i: int| 0 <= i < s.drop_first().len() implies #[trigger] s.drop_first()[i].0 != k by {
            assert(s.drop_first()[i] == s[i + 1]);
        }
        lemma_lookup_absent(s.drop_first(), k);
    }
}

pub proof fn lemma_lookup_present<V>(s: Seq<(Seq<char>, V)>, k: Seq<char>)
    requires
        lookup(s, k) is Some,
    ensures
        has_key(s, k),
    decreases s.len(),
{
    if s[0].0 != k {
        lemma_lookup_present(s.drop_first(), k);
        let i = choose|i: int| 0 <= i < s.drop_first().len() && #[trigger] s.drop_first()[i].0 == k;
        assert(s[i + 1] == s.drop_first()[i]);
    }
}

/// Putting back the value a key already holds leaves the map as it was.
pub proof fn lemma_insert_present<V>(s: Seq<(Seq<char>, V)>, k: Seq<char>, v: V)
    requires
        strictly_sorted(s),
        lookup(s, k) == Some(v),
    ensures
        sorted_insert(s, k, v) == s,
    decreases s.len(),
{
    if s[0].0 == k {
        assert(sorted_insert(s, k, v) =~= s);
    } else {
        let rest = s.drop_first();
        lemma_lookup_present(rest, k);
        let i = choose|i: int| 0 <= i < rest.len() && #[trigger] rest[i].0 == k;
        assert(s[i + 1] == rest[i]);
        assert(key_lt(s[0].0, k));
        if key_lt(k, s[0].0) {
            lemma_key_lt_transitive(k, s[0].0, k);
            lemma_key_lt_irreflexive(k);
        }
        assert forall|a: int, b: int| 0 <= a < b < rest.len() implies key_lt(#[trigger] rest[a].0, #[trigger] rest[b].0) by {
            assert(rest[a] == s[a + 1] && rest[b] == s[b + 1]);
        }
        lemma_insert_present(rest, k, v);
        assert(sorted_insert(s, k, v) =~= s);
    }
}

/// Inserting keeps the keys strictly increasing: no key occurs twice, and
/// the order of the others is kept.
pub proof fn law_insert_keeps_sorted<V>(s: Seq<(Seq<char>, V)>, k: Seq<char>, v: V)
    requires
        strictly_sorted(s),
    ensures
        strictly_sorted(sorted_insert(s, k, v)),
    decreases s.len(),
{
    let t = sorted_insert(s, k, v);
    if s.len() == 0 {
    } else if s[0].0 == k {
        assert forall|i: int, j: int| 0 <= i < j < t.len() implies key_lt(#[trigger] t[i].0, #[trigger] t[j].0) by {
            assert(s[i].0 == t[i].0 && s[j].0 == t[j].0);
        }
    } else if key_lt(k, s[0].0) {
        assert forall|i: int, j: int| 0 <= i < j < t.len() implies key_lt(#[trigger] t[i].0, #[trigger] t[j].0) by {
            if i == 0 {
                if j > 1 {
                    lemma_key_lt_transitive(k, s[0].0, s[j - 1].0);
                }
            } else {
                assert(t[i] == s[i - 1] && t[j] == s[j - 1]);
            }
        }
    } else {
        let rest = s.drop_first();
        lemma_key_lt_total(k, s[0].0);
        assert forall|i: int, j: int| 0 <= i < j < rest.len() implies key_lt(#[trigger] rest[i].0, #[trigger] rest[j].0) by {
            assert(rest[i] == s[i + 1] && rest[j] == s[j + 1]);
        }
        law_insert_keeps_sorted(rest, k, v);
        lemma_insert_keys(rest, k, v);
        let u = sorted_insert(rest, k, v);
        assert forall|i: int, j: int| 0 <= i < j < t.len() implies key_lt(#[trigger] t[i].0, #[trigger] t[j].0) by {
            if i == 0 {
                assert(t[j] == u[j - 1]);
                if u[j - 1].0 != k {
                    let m = choose|m: int| 0 <= m < rest.len() && #[trigger] rest[m].0 == u[j - 1].0;
                    assert(s[m + 1] == rest[m]);
                }
            } else {
                assert(t[i] == u[i - 1] && t[j] == u[j - 1]);
            }
        }
    }
}

/// Removing keeps the keys strictly increasing.
pub proof fn law_remove_keeps_sorted<V>(s: Seq<(Seq<char>, V)>, k: Seq<char>)
    requires
        strictly_sorted(s),
    ensures
        strictly_sorted(remove_key(s, k)),
    decreases s.len(),
{
    let t = remove_key(s, k);
    if s.len() == 0 {
    } else {
        let rest = s.drop_first();
        assert forall|i: int, j: int| 0 <= i < j < rest.len() implies key_lt(#[trigger] rest[i].0, #[trigger] rest[j].0) by {
            assert(rest[i] == s[i + 1] && rest[j] == s[j + 1]);
        }
        if s[0].0 != k {
            law_remove_keeps_sorted(rest, k);
            lemma_remove_keys(rest, k);
            let u = remove_key(rest, k);
            assert forall|i: int, j: int| 0 <= i < j < t.len() implies key_lt(#[trigger] t[i].0, #[trigger] t[j].0) by {
                if i == 0 {
                    assert(t[j] == u[j - 1]);
                    let m = choose|m: int| 0 <= m < rest.len() && #[trigger] rest[m].0 == u[j - 1].0;
                    assert(s[m + 1] == rest[m]);
                } else {
                    assert(t[i] == u[i - 1] && t[j] == u[j - 1]);
                }
            }
        }
    }
}

/// After an insert, the key gives the new value and every other key what it gave before.
pub proof fn law_lookup_after_insert<V>(s: Seq<(Seq<char>, V)>, k: Seq<char>, v: V, q: Seq<char>)
    ensures
        lookup(sorted_insert(s, k, v), q) == if q == k {
            Some(v)
        } else {
            lookup(s, q)
        },
    decreases s.len(),
{
    let t = sorted_insert(s, k, v);
    if s.len() == 0 {
        assert(t.drop_first() =~= Seq::<(Seq<char>, V)>::empty());
        assert(lookup(t, q) == if q == k { Some(v) } else { lookup(s, q) });
    } else if s[0].0 == k {
        assert(t[0] == (k, v));
        assert(t.drop_first() =~= s.drop_first());
        assert(lookup(t, q) == if q == k { Some(v) } else { lookup(s, q) });
    } else if key_lt(k, s[0].0) {
        assert(t[0] == (k, v));
        assert(t.drop_first() =~= s);
        assert(lookup(t, q) == if q == k { Some(v) } else { lookup(s, q) });
    } else {
        law_lookup_after_insert(s.drop_first(), k, v, q);
        assert(t[0] == s[0]);
        assert(t.drop_first() =~= sorted_insert(s.drop_first(), k, v));
    }
}

/// After a removal the key gives nothing, and every other key what it gave before.
pub proof fn law_lookup_after_remove<V>(s: Seq<(Seq<char>, V)>, k: Seq<char>, q: Seq<char>)
    requires
        strictly_sorted(s),
    ensures
        lookup(remove_key(s, k), q) == if q == k {
            None
        } else {
            lookup(s, q)
        },
    decreases s.len(),
{
    if s.len() > 0 {
        let rest = s.drop_first();
        assert forall|i: int, j: int| 0 <= i < j < rest.len() implies key_lt(#[trigger] rest[i].0, #[trigger] rest[j].0) by {
            assert(rest[i] == s[i + 1] && rest[j] == s[j + 1]);
        }
        if s[0].0 == k {
            if q == k {
                assert forall|i: int| 0 <= i < rest.len() implies #[trigger] rest[i].0 != k by {
                    assert(rest[i] == s[i + 1]);
                    assert(key_lt(s[0].0, s[i + 1].0));
                    lemma_key_lt_irreflexive(k);
                }
                lemma_lookup_absent(rest, k);
            }
        } else {
            law_lookup_after_remove(rest, k, q);
            assert((seq![s[0]] + remove_key(rest, k)).drop_first() == remove_key(rest, k));
        }
    }
}

// ─── Scanning lemmas ────────────────────────────────────────────────────────

proof fn lemma_lookup_skip<V>(s: Seq<(Seq<char>, V)>, k: Seq<char>, i: int)
    requires
        0 <= i <= s.len(),
        forall|j: int| 0 <= j < i ==> #[trigger] s[j].0 != k,
    ensures
        lookup(s, k) == lookup(s.skip(i), k),
    decreases i,
{
    if i > 0 {
        assert(s.drop_first().skip(i - 1) == s.skip(i));
        assert forall|j: int| 0 <= j < i - 1 implies #[trigger] s.drop_first()[j].0 != k by {
            assert(s.drop_first()[j] == s[j + 1]);
        }
        lemma_lookup_skip(s.drop_first(), k, i - 1);
    } else {
        assert(s.skip(0) == s);
    }
}

proof fn lemma_insert_skip<V>(s: Seq<(Seq<char>, V)>, k: Seq<char>, v: V, i: int)
    requires
        0 <= i <= s.len(),
        forall|j: int| 0 <= j < i ==> #[trigger] s[j].0 != k && !key_lt(k, s[j].0),
    ensures
        sorted_insert(s, k, v) == s.take(i) + sorted_insert(s.skip(i), k, v),
    decreases i,
{
    if i > 0 {
        assert(s.drop_first().skip(i - 1) == s.skip(i));
        assert forall|j: int| 0 <= j < i - 1 implies #[trigger] s.drop_first()[j].0 != k
            && !key_lt(k, s.drop_first()[j].0) by {
            assert(s.drop_first()[j] == s[j + 1]);
        }
        lemma_insert_skip(s.drop_first(), k, v, i - 1);
        assert(s[0].0 != k && !key_lt(k, s[0].0));
        assert(s.take(i) == seq![s[0]] + s.drop_first().take(i - 1));
    } else {
        assert(s.skip(0) == s);
        assert(s.take(0) + sorted_insert(s, k, v) == sorted_insert(s, k, v));
    }
}

proof fn lemma_remove_skip<V>(s: Seq<(Seq<char>, V)>, k: Seq<char>, i: int)
    requires
        0 <= i <= s.len(),
        forall|j: int| 0 <= j < i ==> #[trigger] s[j].0 != k,
    ensures
        remove_key(s, k) == s.take(i) + remove_key(s.skip(i), k),
    decreases i,
{
    if i > 0 {
        assert(s.drop_first().skip(i - 1) == s.skip(i));
        assert forall|j: int| 0 <= j < i - 1 implies #[trigger] s.drop_first()[j].0 != k by {
            assert(s.drop_first()[j] == s[j + 1]);
        }
        lemma_remove_skip(s.drop_first(), k, i - 1);
        assert(s.take(i) == seq![s[0]] + s.drop_first().take(i - 1));
    } else {
        assert(s.skip(0) == s);
        assert(s.take(0) + remove_key(s, k) == remove_key(s, k));
    }
}

/// Compares two keys in the order of `key_lt`.
pub fn key_less(a: &[char], b: &[char]) -> (r: bool)
    ensures
        r == key_lt(a@, b@),
{
    let mut i: usize = 0;
    assert(a@.skip(0) == a@);
    assert(b@.skip(0) == b@);
    while i < a.len() && i < b.len()
        invariant
            i <= a.len(),
            i <= b.len(),
            key_lt(a@, b@) == key_lt(a@.skip(i as int), b@.skip(i as int)),
        decreases a.len() - i,
    {
        if a[i] != b[i] {
            assert(a@.skip(i as int)[0] == a@[i as int]);
            assert(b@.skip(i as int)[0] == b@[i as int]);
            return a[i] < b[i];
        }
        assert(a@.skip(i as int).drop_first() == a@.skip(i + 1));
        assert(b@.skip(i as int).drop_first() == b@.skip(i + 1));
        i += 1;
    }
    i == a.len() && i < b.len()
}

// ─── The map ────────────────────────────────────────────────────────────────

/// A map from strings to values that keeps its entries in key order
/// (the role of a `BTreeMap` keyed by `String`).
#[derive(Debug, PartialEq, Eq)]
pub struct StringMap<V> {
    entries: Vec<(Vec<char>, V)>,
}

spec fn entries_view<V>(e: Seq<(Vec<char>, V)>) -> Seq<(Seq<char>, V)> {
    e.map_values(|x: (Vec<char>, V)| (x.0@, x.1))
}

impl<V> View for StringMap<V> {
    type V = Seq<(Seq<char>, V)>;

    closed spec fn view(&self) -> Seq<(Seq<char>, V)> {
        entries_view(self.entries@)
    }
}

impl<V> StringMap<V> {
    /// Keys strictly increase: no key occurs twice.
    #[verifier::type_invariant]
    pub open spec fn keys_ascend(self) -> bool {
        strictly_sorted(self@)
    }
}

impl<V> StringMap<V> {
    pub fn new() -> (m: Self)
        ensures
            m@ == Seq::<(Seq<char>, V)>::empty(),
            strictly_sorted(m@),
    {
        let m = StringMap { entries: Vec::new() };
        assert(m@ =~= Seq::<(Seq<char>, V)>::empty());
        m
    }

    pub fn len(&self) -> (n: usize)
        ensures
            n == self@.len(),
    {
        self.entries.len()
    }

    pub fn key_at(&self, i: usize) -> (k: &Vec<char>)
        requires
            i < self@.len(),
        ensures
            k@ == self@[i as int].0,
    {
        &self.entries[i].0
    }

    pub fn value_at(&self, i: usize) -> (v: &V)
        requires
            i < self@.len(),
        ensures
            *v == self@[i as int].1,
    {
        &self.entries[i].1
    }

    fn lower_bound(&self, k: &[char]) -> (r: usize)
        ensures
            r <= self@.len(),
            forall|j: int| 0 <= j < r ==> #[trigger] self@[j].0 != k@ && !key_lt(k@, self@[j].0),
            r < self@.len() ==> (self@[r as int].0 == k@ || key_lt(k@, self@[r as int].0)),
    {
        let mut i: usize = 0;
        while i < self.entries.len()
            invariant
                i <= self@.len(),
                self@.len() == self.entries@.len(),
                forall|j: int|
                    0 <= j < i ==> #[trigger] self@[j].0 != k@ && !key_lt(k@, self@[j].0),
            decreases self.entries.len() - i,
        {
            if chars_eq(&self.entries[i].0, k) || key_less(k, &self.entries[i].0) {
                return i;
            }
            i += 1;
        }
        i
    }

    fn position(&self, k: &[char]) -> (r: usize)
        ensures
            r <= self@.len(),
            forall|j: int| 0 <= j < r ==> #[trigger] self@[j].0 != k@,
            r < self@.len() ==> self@[r as int].0 == k@,
    {
        let mut i: usize = 0;
        while i < self.entries.len()
            invariant
                i <= self@.len(),
                self@.len() == self.entries@.len(),
                forall|j: int| 0 <= j < i ==> #[trigger] self@[j].0 != k@,
            decreases self.entries.len() - i,
        {
            if chars_eq(&self.entries[i].0, k) {
                return i;
            }
            i += 1;
        }
        i
    }

    pub fn get_chars(&self, k: &[char]) -> (r: Option<&V>)
        ensures
            match r {
                Some(v) => lookup(self@, k@) == Some(*v),
                None => lookup(self@, k@) is None,
            },
    {
        let i = self.position(k);
        proof {
            lemma_lookup_skip(self@, k@, i as int);
        }
        if i < self.entries.len() {
            Some(&self.entries[i].1)
        } else {
            None
        }
    }

    pub fn contains_chars(&self, k: &[char]) -> (r: bool)
        ensures
            r == (lookup(self@, k@) is Some),
    {
        self.get_chars(k).is_some()
    }

    /// The value stored under `key`.
    pub fn get(&self, key: &str) -> (r: Option<&V>)
        ensures
            match r {
                Some(v) => lookup(self@, key@) == Some(*v),
                None => lookup(self@, key@) is None,
            },
    {
        let k = to_chars(key);
        self.get_chars(&k)
    }

    pub fn insert_chars(&mut self, k: Vec<char>, v: V)
        ensures
            final(self)@ == sorted_insert(old(self)@, k@, v),
            strictly_sorted(final(self)@),
    {
        proof {
            use_type_invariant(&*self);
        }
        let ghost s = self@;
        let i = self.lower_bound(&k);
        proof {
            lemma_insert_skip(s, k@, v, i as int);
            law_insert_keeps_sorted(s, k@, v);
        }
        let ghost kv = k@;
        let mut entries: Vec<(Vec<char>, V)> = Vec::new();
        std::mem::swap(&mut entries, &mut self.entries);
        assert(entries_view(entries@) == s);
        if i < entries.len() && chars_eq(&entries[i].0, &k) {
            entries.set(i, (k, v));
            assert(entries_view(entries@) =~= s.take(i as int) + s.skip(i as int).update(0, (kv, v)));
        } else {
            entries.insert(i, (k, v));
            assert(entries_view(entries@) =~= s.take(i as int) + (seq![(kv, v)] + s.skip(i as int)));
        }
        assert(strictly_sorted(entries_view(entries@)));
        self.entries = entries;
    }

    /// Stores `value` under `key`, replacing what was there.
    pub fn insert(&mut self, key: String, value: V)
        ensures
            final(self)@ == sorted_insert(old(self)@, key@, value),
            strictly_sorted(final(self)@),
    {
        let k = to_chars(key.as_str());
        self.insert_chars(k, value);
    }

    /// Adds an entry after the last one; its key must be the largest.
    pub fn push_back(&mut self, k: Vec<char>, v: V)
        requires
            old(self)@.len() == 0 || key_lt(old(self)@.last().0, k@),
        ensures
            final(self)@ == old(self)@.push((k@, v)),
            strictly_sorted(final(self)@),
    {
        proof {
            use_type_invariant(&*self);
        }
        let ghost s = self@;
        let ghost kv = k@;
        let mut entries: Vec<(Vec<char>, V)> = Vec::new();
        std::mem::swap(&mut entries, &mut self.entries);
        assert(entries_view(entries@) == s);
        entries.push((k, v));
        let ghost t = s.push((kv, v));
        assert(entries_view(entries@) =~= t);
        assert forall|a: int, b: int| 0 <= a < b < t.len() implies key_lt(#[trigger] t[a].0, #[trigger] t[b].0) by {
            if b == s.len() {
                if a < s.len() - 1 {
                    lemma_key_lt_transitive(s[a].0, s[s.len() - 1].0, kv);
                }
            } else {
                assert(t[a] == s[a] && t[b] == s[b]);
            }
        }
        self.entries = entries;
    }

    pub fn remove_at(&mut self, i: usize)
        requires
            i < old(self)@.len(),
        ensures
            final(self)@ == old(self)@.remove(i as int),
            strictly_sorted(final(self)@),
    {
        proof {
            use_type_invariant(&*self);
        }
        let ghost s = self@;
        let mut entries: Vec<(Vec<char>, V)> = Vec::new();
        std::mem::swap(&mut entries, &mut self.entries);
        assert(entries_view(entries@) == s);
        entries.remove(i);
        let ghost t = s.remove(i as int);
        assert(entries_view(entries@) =~= t);
        assert forall|a: int, b: int| 0 <= a < b < t.len() implies key_lt(#[trigger] t[a].0, #[trigger] t[b].0) by {
            let a2 = if a < i { a } else { a + 1 };
            let b2 = if b < i { b } else { b + 1 };
            assert(t[a] == s[a2] && t[b] == s[b2]);
        }
        self.entries = entries;
    }

    pub fn remove_chars(&mut self, k: &[char])
        ensures
            final(self)@ == remove_key(old(self)@, k@),
            strictly_sorted(final(self)@),
    {
        proof {
            use_type_invariant(&*self);
        }
        let ghost s = self@;
        let i = self.position(k);
        proof {
            lemma_remove_skip(s, k@, i as int);
            law_remove_keeps_sorted(s, k@);
        }
        if i < self.entries.len() {
            self.remove_at(i);
            assert(self@ =~= s.take(i as int) + s.skip(i as int).drop_first());
        } else {
            assert(s.skip(i as int) =~= Seq::<(Seq<char>, V)>::empty());
            assert(s.take(i as int) == s);
        }
    }
}

impl<V: Clone> Clone for StringMap<V> {
    /// A map with the same keys in the same order; each value is the value's clone.
    fn clone(&self) -> (r: Self)
        ensures
            r@.len() == self@.len(),
            forall|i: int| 0 <= i < self@.len() ==> #[trigger] r@[i].0 == self@[i].0,
    {
        proof {
            use_type_invariant(self);
        }
        let mut entries: Vec<(Vec<char>, V)> = Vec::new();
        let mut i: usize = 0;
        while i < self.entries.len()
            invariant
                i <= self@.len(),
                self@.len() == self.entries@.len(),
                strictly_sorted(self@),
                entries@.len() == i,
                forall|j: int| 0 <= j < i ==> #[trigger] entries_view(entries@)[j].0 == self@[j].0,
            decreases self.entries@.len() - i,
        {
            let key = &self.entries[i].0;
            let k = slice_chars(key, 0, key.len());
            assert(key@.subrange(0, key@.len() as int) == key@);
            assert(self@[i as int].0 == key@);
            let v = self.entries[i].1.clone();
            let ghost before = entries@;
            let ghost kv = k@;
            entries.push((k, v));
            assert(entries_view(entries@) =~= entries_view(before).push((kv, v)));
            i += 1;
        }
        let ghost t = entries_view(entries@);
        assert forall|a: int, b: int| 0 <= a < b < t.len() implies key_lt(#[trigger] t[a].0, #[trigger] t[b].0) by {
            assert(t[a].0 == self@[a].0 && t[b].0 == self@[b].0);
        }
        StringMap { entries }
    }
}

}
