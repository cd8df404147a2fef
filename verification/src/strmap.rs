//! A map from texts to values that keeps its keys in the order of texts.
use crate::text::{
    lemma_text_less_irreflexive, lemma_text_less_total, lemma_text_less_transitive, same_text,
    text_before, text_less,
};
use vstd::prelude::*;

verus! {

/// A map from strings to values. Its entries stand in the order of their keys, each key once.
#[derive(Debug, PartialEq)]
pub struct StrMap<V> {
    entries: Vec<(String, V)>,
}

/// The texts stand in strictly ascending order.
pub open spec fn ascending(keys: Seq<Seq<char>>) -> bool {
    forall|i: int, j: int| 0 <= i < j < keys.len() ==> text_less(#[trigger] keys[i], #[trigger] keys[j])
}

/// In strictly ascending texts no text stands twice.
pub proof fn lemma_ascending_distinct(keys: Seq<Seq<char>>)
    requires
        ascending(keys),
    ensures
        keys.no_duplicates(),
{
    assert forall|i: int, j: int| 0 <= i < keys.len() && 0 <= j < keys.len() && i != j implies keys[i]
        != keys[j] by {
        if i < j {
            lemma_text_less_irreflexive(keys[i]);
        } else {
            lemma_text_less_irreflexive(keys[j]);
        }
    }
}

/// The same texts stand in ascending order in one way only.
pub proof fn lemma_ascending_unique(a: Seq<Seq<char>>, b: Seq<Seq<char>>)
    requires
        ascending(a),
        ascending(b),
        forall|k: Seq<char>| a.contains(k) <==> b.contains(k),
    ensures
        a == b,
    decreases a.len(),
{
    if a.len() == 0 {
        if b.len() > 0 {
            assert(b.contains(b[0]));
        }
        assert(a =~= b);
    } else {
        let x = a.last();
        assert(a[a.len() - 1] == x);
        assert(a.contains(x) && b.contains(x));
        let i = choose|i: int| 0 <= i < b.len() && b[i] == x;
        let y = b.last();
        assert(b[b.len() - 1] == y);
        assert(b.contains(y) && a.contains(y));
        let j = choose|j: int| 0 <= j < a.len() && a[j] == y;
        if i < b.len() - 1 {
            assert(text_less(b[i], b[b.len() - 1]));
            lemma_text_less_irreflexive(x);
            assert(j < a.len() - 1);
            assert(text_less(a[j], a[a.len() - 1]));
            lemma_text_less_transitive(x, y, x);
        }
        let (c, d) = (a.drop_last(), b.drop_last());
        assert forall|k: Seq<char>| c.contains(k) <==> d.contains(k) by {
            lemma_text_less_irreflexive(x);
            if c.contains(k) {
                let p = choose|p: int| 0 <= p < c.len() && c[p] == k;
                assert(a[p] == k);
                assert(text_less(a[p], a[a.len() - 1]));
                assert(a.contains(k) && b.contains(k));
                let q = choose|q: int| 0 <= q < b.len() && b[q] == k;
                assert(d[q] == k);
            }
            if d.contains(k) {
                let p = choose|p: int| 0 <= p < d.len() && d[p] == k;
                assert(b[p] == k);
                assert(text_less(b[p], b[b.len() - 1]));
                assert(b.contains(k) && a.contains(k));
                let q = choose|q: int| 0 <= q < a.len() && a[q] == k;
                assert(c[q] == k);
            }
        }
        lemma_ascending_unique(c, d);
        assert(a =~= c.push(x));
        assert(b =~= d.push(y));
    }
}

/// The value of a key among entries.
pub open spec fn entry<V>(s: Seq<(Seq<char>, V)>, k: Seq<char>) -> Option<V>
    decreases s.len(),
{
    if s.len() == 0 {
        None
    } else if s.last().0 == k {
        Some(s.last().1)
    } else {
        entry(s.drop_last(), k)
    }
}

/// The entries with a value for a key, in the order of texts.
pub open spec fn put_entry<V>(s: Seq<(Seq<char>, V)>, k: Seq<char>, v: V) -> Seq<(Seq<char>, V)>
    decreases s.len(),
{
    if s.len() == 0 || text_less(s.last().0, k) {
        s.push((k, v))
    } else if s.last().0 == k {
        s.drop_last().push((k, v))
    } else {
        put_entry(s.drop_last(), k, v).push(s.last())
    }
}

/// The keys of the entries stand in strictly ascending order.
pub open spec fn ordered<V>(s: Seq<(Seq<char>, V)>) -> bool {
    forall|i: int, j: int|
        0 <= i < j < s.len() ==> text_less((#[trigger] s[i]).0, (#[trigger] s[j]).0)
}

pub proof fn lemma_entry_found<V>(s: Seq<(Seq<char>, V)>, k: Seq<char>, i: int)
    requires
        ordered(s),
        0 <= i < s.len(),
        s[i].0 == k,
    ensures
        entry(s, k) == Some(s[i].1),
    decreases s.len(),
{
    if i < s.len() - 1 {
        assert(text_less(s[i].0, s[s.len() - 1].0));
        lemma_text_less_irreflexive(k);
        let rest = s.drop_last();
        assert forall|a: int, b: int| 0 <= a < b < rest.len() implies text_less(
            (#[trigger] rest[a]).0,
            (#[trigger] rest[b]).0,
        ) by {
            assert(text_less(s[a].0, s[b].0));
        }
        lemma_entry_found(rest, k, i);
    }
}

proof fn lemma_entry_missing<V>(s: Seq<(Seq<char>, V)>, k: Seq<char>)
    requires
        forall|i: int| 0 <= i < s.len() ==> (#[trigger] s[i]).0 != k,
    ensures
        entry(s, k) is None,
    decreases s.len(),
{
    if s.len() > 0 {
        assert(s[s.len() - 1].0 != k);
        let rest = s.drop_last();
        assert forall|i: int| 0 <= i < rest.len() implies (#[trigger] rest[i]).0 != k by {
            assert(s[i].0 != k);
        }
        lemma_entry_missing(rest, k);
    }
}

proof fn lemma_put_new<V>(s: Seq<(Seq<char>, V)>, k: Seq<char>, v: V, i: int)
    requires
        0 <= i <= s.len(),
        forall|j: int| 0 <= j < i ==> text_less((#[trigger] s[j]).0, k),
        forall|j: int| i <= j < s.len() ==> text_less(k, (#[trigger] s[j]).0),
    ensures
        put_entry(s, k, v) == s.insert(i, (k, v)),
    decreases s.len(),
{
    if i == s.len() {
        if s.len() > 0 {
            assert(text_less(s[s.len() - 1].0, k));
        }
        assert(s.push((k, v)) =~= s.insert(i, (k, v)));
    } else {
        let rest = s.drop_last();
        assert(text_less(k, s[s.len() - 1].0));
        if text_less(s.last().0, k) {
            lemma_text_less_transitive(k, s.last().0, k);
        }
        lemma_text_less_irreflexive(k);
        assert forall|j: int| 0 <= j < i implies text_less((#[trigger] rest[j]).0, k) by {
            assert(text_less(s[j].0, k));
        }
        assert forall|j: int| i <= j < rest.len() implies text_less(k, (#[trigger] rest[j]).0) by {
            assert(text_less(k, s[j].0));
        }
        lemma_put_new(rest, k, v, i);
        assert(rest.insert(i, (k, v)).push(s.last()) =~= s.insert(i, (k, v)));
    }
}

proof fn lemma_put_known<V>(s: Seq<(Seq<char>, V)>, k: Seq<char>, v: V, i: int)
    requires
        ordered(s),
        0 <= i < s.len(),
        s[i].0 == k,
    ensures
        put_entry(s, k, v) == s.update(i, (k, v)),
    decreases s.len(),
{
    lemma_text_less_irreflexive(k);
    if i == s.len() - 1 {
        assert(s.drop_last().push((k, v)) =~= s.update(i, (k, v)));
    } else {
        let rest = s.drop_last();
        assert(text_less(s[i].0, s[s.len() - 1].0));
        if text_less(s.last().0, k) {
            lemma_text_less_transitive(k, s.last().0, k);
        }
        assert forall|a: int, b: int| 0 <= a < b < rest.len() implies text_less(
            (#[trigger] rest[a]).0,
            (#[trigger] rest[b]).0,
        ) by {
            assert(text_less(s[a].0, s[b].0));
        }
        lemma_put_known(rest, k, v, i);
        assert(rest.update(i, (k, v)).push(s.last()) =~= s.update(i, (k, v)));
    }
}

/// What is put among entries is what is found, and nothing else is touched.
pub proof fn law_put_then_find<V>(
    s: Seq<(Seq<char>, V)>,
    k: Seq<char>,
    v: V,
    q: Seq<char>,
)
    ensures
        entry(put_entry(s, k, v), q) == if q == k {
            Some(v)
        } else {
            entry(s, q)
        },
    decreases s.len(),
{
    let t = put_entry(s, k, v);
    if s.len() == 0 || text_less(s.last().0, k) {
        assert(t.drop_last() =~= s);
    } else if s.last().0 == k {
        assert(t.drop_last() =~= s.drop_last());
    } else {
        law_put_then_find(s.drop_last(), k, v, q);
        assert(t.drop_last() =~= put_entry(s.drop_last(), k, v));
    }
}

/// What is put last is what stays.
pub proof fn lemma_put_twice<V>(s: Seq<(Seq<char>, V)>, k: Seq<char>, v: V, w: V)
    ensures
        put_entry(put_entry(s, k, v), k, w) == put_entry(s, k, w),
    decreases s.len(),
{
    lemma_text_less_irreflexive(k);
    let t = put_entry(s, k, v);
    if s.len() == 0 || text_less(s.last().0, k) {
        assert(t.drop_last() =~= s);
    } else if s.last().0 == k {
        assert(t.drop_last() =~= s.drop_last());
    } else {
        lemma_put_twice(s.drop_last(), k, v, w);
        assert(t.drop_last() =~= put_entry(s.drop_last(), k, v));
    }
}

/// The entries with another value for each.
pub open spec fn map_list<V, W>(s: Seq<(Seq<char>, V)>, f: spec_fn(V) -> W) -> Seq<(Seq<char>, W)> {
    s.map_values(|e: (Seq<char>, V)| (e.0, f(e.1)))
}

pub proof fn lemma_map_put<V, W>(
    s: Seq<(Seq<char>, V)>,
    f: spec_fn(V) -> W,
    k: Seq<char>,
    v: V,
)
    ensures
        map_list(put_entry(s, k, v), f) == put_entry(map_list(s, f), k, f(v)),
    decreases s.len(),
{
    let m = map_list(s, f);
    if s.len() == 0 || text_less(s.last().0, k) {
        assert(map_list(s.push((k, v)), f) =~= m.push((k, f(v))));
    } else if s.last().0 == k {
        assert(map_list(s.drop_last().push((k, v)), f) =~= m.drop_last().push((k, f(v))));
    } else {
        lemma_map_put(s.drop_last(), f, k, v);
        assert(map_list(s.drop_last(), f) =~= m.drop_last());
        assert(map_list(put_entry(s.drop_last(), k, v).push(s.last()), f) =~= map_list(
            put_entry(s.drop_last(), k, v),
            f,
        ).push(m.last()));
    }
}

pub proof fn lemma_map_entry<V, W>(s: Seq<(Seq<char>, V)>, f: spec_fn(V) -> W, k: Seq<char>)
    ensures
        entry(map_list(s, f), k) == (match entry(s, k) {
            Some(v) => Some(f(v)),
            None => None::<W>,
        }),
    decreases s.len(),
{
    if s.len() > 0 {
        lemma_map_entry(s.drop_last(), f, k);
        assert(map_list(s, f).drop_last() =~= map_list(s.drop_last(), f));
    }
}

spec fn entry_list<V>(es: Seq<(String, V)>) -> Seq<(Seq<char>, V)> {
    es.map_values(|e: (String, V)| (e.0@, e.1))
}

proof fn lemma_list_ordered<V>(es: Seq<(String, V)>)
    requires
        ascending(entry_keys(es)),
    ensures
        ordered(entry_list(es)),
{
    let s = entry_list(es);
    assert forall|i: int, j: int| 0 <= i < j < s.len() implies text_less(
        (#[trigger] s[i]).0,
        (#[trigger] s[j]).0,
    ) by {
        assert(text_less(entry_keys(es)[i], entry_keys(es)[j]));
    }
}

spec fn entry_keys<V>(es: Seq<(String, V)>) -> Seq<Seq<char>> {
    es.map_values(|e: (String, V)| e.0@)
}

spec fn entry_index<V>(es: Seq<(String, V)>, k: Seq<char>) -> int {
    choose|i: int| 0 <= i < es.len() && (#[trigger] es[i]).0@ == k
}

spec fn has_entry<V>(es: Seq<(String, V)>, k: Seq<char>) -> bool {
    exists|i: int| 0 <= i < es.len() && (#[trigger] es[i]).0@ == k
}

spec fn entry_map<V>(es: Seq<(String, V)>) -> Map<Seq<char>, V> {
    Map::new(|k: Seq<char>| has_entry(es, k), |k: Seq<char>| es[entry_index(es, k)].1)
}

proof fn lemma_entry_at<V>(es: Seq<(String, V)>, i: int)
    requires
        ascending(entry_keys(es)),
        0 <= i < es.len(),
    ensures
        entry_map(es).contains_key(es[i].0@),
        entry_map(es)[es[i].0@] == es[i].1,
        entry_index(es, es[i].0@) == i,
{
    let keys = entry_keys(es);
    assert(has_entry(es, es[i].0@));
    let j = entry_index(es, es[i].0@);
    lemma_ascending_distinct(keys);
    assert(keys[i] == es[i].0@);
    assert(keys[j] == es[j].0@);
}

proof fn lemma_entry_insert<V>(es: Seq<(String, V)>, at: int, k: String, v: V)
    requires
        ascending(entry_keys(es)),
        0 <= at <= es.len(),
        forall|i: int| 0 <= i < at ==> text_less((#[trigger] es[i]).0@, k@),
        forall|i: int| at <= i < es.len() ==> text_less(k@, (#[trigger] es[i]).0@),
    ensures
        ascending(entry_keys(es.insert(at, (k, v)))),
        entry_map(es.insert(at, (k, v))) == entry_map(es).insert(k@, v),
        !has_entry(es, k@),
{
    let fs = es.insert(at, (k, v));
    let keys = entry_keys(fs);
    assert forall|i: int, j: int| 0 <= i < j < keys.len() implies text_less(
        #[trigger] keys[i],
        #[trigger] keys[j],
    ) by {
        let old_keys = entry_keys(es);
        if i < at {
            assert(fs[i] == es[i]);
            if j < at {
                assert(text_less(old_keys[i], old_keys[j]));
            } else if j > at {
                assert(fs[j] == es[j - 1]);
                assert(text_less(old_keys[i], old_keys[j - 1]));
            }
        } else if i == at {
            assert(fs[j] == es[j - 1]);
        } else {
            assert(fs[i] == es[i - 1]);
            assert(fs[j] == es[j - 1]);
            assert(text_less(old_keys[i - 1], old_keys[j - 1]));
        }
    }
    if has_entry(es, k@) {
        let i = entry_index(es, k@);
        lemma_text_less_irreflexive(k@);
    }
    assert forall|t: Seq<char>| has_entry(fs, t) == (t == k@ || has_entry(es, t)) by {
        if has_entry(fs, t) {
            let i = entry_index(fs, t);
            if i < at {
                assert(es[i].0@ == t);
            } else if i > at {
                assert(es[i - 1].0@ == t);
            }
        }
        if has_entry(es, t) {
            let i = entry_index(es, t);
            if i < at {
                assert(fs[i].0@ == t);
            } else {
                assert(fs[i + 1].0@ == t);
            }
        }
        if t == k@ {
            assert(fs[at].0@ == t);
        }
    }
    assert forall|t: Seq<char>| has_entry(fs, t) implies entry_map(fs)[t] == entry_map(es).insert(
        k@,
        v,
    )[t] by {
        let i = entry_index(fs, t);
        lemma_entry_at(fs, i);
        if i < at {
            assert(fs[i] == es[i]);
            lemma_entry_at(es, i);
            assert(text_less(es[i].0@, k@));
            lemma_text_less_irreflexive(k@);
        } else if i > at {
            assert(fs[i] == es[i - 1]);
            lemma_entry_at(es, i - 1);
            assert(text_less(k@, es[i - 1].0@));
            lemma_text_less_irreflexive(k@);
        }
    }
    assert(entry_map(fs) =~= entry_map(es).insert(k@, v));
}

proof fn lemma_entry_set<V>(es: Seq<(String, V)>, at: int, v: V)
    requires
        ascending(entry_keys(es)),
        0 <= at < es.len(),
    ensures
        entry_keys(es.update(at, (es[at].0, v))) == entry_keys(es),
        entry_map(es.update(at, (es[at].0, v))) == entry_map(es).insert(es[at].0@, v),
{
    let fs = es.update(at, (es[at].0, v));
    assert(entry_keys(fs) =~= entry_keys(es));
    assert forall|t: Seq<char>| has_entry(fs, t) == has_entry(es, t) by {
        if has_entry(fs, t) {
            let i = entry_index(fs, t);
            assert(es[i].0@ == t);
        }
        if has_entry(es, t) {
            let i = entry_index(es, t);
            assert(fs[i].0@ == t);
        }
    }
    lemma_entry_at(es, at);
    assert forall|t: Seq<char>| has_entry(fs, t) implies entry_map(fs)[t] == entry_map(es).insert(
        es[at].0@,
        v,
    )[t] by {
        let i = entry_index(fs, t);
        lemma_entry_at(fs, i);
        lemma_entry_at(es, i);
        if i != at {
            lemma_ascending_distinct(entry_keys(es));
            assert(entry_keys(es)[i] != entry_keys(es)[at]);
        }
    }
    assert(entry_map(fs) =~= entry_map(es).insert(es[at].0@, v));
}

proof fn lemma_entry_remove<V>(es: Seq<(String, V)>, at: int)
    requires
        ascending(entry_keys(es)),
        0 <= at < es.len(),
    ensures
        ascending(entry_keys(es.remove(at))),
        entry_map(es.remove(at)) == entry_map(es).remove(es[at].0@),
{
    let fs = es.remove(at);
    let keys = entry_keys(fs);
    let old_keys = entry_keys(es);
    assert forall|i: int, j: int| 0 <= i < j < keys.len() implies text_less(
        #[trigger] keys[i],
        #[trigger] keys[j],
    ) by {
        let i0 = if i < at { i } else { i + 1 };
        let j0 = if j < at { j } else { j + 1 };
        assert(keys[i] == old_keys[i0]);
        assert(keys[j] == old_keys[j0]);
    }
    lemma_ascending_distinct(old_keys);
    assert forall|t: Seq<char>| has_entry(fs, t) == (t != es[at].0@ && has_entry(es, t)) by {
        if has_entry(fs, t) {
            let i = entry_index(fs, t);
            let i0 = if i < at { i } else { i + 1 };
            assert(fs[i] == es[i0]);
            assert(old_keys[i0] != old_keys[at]);
        }
        if t != es[at].0@ && has_entry(es, t) {
            let i = entry_index(es, t);
            let i0 = if i < at { i } else { i - 1 };
            assert(fs[i0] == es[i]);
        }
    }
    assert forall|t: Seq<char>| has_entry(fs, t) implies entry_map(fs)[t] == entry_map(es)[t] by {
        let i = entry_index(fs, t);
        let i0 = if i < at { i } else { i + 1 };
        lemma_entry_at(fs, i);
        lemma_entry_at(es, i0);
        assert(fs[i] == es[i0]);
    }
    assert(entry_map(fs) =~= entry_map(es).remove(es[at].0@));
}

impl<V> View for StrMap<V> {
    type V = Map<Seq<char>, V>;

    closed spec fn view(&self) -> Map<Seq<char>, V> {
        entry_map(self.entries@)
    }
}

impl<V> StrMap<V> {
    #[verifier::type_invariant]
    spec fn in_order(self) -> bool {
        ascending(entry_keys(self.entries@))
    }

    /// The keys, in the order of texts.
    pub closed spec fn keys(&self) -> Seq<Seq<char>> {
        entry_keys(self.entries@)
    }

    /// The values, in the order of their keys.
    pub closed spec fn values(&self) -> Seq<V> {
        self.entries@.map_values(|e: (String, V)| e.1)
    }

    /// The entries, in the order of their keys.
    pub closed spec fn listing(&self) -> Seq<(Seq<char>, V)> {
        entry_list(self.entries@)
    }

    /// What the map, its keys, its values and its entries have to do with one another.
    pub open spec fn coherent(&self) -> bool {
        &&& ascending(self.keys())
        &&& ordered(self.listing())
        &&& self.listing().len() == self.keys().len()
        &&& forall|i: int|
            0 <= i < self.keys().len() ==> #[trigger] self.listing()[i] == (
                self.keys()[i],
                self.values()[i],
            )
        &&& self.values().len() == self.keys().len()
        &&& forall|k: Seq<char>| #[trigger] self@.contains_key(k) <==> self.keys().contains(k)
        &&& forall|i: int|
            0 <= i < self.keys().len() ==> self@.contains_key(#[trigger] self.keys()[i])
                && self@[self.keys()[i]] == self.values()[i]
    }

    proof fn lemma_coherent(&self)
        requires
            self.in_order(),
        ensures
            self.coherent(),
    {
        let es = self.entries@;
        lemma_list_ordered(es);
        assert forall|k: Seq<char>| self@.contains_key(k) <==> self.keys().contains(k) by {
            if has_entry(es, k) {
                let i = entry_index(es, k);
                assert(self.keys()[i] == k);
            }
            if self.keys().contains(k) {
                let i = choose|i: int| 0 <= i < self.keys().len() && self.keys()[i] == k;
                assert(es[i].0@ == k);
            }
        }
        assert forall|i: int| 0 <= i < self.keys().len() implies self@.contains_key(
            #[trigger] self.keys()[i],
        ) && self@[self.keys()[i]] == self.values()[i] by {
            lemma_entry_at(es, i);
        }
    }

    /// An empty map.
    pub fn new() -> (r: StrMap<V>)
        ensures
            r@ == Map::<Seq<char>, V>::empty(),
            r.keys() == Seq::<Seq<char>>::empty(),
            r.listing() == Seq::<(Seq<char>, V)>::empty(),
    {
        let r = StrMap { entries: Vec::new() };
        assert(r.listing() =~= Seq::<(Seq<char>, V)>::empty());
        assert(r@ =~= Map::<Seq<char>, V>::empty());
        assert(r.keys() =~= Seq::<Seq<char>>::empty());
        r
    }

    /// The number of keys.
    pub fn len(&self) -> (n: usize)
        ensures
            n == self.keys().len(),
            n == self.listing().len(),
            self.coherent(),
    {
        proof {
            use_type_invariant(self);
            self.lemma_coherent();
        }
        self.entries.len()
    }

    /// Whether the map has no key.
    pub fn is_empty(&self) -> (r: bool)
        ensures
            r == (self.keys().len() == 0),
            r == (self@ == Map::<Seq<char>, V>::empty()),
    {
        proof {
            use_type_invariant(self);
            self.lemma_coherent();
            if self.keys().len() == 0 {
                assert(self@ =~= Map::<Seq<char>, V>::empty());
            } else {
                assert(self@.contains_key(self.keys()[0]));
            }
        }
        self.entries.len() == 0
    }

    /// The place of a key among the keys.
    pub fn position(&self, key: &str) -> (r: Option<usize>)
        ensures
            self.coherent(),
            match r {
                Some(i) => i < self.keys().len() && self.keys()[i as int] == key@
                    && self@.contains_key(key@) && self@[key@] == self.values()[i as int] && entry(
                    self.listing(),
                    key@,
                ) == Some(self.values()[i as int]),
                None => !self@.contains_key(key@) && entry(self.listing(), key@) is None,
            },
    {
        proof {
            use_type_invariant(self);
            self.lemma_coherent();
        }
        let mut i: usize = 0;
        while i < self.entries.len()
            invariant
                self.coherent(),
                i <= self.entries@.len(),
                forall|j: int| 0 <= j < i ==> (#[trigger] self.entries@[j]).0@ != key@,
            decreases self.entries@.len() - i,
        {
            if same_text(self.entries[i].0.as_str(), key) {
                proof {
                    assert(self.keys()[i as int] == key@);
                    assert(self.listing()[i as int] == (self.keys()[i as int], self.values()[i as int]));
                    lemma_entry_found(self.listing(), key@, i as int);
                }
                return Some(i);
            }
            i += 1;
        }
        assert(!self@.contains_key(key@)) by {
            if self.keys().contains(key@) {
                let j = choose|j: int| 0 <= j < self.keys().len() && self.keys()[j] == key@;
                assert(self.entries@[j].0@ == key@);
            }
        }
        proof {
            assert forall|j: int| 0 <= j < self.listing().len() implies (
            #[trigger] self.listing()[j]).0 != key@ by {
                assert(self.entries@[j].0@ != key@);
            }
            lemma_entry_missing(self.listing(), key@);
        }
        None
    }

    /// The value of a key.
    pub fn get(&self, key: &str) -> (r: Option<&V>)
        ensures
            match r {
                Some(v) => self@.contains_key(key@) && *v == self@[key@] && entry(
                    self.listing(),
                    key@,
                ) == Some(*v),
                None => !self@.contains_key(key@) && entry(self.listing(), key@) is None,
            },
    {
        match self.position(key) {
            Some(i) => Some(&self.entries[i].1),
            None => None,
        }
    }

    /// Whether the map has the key.
    pub fn contains_key(&self, key: &str) -> (r: bool)
        ensures
            r == self@.contains_key(key@),
    {
        self.position(key).is_some()
    }

    /// The key at a place among the keys.
    pub fn key_at(&self, i: usize) -> (r: &String)
        requires
            i < self.keys().len(),
        ensures
            r@ == self.keys()[i as int],
            r@ == self.listing()[i as int].0,
            self.coherent(),
    {
        proof {
            use_type_invariant(self);
            self.lemma_coherent();
        }
        &self.entries[i].0
    }

    /// The value at a place among the keys.
    pub fn value_at(&self, i: usize) -> (r: &V)
        requires
            i < self.keys().len(),
        ensures
            *r == self.values()[i as int],
            *r == self@[self.keys()[i as int]],
            *r == self.listing()[i as int].1,
            self.coherent(),
    {
        proof {
            use_type_invariant(self);
            self.lemma_coherent();
        }
        &self.entries[i].1
    }

    /// Exchanges the value at a place among the keys with `v`.
    pub fn swap_at(&mut self, i: usize, v: &mut V)
        requires
            i < old(self).keys().len(),
        ensures
            *final(v) == old(self)@[old(self).keys()[i as int]],
            final(self).keys() == old(self).keys(),
            final(self)@ == old(self)@.insert(old(self).keys()[i as int], *old(v)),
            final(self).values() == old(self).values().update(i as int, *old(v)),
            final(self).listing() == put_entry(
                old(self).listing(),
                old(self).keys()[i as int],
                *old(v),
            ),
            *final(v) == old(self).values()[i as int],
            *final(v) == old(self).listing()[i as int].1,
    {
        proof {
            use_type_invariant(&*self);
        }
        let mut es: Vec<(String, V)> = Vec::new();
        std::mem::swap(&mut es, &mut self.entries);
        proof {
            lemma_entry_at(es@, i as int);
            lemma_entry_set(es@, i as int, *v);
            lemma_list_ordered(es@);
            lemma_put_known(entry_list(es@), es@[i as int].0@, *v, i as int);
        }
        let ghost before = es@;
        std::mem::swap(&mut es[i].1, v);
        assert(es@ =~= before.update(i as int, (before[i as int].0, *old(v))));
        assert(entry_list(es@) =~= entry_list(before).update(
            i as int,
            (before[i as int].0@, *old(v)),
        ));
        assert(es@.map_values(|e: (String, V)| e.1) =~= before.map_values(
            |e: (String, V)| e.1,
        ).update(i as int, *old(v)));
        self.entries = es;
    }

    /// Sets the value of a key.
    pub fn insert(&mut self, key: String, value: V)
        ensures
            final(self)@ == old(self)@.insert(key@, value),
            final(self).listing() == put_entry(old(self).listing(), key@, value),
    {
        proof {
            use_type_invariant(&*self);
        }
        match self.position(key.as_str()) {
            Some(i) => {
                let mut v = value;
                self.swap_at(i, &mut v);
            },
            None => {
                let mut es: Vec<(String, V)> = Vec::new();
                std::mem::swap(&mut es, &mut self.entries);
                let mut i: usize = 0;
                while i < es.len() && text_before(es[i].0.as_str(), key.as_str())
                    invariant
                        i <= es@.len(),
                        forall|j: int| 0 <= j < i ==> text_less((#[trigger] es@[j]).0@, key@),
                    decreases es@.len() - i,
                {
                    i += 1;
                }
                proof {
                    assert(!has_entry(es@, key@));
                    assert forall|j: int| i <= j < es@.len() implies text_less(
                        key@,
                        (#[trigger] es@[j]).0@,
                    ) by {
                        lemma_text_less_total(es@[i as int].0@, key@);
                        assert(text_less(key@, es@[i as int].0@));
                        if j > i {
                            assert(entry_keys(es@)[i as int] == es@[i as int].0@);
                            assert(entry_keys(es@)[j] == es@[j].0@);
                            lemma_text_less_transitive(
                                key@,
                                es@[i as int].0@,
                                es@[j].0@,
                            );
                        }
                    }
                    lemma_entry_insert(es@, i as int, key, value);
                    let list = entry_list(es@);
                    assert forall|j: int| 0 <= j < i implies text_less(
                        (#[trigger] list[j]).0,
                        key@,
                    ) by {
                        assert(text_less(es@[j].0@, key@));
                    }
                    assert forall|j: int| i <= j < list.len() implies text_less(
                        key@,
                        (#[trigger] list[j]).0,
                    ) by {
                        assert(text_less(key@, es@[j].0@));
                    }
                    lemma_put_new(list, key@, value, i as int);
                    assert(entry_list(es@.insert(i as int, (key, value))) =~= list.insert(
                        i as int,
                        (key@, value),
                    ));
                }
                es.insert(i, (key, value));
                self.entries = es;
            },
        }
    }

    /// Sets the value of a key that the map does not have yet.
    pub fn insert_if_absent(&mut self, key: String, value: V)
        ensures
            final(self)@ == if old(self)@.contains_key(key@) {
                old(self)@
            } else {
                old(self)@.insert(key@, value)
            },
    {
        if !self.contains_key(key.as_str()) {
            self.insert(key, value);
        }
    }

    /// Takes a key out of the map.
    pub fn remove(&mut self, key: &str) -> (r: Option<V>)
        ensures
            final(self)@ == old(self)@.remove(key@),
            r == if old(self)@.contains_key(key@) {
                Some(old(self)@[key@])
            } else {
                None
            },
    {
        proof {
            use_type_invariant(&*self);
        }
        match self.position(key) {
            Some(i) => {
                let mut es: Vec<(String, V)> = Vec::new();
                std::mem::swap(&mut es, &mut self.entries);
                proof {
                    lemma_entry_at(es@, i as int);
                    lemma_entry_remove(es@, i as int);
                }
                let (_, v) = es.remove(i);
                self.entries = es;
                Some(v)
            },
            None => {
                assert(self@ =~= self@.remove(key@));
                None
            },
        }
    }
}

impl<V: Copy> StrMap<V> {
    /// The same map once more.
    pub fn copied(&self) -> (r: StrMap<V>)
        ensures
            r.listing() == self.listing(),
            r@ == self@,
    {
        proof {
            use_type_invariant(self);
        }
        let mut es: Vec<(String, V)> = Vec::new();
        let mut i: usize = 0;
        while i < self.entries.len()
            invariant
                i <= self.entries@.len(),
                es@.len() == i,
                forall|j: int| 0 <= j < i ==> (#[trigger] es@[j]) == self.entries@[j],
            decreases self.entries@.len() - i,
        {
            es.push((self.entries[i].0.clone(), self.entries[i].1));
            i += 1;
        }
        proof {
            assert(es@ =~= self.entries@);
        }
        StrMap { entries: es }
    }
}

impl<V: Clone> Clone for StrMap<V> {
    fn clone(&self) -> (r: StrMap<V>)
        ensures
            r.keys() == self.keys(),
            r@.dom() == self@.dom(),
            r.values().len() == self.values().len(),
            forall|i: int|
                0 <= i < self.values().len() ==> cloned(
                    #[trigger] self.values()[i],
                    r.values()[i],
                ),
            forall|k: Seq<char>| #[trigger] self@.contains_key(k) ==> cloned(self@[k], r@[k]),
            r.listing().len() == self.listing().len(),
            forall|i: int|
                0 <= i < self.listing().len() ==> (#[trigger] r.listing()[i]).0
                    == self.listing()[i].0 && cloned(self.listing()[i].1, r.listing()[i].1),
    {
        proof {
            use_type_invariant(self);
        }
        let mut es: Vec<(String, V)> = Vec::new();
        let mut i: usize = 0;
        while i < self.entries.len()
            invariant
                i <= self.entries@.len(),
                es@.len() == i,
                forall|j: int|
                    0 <= j < i ==> (#[trigger] es@[j]).0 == self.entries@[j].0 && cloned(
                        self.entries@[j].1,
                        es@[j].1,
                    ),
            decreases self.entries@.len() - i,
        {
            es.push((self.entries[i].0.clone(), self.entries[i].1.clone()));
            i += 1;
        }
        proof {
            assert(entry_keys(es@) =~= entry_keys(self.entries@));
        }
        let r = StrMap { entries: es };
        proof {
            self.lemma_coherent();
            r.lemma_coherent();
            assert forall|k: Seq<char>| #[trigger] self@.dom().contains(k) <==> r@.dom().contains(k) by {
                assert(self@.contains_key(k) <==> self.keys().contains(k));
                assert(r@.contains_key(k) <==> r.keys().contains(k));
            }
            assert(r@.dom() =~= self@.dom());
            assert forall|i: int| 0 <= i < self.values().len() implies cloned(
                #[trigger] self.values()[i],
                r.values()[i],
            ) by {
                assert(es@[i].0 == self.entries@[i].0);
            }
            assert forall|i: int| 0 <= i < self.listing().len() implies (#[trigger] r.listing()[i]).0
                == self.listing()[i].0 && cloned(self.listing()[i].1, r.listing()[i].1) by {
                assert(es@[i].0 == self.entries@[i].0);
            }
            assert forall|k: Seq<char>| #[trigger] self@.contains_key(k) implies cloned(
                self@[k],
                r@[k],
            ) by {
                assert(self.keys().contains(k));
                let i = choose|i: int| 0 <= i < self.keys().len() && self.keys()[i] == k;
                assert(self.keys()[i] == k && r.keys()[i] == k);
                assert(cloned(self.values()[i], r.values()[i]));
            }
        }
        r
    }
}

impl<V> Default for StrMap<V> {
    fn default() -> (r: StrMap<V>)
        ensures
            r@ == Map::<Seq<char>, V>::empty(),
    {
        StrMap::new()
    }
}

} // verus!
