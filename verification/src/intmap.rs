//! A map from integers to values, read in the order of its keys.
use std::collections::BTreeMap;
use vstd::prelude::*;
use vstd::std_specs::btree::increasing_seq;
use vstd::std_specs::cmp::OrdSpec;
use vstd::std_specs::iter::IteratorSpec;

verus! {

/// A map from integers to values. What it says is the list of its entries in the order of their
/// keys, each key once.
#[derive(Debug, PartialEq)]
pub struct IntMap<V> {
    map: BTreeMap<i64, V>,
}

/// The keys stand in strictly ascending order.
pub open spec fn climbing<V>(s: Seq<(i64, V)>) -> bool {
    forall|i: int, j: int| 0 <= i < j < s.len() ==> (#[trigger] s[i]).0 < (#[trigger] s[j]).0
}

/// The value of a key.
pub open spec fn value_at<V>(s: Seq<(i64, V)>, k: i64) -> Option<V>
    decreases s.len(),
{
    if s.len() == 0 {
        None
    } else if s.last().0 == k {
        Some(s.last().1)
    } else {
        value_at(s.drop_last(), k)
    }
}

/// The entries with a value for a key.
pub open spec fn with_value<V>(s: Seq<(i64, V)>, k: i64, v: V) -> Seq<(i64, V)>
    decreases s.len(),
{
    if s.len() == 0 || s.last().0 < k {
        s.push((k, v))
    } else if s.last().0 == k {
        s.drop_last().push((k, v))
    } else {
        with_value(s.drop_last(), k, v).push(s.last())
    }
}

/// The entries without a key.
pub open spec fn without_key<V>(s: Seq<(i64, V)>, k: i64) -> Seq<(i64, V)>
    decreases s.len(),
{
    if s.len() == 0 {
        s
    } else if s.last().0 == k {
        s.drop_last()
    } else {
        without_key(s.drop_last(), k).push(s.last())
    }
}

proof fn lemma_value_at<V>(s: Seq<(i64, V)>, k: i64, i: int)
    requires
        climbing(s),
        0 <= i < s.len(),
        s[i].0 == k,
    ensures
        value_at(s, k) == Some(s[i].1),
    decreases s.len(),
{
    if i < s.len() - 1 {
        assert(s[i].0 < s[s.len() - 1].0);
        lemma_value_at(s.drop_last(), k, i);
    }
}

proof fn lemma_no_value<V>(s: Seq<(i64, V)>, k: i64)
    requires
        forall|i: int| 0 <= i < s.len() ==> (#[trigger] s[i]).0 != k,
    ensures
        value_at(s, k) is None,
        without_key(s, k) == s,
    decreases s.len(),
{
    if s.len() > 0 {
        assert(s[s.len() - 1].0 != k);
        let rest = s.drop_last();
        assert forall|i: int| 0 <= i < rest.len() implies (#[trigger] rest[i]).0 != k by {
            assert(s[i].0 != k);
        }
        lemma_no_value(rest, k);
        assert(rest.push(s.last()) =~= s);
    }
}

proof fn lemma_put<V>(s: Seq<(i64, V)>, k: i64, v: V, i: int)
    requires
        climbing(s),
        0 <= i <= s.len(),
        forall|j: int| 0 <= j < i ==> (#[trigger] s[j]).0 < k,
        forall|j: int| i <= j < s.len() ==> (#[trigger] s[j]).0 >= k,
    ensures
        i < s.len() && s[i].0 == k ==> with_value(s, k, v) == s.update(i, (k, v)),
        !(i < s.len() && s[i].0 == k) ==> with_value(s, k, v) == s.insert(i, (k, v)),
        climbing(with_value(s, k, v)),
    decreases s.len(),
{
    if s.len() == 0 {
        assert(s.push((k, v)) =~= s.insert(i, (k, v)));
    } else if i == s.len() {
        assert(s[s.len() - 1].0 < k);
        assert(s.push((k, v)) =~= s.insert(i, (k, v)));
    } else {
        let last = s.len() - 1;
        assert(s[last].0 >= k);
        let rest = s.drop_last();
        if s[last].0 == k {
            if i < last {
                assert(s[i].0 >= k);
                assert(s[i].0 < s[last].0);
            }
            assert(s.drop_last().push((k, v)) =~= s.update(i, (k, v)));
        } else {
            lemma_put(rest, k, v, i);
            if i < last && s[i].0 == k {
                assert(rest.update(i, (k, v)).push(s.last()) =~= s.update(i, (k, v)));
            } else {
                assert(rest.insert(i, (k, v)).push(s.last()) =~= s.insert(i, (k, v)));
            }
        }
    }
}

proof fn lemma_drop<V>(s: Seq<(i64, V)>, k: i64, i: int)
    requires
        climbing(s),
        0 <= i < s.len(),
        s[i].0 == k,
    ensures
        without_key(s, k) == s.remove(i),
        climbing(s.remove(i)),
    decreases s.len(),
{
    let last = s.len() - 1;
    if i == last {
        assert(s.drop_last() =~= s.remove(i));
    } else {
        assert(s[i].0 < s[last].0);
        lemma_drop(s.drop_last(), k, i);
        assert(s.drop_last().remove(i).push(s.last()) =~= s.remove(i));
    }
}

/// What is set is what is read, and nothing else is touched.
pub proof fn law_set_then_read<V>(s: Seq<(i64, V)>, k: i64, v: V, q: i64)
    requires
        climbing(s),
    ensures
        value_at(with_value(s, k, v), q) == if q == k {
            Some(v)
        } else {
            value_at(s, q)
        },
        climbing(with_value(s, k, v)),
    decreases s.len(),
{
    let t = with_value(s, k, v);
    let i = choose_place(s, k);
    lemma_choose_place(s, k);
    lemma_put(s, k, v, i);
    if s.len() > 0 && s.last().0 >= k {
        if s.last().0 == k {
            assert(t.drop_last() =~= s.drop_last());
        } else {
            assert forall|a: int, b: int| 0 <= a < b < s.drop_last().len() implies (
            #[trigger] s.drop_last()[a]).0 < (#[trigger] s.drop_last()[b]).0 by {
                assert(s[a].0 < s[b].0);
            }
            law_set_then_read(s.drop_last(), k, v, q);
            assert(t.drop_last() =~= with_value(s.drop_last(), k, v));
        }
    } else {
        assert(t.drop_last() =~= s);
    }
}

/// What is taken out is gone, and nothing else is touched.
pub proof fn law_remove_then_read<V>(s: Seq<(i64, V)>, k: i64, q: i64)
    requires
        climbing(s),
    ensures
        value_at(without_key(s, k), q) == if q == k {
            None
        } else {
            value_at(s, q)
        },
    decreases s.len(),
{
    if s.len() > 0 {
        let rest = s.drop_last();
        assert forall|a: int, b: int| 0 <= a < b < rest.len() implies (#[trigger] rest[a]).0 < (
        #[trigger] rest[b]).0 by {
            assert(s[a].0 < s[b].0);
        }
        law_remove_then_read(rest, k, q);
        if s.last().0 == k {
            assert forall|a: int| 0 <= a < rest.len() implies (#[trigger] rest[a]).0 != k by {
                assert(s[a].0 < s[s.len() - 1].0);
            }
            lemma_no_value(rest, k);
        } else {
            assert(without_key(s, k).drop_last() =~= without_key(rest, k));
        }
    }
}

/// How many keys are below a key.
spec fn choose_place<V>(s: Seq<(i64, V)>, k: i64) -> int
    decreases s.len(),
{
    if s.len() == 0 {
        0
    } else if s.last().0 < k {
        s.len() as int
    } else {
        choose_place(s.drop_last(), k)
    }
}

proof fn lemma_choose_place<V>(s: Seq<(i64, V)>, k: i64)
    requires
        climbing(s),
    ensures
        0 <= choose_place(s, k) <= s.len(),
        forall|j: int| 0 <= j < choose_place(s, k) ==> (#[trigger] s[j]).0 < k,
        forall|j: int| choose_place(s, k) <= j < s.len() ==> (#[trigger] s[j]).0 >= k,
    decreases s.len(),
{
    if s.len() > 0 {
        if s.last().0 < k {
            assert forall|j: int| 0 <= j < s.len() implies (#[trigger] s[j]).0 < k by {
                if j < s.len() - 1 {
                    assert(s[j].0 < s[s.len() - 1].0);
                }
            }
        } else {
            let rest = s.drop_last();
            lemma_choose_place(rest, k);
            let i = choose_place(rest, k);
            assert forall|j: int| 0 <= j < i implies (#[trigger] s[j]).0 < k by {
                assert(rest[j].0 < k);
            }
            assert forall|j: int| i <= j < s.len() implies (#[trigger] s[j]).0 >= k by {
                if j < rest.len() {
                    assert(rest[j].0 >= k);
                }
            }
        }
    }
}

/// The entries stand in the order of their keys, and are those of a map.
spec fn lists<V>(s: Seq<(i64, V)>, m: Map<i64, V>) -> bool {
    &&& climbing(s)
    &&& forall|k: i64| #[trigger] m.contains_key(k) <==> value_at(s, k) is Some
    &&& forall|k: i64| #[trigger] m.contains_key(k) ==> value_at(s, k) == Some(m[k])
}

/// The entries of a map, in the order of their keys.
spec fn listing<V>(m: Map<i64, V>) -> Seq<(i64, V)> {
    choose|s: Seq<(i64, V)>| lists(s, m)
}

proof fn lemma_found<V>(s: Seq<(i64, V)>, k: i64)
    requires
        value_at(s, k) is Some,
    ensures
        exists|i: int| 0 <= i < s.len() && (#[trigger] s[i]).0 == k && value_at(s, k) == Some(s[i].1),
    decreases s.len(),
{
    if s.last().0 == k {
        assert(s[s.len() - 1] == s.last());
    } else {
        let rest = s.drop_last();
        lemma_found(rest, k);
        let i = choose|i: int|
            0 <= i < rest.len() && (#[trigger] rest[i]).0 == k && value_at(rest, k) == Some(
                rest[i].1,
            );
        assert(s[i] == rest[i]);
    }
}

proof fn lemma_last_key_is_largest<V>(a: Seq<(i64, V)>, b: Seq<(i64, V)>)
    requires
        climbing(b),
        a.len() > 0,
        value_at(a, a.last().0) == value_at(b, a.last().0),
    ensures
        b.len() > 0,
        a.last().0 <= b.last().0,
{
    let k = a.last().0;
    lemma_found(b, k);
    let i = choose|i: int| 0 <= i < b.len() && (#[trigger] b[i]).0 == k;
    if i < b.len() - 1 {
        assert(b[i].0 < b[b.len() - 1].0);
    }
}

proof fn lemma_without_last<V>(s: Seq<(i64, V)>, k: i64)
    requires
        climbing(s),
        s.len() > 0,
    ensures
        climbing(s.drop_last()),
        value_at(s.drop_last(), k) == if k == s.last().0 {
            None
        } else {
            value_at(s, k)
        },
{
    let rest = s.drop_last();
    assert(forall|i: int| 0 <= i < rest.len() ==> rest[i] == s[i]);
    if k == s.last().0 {
        assert forall|i: int| 0 <= i < rest.len() implies (#[trigger] rest[i]).0 != k by {
            assert(s[i].0 < s[s.len() - 1].0);
        }
        lemma_no_value(rest, k);
    }
}

proof fn lemma_one_listing<V>(a: Seq<(i64, V)>, b: Seq<(i64, V)>)
    requires
        climbing(a),
        climbing(b),
        forall|k: i64| #[trigger] value_at(a, k) == value_at(b, k),
    ensures
        a == b,
    decreases a.len(),
{
    if a.len() == 0 {
        if b.len() > 0 {
            assert(value_at(a, b.last().0) == value_at(b, b.last().0));
        }
        assert(a =~= b);
    } else {
        assert(value_at(a, a.last().0) == value_at(b, a.last().0));
        lemma_last_key_is_largest(a, b);
        assert(value_at(a, b.last().0) == value_at(b, b.last().0));
        lemma_last_key_is_largest(b, a);
        let (c, d) = (a.drop_last(), b.drop_last());
        assert forall|k: i64| #[trigger] value_at(c, k) == value_at(d, k) by {
            lemma_without_last(a, k);
            lemma_without_last(b, k);
            assert(value_at(a, k) == value_at(b, k));
        }
        lemma_without_last(a, 0);
        lemma_without_last(b, 0);
        lemma_one_listing(c, d);
        assert(a =~= c.push(a.last()));
        assert(b =~= d.push(b.last()));
    }
}

proof fn lemma_listing<V>(s: Seq<(i64, V)>, m: Map<i64, V>)
    requires
        lists(s, m),
    ensures
        lists(listing(m), m),
        listing(m) == s,
{
    let t = listing(m);
    assert(lists(t, m));
    assert forall|k: i64| #[trigger] value_at(s, k) == value_at(t, k) by {
        assert(m.contains_key(k) <==> value_at(s, k) is Some);
        assert(m.contains_key(k) <==> value_at(t, k) is Some);
    }
    lemma_one_listing(s, t);
}

proof fn lemma_listing_len<V>(s: Seq<(i64, V)>, m: Map<i64, V>)
    requires
        lists(s, m),
        m.dom().finite(),
    ensures
        s.len() == m.dom().len(),
    decreases s.len(),
{
    if s.len() == 0 {
        assert forall|k: i64| !m.dom().contains(k) by {
            assert(m.contains_key(k) <==> value_at(s, k) is Some);
        }
        assert(m.dom() =~= Set::<i64>::empty());
    } else {
        let x = s.last().0;
        let rest = s.drop_last();
        let left = m.remove(x);
        assert(m.contains_key(x) <==> value_at(s, x) is Some);
        assert forall|k: i64| #[trigger] left.contains_key(k) <==> value_at(rest, k) is Some by {
            lemma_without_last(s, k);
            assert(m.contains_key(k) <==> value_at(s, k) is Some);
        }
        assert forall|k: i64| #[trigger] left.contains_key(k) implies value_at(rest, k) == Some(
            left[k],
        ) by {
            lemma_without_last(s, k);
            assert(m.contains_key(k));
        }
        lemma_without_last(s, x);
        lemma_listing_len(rest, left);
        assert(left.dom() =~= m.dom().remove(x));
    }
}

proof fn lemma_set_listing<V>(s: Seq<(i64, V)>, m: Map<i64, V>, k: i64, v: V)
    requires
        lists(s, m),
    ensures
        lists(with_value(s, k, v), m.insert(k, v)),
{
    lemma_choose_place(s, k);
    lemma_put(s, k, v, choose_place(s, k));
    let t = with_value(s, k, v);
    let n = m.insert(k, v);
    assert forall|q: i64| #[trigger] n.contains_key(q) <==> value_at(t, q) is Some by {
        law_set_then_read(s, k, v, q);
        assert(m.contains_key(q) <==> value_at(s, q) is Some);
    }
    assert forall|q: i64| #[trigger] n.contains_key(q) implies value_at(t, q) == Some(n[q]) by {
        law_set_then_read(s, k, v, q);
        if q != k {
            assert(m.contains_key(q));
        }
    }
}

proof fn lemma_removed_listing<V>(s: Seq<(i64, V)>, m: Map<i64, V>, k: i64)
    requires
        lists(s, m),
    ensures
        lists(without_key(s, k), m.remove(k)),
        value_at(s, k) is None ==> without_key(s, k) == s,
{
    assert(m.contains_key(k) <==> value_at(s, k) is Some);
    if value_at(s, k) is Some {
        lemma_found(s, k);
        let i = choose|i: int| 0 <= i < s.len() && (#[trigger] s[i]).0 == k;
        lemma_drop(s, k, i);
    } else {
        assert forall|i: int| 0 <= i < s.len() implies (#[trigger] s[i]).0 != k by {
            if s[i].0 == k {
                lemma_value_at(s, k, i);
            }
        }
        lemma_no_value(s, k);
    }
    let t = without_key(s, k);
    let n = m.remove(k);
    assert forall|q: i64| #[trigger] n.contains_key(q) <==> value_at(t, q) is Some by {
        law_remove_then_read(s, k, q);
        assert(m.contains_key(q) <==> value_at(s, q) is Some);
    }
    assert forall|q: i64| #[trigger] n.contains_key(q) implies value_at(t, q) == Some(n[q]) by {
        law_remove_then_read(s, k, q);
        assert(m.contains_key(q));
    }
}

/// Integers have an order that std's ordered maps keep.
proof fn lemma_integers_are_ordered()
    ensures
        vstd::laws_cmp::obeys_cmp::<i64>(),
        vstd::std_specs::btree::key_obeys_cmp_spec::<i64>(),
{
    broadcast use {
        vstd::std_specs::btree::group_btree_axioms,
        vstd::laws_cmp::group_laws_cmp,
    };

}

/// What a walk through a map in the order of its keys meets is the list of its entries.
proof fn lemma_walk<'a, V>(walk: Seq<(&'a i64, &'a V)>, m: Map<i64, V>)
    requires
        lists(listing(m), m),
        increasing_seq(walk.map_values(|e: (&i64, &V)| *e.0)),
        forall|i: int|
            0 <= i < walk.len() ==> m.contains_key(*(#[trigger] walk[i]).0) && m[*walk[i].0]
                == *walk[i].1,
        forall|k: i64| #[trigger] m.contains_key(k) ==> walk.contains((&k, &m[k])),
    ensures
        walk.len() == listing(m).len(),
        forall|p: int|
            0 <= p < listing(m).len() ==> *(#[trigger] walk[p]).0 == listing(m)[p].0 && *walk[p].1
                == listing(m)[p].1,
{
    broadcast use {
        vstd::std_specs::btree::group_btree_axioms,
        vstd::laws_cmp::group_laws_cmp,
    };

    let s = walk.map_values(|e: (&i64, &V)| (*e.0, *e.1));
    let keys = walk.map_values(|e: (&i64, &V)| *e.0);
    assert(climbing(s)) by {
        assert forall|i: int, j: int| 0 <= i < j < s.len() implies (#[trigger] s[i]).0 < (
        #[trigger] s[j]).0 by {
            assert(keys[i].cmp_spec(&keys[j]) is Less);
            assert(keys[i] == s[i].0 && keys[j] == s[j].0);
        }
    }
    assert forall|k: i64| #[trigger] m.contains_key(k) implies value_at(s, k) == Some(m[k]) by {
        assert(walk.contains((&k, &m[k])));
        let i = choose|i: int| 0 <= i < walk.len() && walk[i] == (&k, &m[k]);
        assert(s[i] == (k, m[k]));
        lemma_value_at(s, k, i);
    }
    assert forall|k: i64| #[trigger] m.contains_key(k) <==> value_at(s, k) is Some by {
        if value_at(s, k) is Some {
            lemma_found(s, k);
            let i = choose|i: int| 0 <= i < s.len() && (#[trigger] s[i]).0 == k;
            assert(m.contains_key(*walk[i].0));
        }
    }
    lemma_listing(s, m);
}

/// Entries in order are still in order without a key.
pub proof fn law_removal_keeps_order<V>(s: Seq<(i64, V)>, k: i64)
    requires
        climbing(s),
    ensures
        climbing(without_key(s, k)),
{
    if exists|i: int| 0 <= i < s.len() && (#[trigger] s[i]).0 == k {
        let i = choose|i: int| 0 <= i < s.len() && (#[trigger] s[i]).0 == k;
        lemma_drop(s, k, i);
    } else {
        lemma_no_value(s, k);
    }
}

/// A key has a value exactly where the two stand among the entries.
pub proof fn law_values_stand_among_the_entries<V>(s: Seq<(i64, V)>, k: i64, v: V)
    requires
        climbing(s),
    ensures
        s.contains((k, v)) <==> value_at(s, k) == Some(v),
{
    if s.contains((k, v)) {
        let i = choose|i: int| 0 <= i < s.len() && s[i] == (k, v);
        lemma_value_at(s, k, i);
    }
    if value_at(s, k) == Some(v) {
        lemma_found(s, k);
        let i = choose|i: int| 0 <= i < s.len() && (#[trigger] s[i]).0 == k;
        lemma_value_at(s, k, i);
        assert(s[i] == (k, v));
    }
}

impl<V> View for IntMap<V> {
    type V = Seq<(i64, V)>;

    closed spec fn view(&self) -> Seq<(i64, V)> {
        listing(self.map@)
    }
}

impl<V> IntMap<V> {
    #[verifier::type_invariant]
    spec fn in_order(self) -> bool {
        lists(listing(self.map@), self.map@)
    }

    /// An empty map.
    pub fn new() -> (r: IntMap<V>)
        ensures
            r@ == Seq::<(i64, V)>::empty(),
    {
        proof {
            lemma_listing(Seq::<(i64, V)>::empty(), Map::<i64, V>::empty());
        }
        IntMap { map: BTreeMap::new() }
    }

    /// The number of keys.
    pub fn len(&self) -> (n: usize)
        ensures
            n == self@.len(),
            climbing(self@),
    {
        broadcast use vstd::std_specs::btree::group_btree_axioms;

        proof {
            lemma_integers_are_ordered();
            use_type_invariant(self);
            lemma_listing_len(self@, self.map@);
        }
        self.map.len()
    }

    /// Whether the map has no key.
    pub fn is_empty(&self) -> (r: bool)
        ensures
            r == (self@.len() == 0),
    {
        self.len() == 0
    }

    /// The entry at a place.
    fn nth(&self, i: usize) -> (r: Option<(i64, &V)>)
        requires
            i < self@.len(),
        ensures
            r matches Some(e) && e.0 == self@[i as int].0 && *e.1 == self@[i as int].1,
    {
        broadcast use vstd::std_specs::btree::group_btree_axioms;

        proof {
            use_type_invariant(self);
            lemma_integers_are_ordered();
        }
        let n: usize = self.len();
        let entries = self.map.iter();
        proof {
            lemma_walk(entries.remaining(), self.map@);
        }
        let mut found: Option<(i64, &V)> = None;
        let mut j: usize = 0;
        for e in walk: entries
            invariant
                j == walk.index(),
                walk.seq().len() == self@.len(),
                n == self@.len(),
                i < self@.len(),
                forall|p: int|
                    0 <= p < self@.len() ==> *(#[trigger] walk.seq()[p]).0 == self@[p].0
                        && *walk.seq()[p].1 == self@[p].1,
                j > i ==> (found matches Some(e) && e.0 == self@[i as int].0 && *e.1
                    == self@[i as int].1),
        {
            if j == i {
                found = Some((*e.0, e.1));
            }
            j += 1;
        }
        found
    }

    /// The key at a place.
    pub fn key_at(&self, i: usize) -> (r: i64)
        requires
            i < self@.len(),
        ensures
            r == self@[i as int].0,
    {
        self.nth(i).unwrap().0
    }

    /// The value at a place.
    pub fn value_ref(&self, i: usize) -> (r: &V)
        requires
            i < self@.len(),
        ensures
            *r == self@[i as int].1,
    {
        self.nth(i).unwrap().1
    }

    /// The value of a key.
    pub fn get(&self, k: i64) -> (r: Option<&V>)
        ensures
            match r {
                Some(v) => value_at(self@, k) == Some(*v),
                None => value_at(self@, k) is None,
            },
    {
        broadcast use vstd::std_specs::btree::group_btree_axioms;

        proof {
            lemma_integers_are_ordered();
            use_type_invariant(self);
            assert(self.map@.contains_key(k) <==> value_at(self@, k) is Some);
        }
        self.map.get(&k)
    }

    /// Sets the value of a key.
    pub fn insert(&mut self, k: i64, v: V)
        ensures
            final(self)@ == with_value(old(self)@, k, v),
    {
        broadcast use vstd::std_specs::btree::group_btree_axioms;

        proof {
            lemma_integers_are_ordered();
            use_type_invariant(&*self);
            lemma_set_listing(self@, self.map@, k, v);
            lemma_listing(with_value(self@, k, v), self.map@.insert(k, v));
            lemma_listing(Seq::<(i64, V)>::empty(), Map::<i64, V>::empty());
        }
        let mut map: BTreeMap<i64, V> = BTreeMap::new();
        std::mem::swap(&mut map, &mut self.map);
        let _ = map.insert(k, v);
        self.map = map;
    }

    /// Takes a key out of the map; whether it was there.
    pub fn remove(&mut self, k: i64) -> (r: bool)
        ensures
            final(self)@ == without_key(old(self)@, k),
            r == (value_at(old(self)@, k) is Some),
            !r ==> final(self)@ == old(self)@,
    {
        broadcast use vstd::std_specs::btree::group_btree_axioms;

        proof {
            lemma_integers_are_ordered();
            use_type_invariant(&*self);
            lemma_removed_listing(self@, self.map@, k);
            lemma_listing(without_key(self@, k), self.map@.remove(k));
            lemma_listing(Seq::<(i64, V)>::empty(), Map::<i64, V>::empty());
            assert(self.map@.contains_key(k) <==> value_at(self@, k) is Some);
        }
        let mut map: BTreeMap<i64, V> = BTreeMap::new();
        std::mem::swap(&mut map, &mut self.map);
        let gone = map.remove(&k);
        self.map = map;
        gone.is_some()
    }

    /// Takes everything out of the map.
    pub fn clear(&mut self)
        ensures
            final(self)@ == Seq::<(i64, V)>::empty(),
    {
        proof {
            lemma_listing(Seq::<(i64, V)>::empty(), Map::<i64, V>::empty());
        }
        self.map = BTreeMap::new();
    }
}

impl<V> Default for IntMap<V> {
    fn default() -> (r: IntMap<V>)
        ensures
            r@ == Seq::<(i64, V)>::empty(),
    {
        IntMap::new()
    }
}

impl<V: Copy> Clone for IntMap<V> {
    fn clone(&self) -> (r: IntMap<V>)
        ensures
            r@ == self@,
    {
        broadcast use vstd::std_specs::btree::group_btree_axioms;

        proof {
            use_type_invariant(self);
            lemma_integers_are_ordered();
        }
        let entries = self.map.iter();
        proof {
            lemma_walk(entries.remaining(), self.map@);
        }
        let mut out: IntMap<V> = IntMap::new();
        let ghost all = self@;
        assert(all.take(0) =~= Seq::<(i64, V)>::empty());
        for e in walk: entries
            invariant
                walk.seq().len() == all.len(),
                climbing(all),
                forall|p: int|
                    0 <= p < all.len() ==> *(#[trigger] walk.seq()[p]).0 == all[p].0
                        && *walk.seq()[p].1 == all[p].1,
                out@ == all.take(walk.index() as int),
        {
            let ghost i = walk.index() as int;
            proof {
                assert(*e.0 == all[i].0 && *e.1 == all[i].1);
                if i > 0 {
                    assert(all.take(i).last() == all[i - 1]);
                    assert(all[i - 1].0 < all[i].0);
                }
                assert(all.take(i + 1) =~= all.take(i).push(all[i]));
            }
            out.insert(*e.0, *e.1);
        }
        assert(all.take(all.len() as int) =~= all);
        out
    }
}

} // verus!
