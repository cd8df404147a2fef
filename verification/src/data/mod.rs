//! Event streams: their order, their filters and what they hold.
use crate::error::{Error, ErrorKind};
use crate::foreign::{gunzip, gunzipped};
use crate::text::{chars_of, ends, same_text, starts, starts_with, strip_suffix};
use crate::types::{event_views, EventView, MarketEvent};
use vstd::prelude::*;

pub mod clickhouse;
pub mod clickhouse_schema;
pub mod ndjson;
pub mod summary;

verus! {

/// The events of one instant, in the order in which they stand.
pub open spec fn at_instant<N>(events: Seq<MarketEvent<N>>, t: i64) -> Seq<MarketEvent<N>> {
    events.filter(|e: MarketEvent<N>| e.ts() == t)
}

/// The events stand in ascending order of time.
pub open spec fn time_ordered<N>(events: Seq<MarketEvent<N>>) -> bool {
    forall|i: int, j: int|
        0 <= i <= j < events.len() ==> (#[trigger] events[i]).ts() <= (#[trigger] events[j]).ts()
}

/// `sorted` is `events` in ascending order of time, the events of each instant in the order in
/// which they stood.
pub open spec fn stably_sorted<N>(events: Seq<MarketEvent<N>>, sorted: Seq<MarketEvent<N>>) -> bool {
    &&& time_ordered(sorted)
    &&& sorted.len() == events.len()
    &&& forall|t: i64| #[trigger] at_instant(sorted, t) == at_instant(events, t)
}

proof fn lemma_instant_concat<N>(a: Seq<MarketEvent<N>>, b: Seq<MarketEvent<N>>, t: i64)
    ensures
        at_instant(a + b, t) == at_instant(a, t) + at_instant(b, t),
    decreases b.len(),
{
    let f = |e: MarketEvent<N>| e.ts() == t;
    reveal(Seq::filter);
    if b.len() == 0 {
        assert(a + b =~= a);
        assert(at_instant(a, t) + at_instant(b, t) =~= at_instant(a, t));
    } else {
        lemma_instant_concat(a, b.drop_last(), t);
        assert((a + b).drop_last() =~= a + b.drop_last());
        if f(b.last()) {
            assert(at_instant(a, t) + at_instant(b.drop_last(), t).push(b.last()) =~= (at_instant(
                a,
                t,
            ) + at_instant(b.drop_last(), t)).push(b.last()));
        }
    }
}

proof fn lemma_instant_single<N>(e: MarketEvent<N>, t: i64)
    ensures
        at_instant(seq![e], t) == if e.ts() == t {
            seq![e]
        } else {
            Seq::<MarketEvent<N>>::empty()
        },
{
    reveal_with_fuel(Seq::filter, 2);
    assert(seq![e].drop_last() =~= Seq::<MarketEvent<N>>::empty());
    assert(Seq::<MarketEvent<N>>::empty().push(e) =~= seq![e]);
}

proof fn lemma_instant_none<N>(s: Seq<MarketEvent<N>>, t: i64)
    requires
        forall|i: int| 0 <= i < s.len() ==> (#[trigger] s[i]).ts() != t,
    ensures
        at_instant(s, t) == Seq::<MarketEvent<N>>::empty(),
    decreases s.len(),
{
    reveal(Seq::filter);
    if s.len() > 0 {
        lemma_instant_none(s.drop_last(), t);
        assert(s.last().ts() != t);
    }
}

/// One step of the merge: the last event of `left + [x] + right` moves in front of `done`.
proof fn lemma_instant_move<N>(
    left: Seq<MarketEvent<N>>,
    right: Seq<MarketEvent<N>>,
    x: MarketEvent<N>,
    done: Seq<MarketEvent<N>>,
    from_left: bool,
    t: i64,
)
    requires
        from_left ==> forall|i: int| 0 <= i < right.len() ==> (#[trigger] right[i]).ts() < x.ts(),
    ensures
        from_left ==> at_instant(left.push(x), t) + at_instant(right, t) + at_instant(done, t)
            == at_instant(left, t) + at_instant(right, t) + at_instant(seq![x] + done, t),
        !from_left ==> at_instant(left, t) + at_instant(right.push(x), t) + at_instant(done, t)
            == at_instant(left, t) + at_instant(right, t) + at_instant(seq![x] + done, t),
{
    lemma_instant_concat(seq![x], done, t);
    lemma_instant_single(x, t);
    if from_left {
        assert(left.push(x) =~= left + seq![x]);
        lemma_instant_concat(left, seq![x], t);
        if x.ts() == t {
            lemma_instant_none(right, t);
        }
        assert(at_instant(left.push(x), t) + at_instant(right, t) + at_instant(done, t)
            =~= at_instant(left, t) + at_instant(right, t) + at_instant(seq![x] + done, t));
    } else {
        assert(right.push(x) =~= right + seq![x]);
        lemma_instant_concat(right, seq![x], t);
        assert(at_instant(left, t) + at_instant(right.push(x), t) + at_instant(done, t)
            =~= at_instant(left, t) + at_instant(right, t) + at_instant(seq![x] + done, t));
    }
}

/// Turns a list around.
fn turned<T>(v: Vec<T>) -> (r: Vec<T>)
    ensures
        r@ == v@.reverse(),
{
    let ghost all = v@;
    let mut v = v;
    let mut r: Vec<T> = Vec::new();
    while v.len() > 0
        invariant
            v@.len() + r@.len() == all.len(),
            v@ == all.take(v@.len() as int),
            forall|i: int| 0 <= i < r@.len() ==> r@[i] == all[all.len() - 1 - i],
        decreases v@.len(),
    {
        let x = v.pop();
        match x {
            Some(x) => {
                r.push(x);
            },
            None => {},
        }
    }
    assert(r@ =~= all.reverse());
    r
}

/// Merges two time-ordered lists; of events of one instant, those of `left` come first.
fn merge<N>(left: Vec<MarketEvent<N>>, right: Vec<MarketEvent<N>>) -> (r: Vec<MarketEvent<N>>)
    requires
        time_ordered(left@),
        time_ordered(right@),
    ensures
        time_ordered(r@),
        r@.len() == left@.len() + right@.len(),
        forall|t: i64| #[trigger]
            at_instant(r@, t) == at_instant(left@, t) + at_instant(right@, t),
{
    let ghost l0 = left@;
    let ghost r0 = right@;
    let mut left = left;
    let mut right = right;
    let mut out: Vec<MarketEvent<N>> = Vec::new();
    proof {
        let done = out@.reverse();
        assert(done =~= Seq::<MarketEvent<N>>::empty());
        assert forall|t: i64|
            at_instant(l0, t) + at_instant(r0, t) == at_instant(left@, t) + at_instant(
                right@,
                t,
            ) + #[trigger] at_instant(done, t) by {
            lemma_instant_none(done, t);
            assert(at_instant(l0, t) + at_instant(r0, t) + at_instant(done, t) =~= at_instant(
                l0,
                t,
            ) + at_instant(r0, t));
        }
    }
    while left.len() > 0 || right.len() > 0
        invariant
            time_ordered(left@),
            time_ordered(right@),
            time_ordered(out@.reverse()),
            left@.len() + right@.len() + out@.len() == l0.len() + r0.len(),
            forall|i: int, j: int|
                0 <= i < left@.len() && 0 <= j < out@.len() ==> (#[trigger] left@[i]).ts() <= (
                #[trigger] out@[j]).ts(),
            forall|i: int, j: int|
                0 <= i < right@.len() && 0 <= j < out@.len() ==> (#[trigger] right@[i]).ts() <= (
                #[trigger] out@[j]).ts(),
            forall|t: i64|
                at_instant(l0, t) + at_instant(r0, t) == at_instant(left@, t) + at_instant(
                    right@,
                    t,
                ) + #[trigger] at_instant(out@.reverse(), t),
        decreases left@.len() + right@.len(),
    {
        let take_left: bool = if left.len() == 0 {
            false
        } else if right.len() == 0 {
            true
        } else {
            left[left.len() - 1].ts_ns() > right[right.len() - 1].ts_ns()
        };
        let ghost ls = left@;
        let ghost rs = right@;
        let ghost done = out@.reverse();
        let popped = if take_left {
            left.pop()
        } else {
            right.pop()
        };
        match popped {
            Some(x) => {
                let ghost before = out@;
                out.push(x);
                proof {
                    assert(out@.reverse() =~= seq![x] + done);
                    if take_left {
                        assert(ls =~= left@.push(x));
                        assert(x == ls[ls.len() - 1]);
                        assert forall|i: int| 0 <= i < rs.len() implies (#[trigger] rs[i]).ts()
                            < x.ts() by {
                            assert(rs[i].ts() <= rs[rs.len() - 1].ts());
                        }
                    } else {
                        assert(rs =~= right@.push(x));
                        assert(x == rs[rs.len() - 1]);
                        assert forall|i: int| 0 <= i < ls.len() implies (#[trigger] ls[i]).ts()
                            <= x.ts() by {
                            assert(ls[i].ts() <= ls[ls.len() - 1].ts());
                        }
                    }
                    assert forall|i: int, j: int|
                        0 <= i <= j < out@.reverse().len() implies (#[trigger] out@.reverse()[i]).ts()
                        <= (#[trigger] out@.reverse()[j]).ts() by {
                        if i == 0 {
                            if j > 0 {
                                assert(out@.reverse()[j] == before[before.len() - j]);
                                if take_left {
                                    assert(ls[ls.len() - 1].ts() <= before[before.len() - j].ts());
                                } else {
                                    assert(rs[rs.len() - 1].ts() <= before[before.len() - j].ts());
                                }
                            }
                        } else {
                            assert(out@.reverse()[i] == done[i - 1]);
                            assert(out@.reverse()[j] == done[j - 1]);
                        }
                    }
                    assert forall|i: int, j: int|
                        0 <= i < left@.len() && 0 <= j < out@.len() implies (
                    #[trigger] left@[i]).ts() <= (#[trigger] out@[j]).ts() by {
                        assert(left@[i] == ls[i]);
                        if j == before.len() && take_left {
                            assert(ls[i].ts() <= ls[ls.len() - 1].ts());
                        }
                    }
                    assert forall|i: int, j: int|
                        0 <= i < right@.len() && 0 <= j < out@.len() implies (
                    #[trigger] right@[i]).ts() <= (#[trigger] out@[j]).ts() by {
                        assert(right@[i] == rs[i]);
                        if j == before.len() && !take_left {
                            assert(rs[i].ts() <= rs[rs.len() - 1].ts());
                        }
                    }
                    assert forall|t: i64|
                        at_instant(l0, t) + at_instant(r0, t) == at_instant(left@, t) + at_instant(
                            right@,
                            t,
                        ) + #[trigger] at_instant(out@.reverse(), t) by {
                        assert(at_instant(l0, t) + at_instant(r0, t) == at_instant(ls, t)
                            + at_instant(rs, t) + at_instant(done, t));
                        lemma_instant_move(left@, right@, x, done, take_left, t);
                    }
                }
            },
            None => {},
        }
    }
    let r = turned(out);
    assert forall|t: i64| #[trigger]
        at_instant(r@, t) == at_instant(l0, t) + at_instant(r0, t) by {
        lemma_instant_none(left@, t);
        lemma_instant_none(right@, t);
        assert(at_instant(left@, t) + at_instant(right@, t) + at_instant(r@, t) =~= at_instant(
            r@,
            t,
        ));
    }
    r
}

/// What the events of one instant say, in the order in which they stand.
pub open spec fn said_at<N>(events: Seq<EventView<N>>, t: i64) -> Seq<EventView<N>> {
    events.filter(|e: EventView<N>| e.ts() == t)
}

/// `sorted` says what `events` say, in ascending order of time, and at each instant in the order
/// in which it was said.
pub open spec fn stable_order<N>(events: Seq<EventView<N>>, sorted: Seq<EventView<N>>) -> bool {
    &&& forall|i: int, j: int|
        0 <= i <= j < sorted.len() ==> (#[trigger] sorted[i]).ts() <= (#[trigger] sorted[j]).ts()
    &&& sorted.len() == events.len()
    &&& forall|t: i64| #[trigger] said_at(sorted, t) == said_at(events, t)
}

proof fn lemma_said_at<N>(events: Seq<MarketEvent<N>>, t: i64)
    ensures
        said_at(event_views(events), t) == event_views(at_instant(events, t)),
    decreases events.len(),
{
    reveal(Seq::filter);
    if events.len() == 0 {
        assert(event_views(at_instant(events, t)) =~= said_at(event_views(events), t));
    } else {
        let rest = events.drop_last();
        lemma_said_at(rest, t);
        assert(event_views(events).drop_last() =~= event_views(rest));
        assert(event_views(at_instant(rest, t).push(events.last())) =~= event_views(
            at_instant(rest, t),
        ).push(events.last()@));
    }
}

pub proof fn lemma_stable_order<N>(events: Seq<MarketEvent<N>>, sorted: Seq<MarketEvent<N>>)
    requires
        stably_sorted(events, sorted),
    ensures
        stable_order(event_views(events), event_views(sorted)),
{
    let es = event_views(events);
    let ss = event_views(sorted);
    assert forall|i: int, j: int| 0 <= i <= j < ss.len() implies (#[trigger] ss[i]).ts() <= (
    #[trigger] ss[j]).ts() by {
        assert(sorted[i].ts() <= sorted[j].ts());
    }
    assert forall|t: i64| #[trigger] said_at(ss, t) == said_at(es, t) by {
        lemma_said_at(events, t);
        lemma_said_at(sorted, t);
        assert(at_instant(sorted, t) == at_instant(events, t));
    }
}

/// Sorts events by time. Events of one instant keep their order.
pub fn sort_events<N>(events: Vec<MarketEvent<N>>) -> (r: Vec<MarketEvent<N>>)
    ensures
        stably_sorted(events@, r@),
        stable_order(event_views(events@), event_views(r@)),
{
    let r = merge_sort(events);
    proof {
        lemma_stable_order(events@, r@);
    }
    r
}

fn merge_sort<N>(events: Vec<MarketEvent<N>>) -> (r: Vec<MarketEvent<N>>)
    ensures
        stably_sorted(events@, r@),
    decreases events@.len(),
{
    if events.len() <= 1 {
        return events;
    }
    let ghost all = events@;
    let mut left = events;
    let half: usize = left.len() / 2;
    let right = left.split_off(half);
    let ghost l0 = left@;
    let ghost r0 = right@;
    let left = merge_sort(left);
    let right = merge_sort(right);
    let r = merge(left, right);
    proof {
        assert(l0 + r0 =~= all);
        assert forall|t: i64| #[trigger] at_instant(r@, t) == at_instant(all, t) by {
            assert(at_instant(left@, t) == at_instant(l0, t));
            assert(at_instant(right@, t) == at_instant(r0, t));
            lemma_instant_concat(l0, r0, t);
        }
    }
    r
}

/// A sorted stream is left as it is by sorting it again.
pub proof fn law_sorting_sorted<N>(events: Seq<MarketEvent<N>>, sorted: Seq<MarketEvent<N>>)
    requires
        time_ordered(events),
        stably_sorted(events, sorted),
    ensures
        sorted == events,
    decreases events.len(),
{
    if events.len() == 0 {
        assert(sorted =~= events);
    } else {
        let t = events.last().ts();
        let u = sorted.last().ts();
        lemma_last_instant(events, t);
        lemma_last_instant(sorted, u);
        assert(at_instant(events, u) == at_instant(sorted, u));
        assert(at_instant(events, t) == at_instant(sorted, t));
        lemma_instant_member(events, u);
        lemma_instant_member(sorted, t);
        assert(t == u);
        assert(events.last() == sorted.last());
        let es = events.drop_last();
        let ss = sorted.drop_last();
        assert forall|v: i64| #[trigger] at_instant(ss, v) == at_instant(es, v) by {
            assert(at_instant(sorted, v) == at_instant(events, v));
            reveal(Seq::filter);
            if v == t {
                assert(at_instant(ss, v) =~= at_instant(sorted, v).drop_last());
                assert(at_instant(es, v) =~= at_instant(events, v).drop_last());
            }
        }
        law_sorting_sorted(es, ss);
        assert(events =~= es.push(events.last()));
        assert(sorted =~= ss.push(sorted.last()));
    }
}

proof fn lemma_last_instant<N>(s: Seq<MarketEvent<N>>, t: i64)
    requires
        s.len() > 0,
        s.last().ts() == t,
    ensures
        at_instant(s, t).len() > 0,
        at_instant(s, t).last() == s.last(),
{
    reveal(Seq::filter);
}

proof fn lemma_instant_member<N>(s: Seq<MarketEvent<N>>, t: i64)
    requires
        time_ordered(s),
        s.len() > 0,
        at_instant(s, t).len() > 0,
    ensures
        t <= s.last().ts(),
{
    if t > s.last().ts() {
        assert forall|i: int| 0 <= i < s.len() implies (#[trigger] s[i]).ts() != t by {
            assert(s[i].ts() <= s[s.len() - 1].ts());
        }
        lemma_instant_none(s, t);
    }
}

/// What a pattern matches: with a `%` or `*` at its end, every value that begins with the rest;
/// else the pattern itself.
pub open spec fn matches_glob(pattern: Seq<char>, value: Seq<char>) -> bool {
    if pattern.len() > 0 && (pattern.last() == '%' || pattern.last() == '*') {
        starts(value, pattern.drop_last())
    } else {
        pattern == value
    }
}

/// Whether a pattern matches a value.
pub fn glob_match(pattern: &str, value: &str) -> (r: bool)
    ensures
        r == matches_glob(pattern@, value@),
{
    let p = chars_of(pattern);
    if p.len() > 0 && (p[p.len() - 1] == '%' || p[p.len() - 1] == '*') {
        let mut prefix = p;
        let _ = prefix.pop();
        assert(prefix@ =~= pattern@.drop_last());
        let v = chars_of(value);
        starts_with(&v, &prefix)
    } else {
        same_text(pattern, value)
    }
}

/// A file is packed, by its name: it ends in `.gz`, and something stands before that.
pub open spec fn gz_named(path: Seq<char>) -> bool {
    ends(path, ".gz"@) && path.len() > 3 && path[path.len() - 4] != '/'
}

/// What stands in some bytes up to the end of their last whole line.
pub open spec fn whole_lines(data: Seq<u8>) -> Seq<u8>
    decreases data.len(),
{
    if data.len() == 0 || data.last() == 10 {
        data
    } else {
        whole_lines(data.drop_last())
    }
}

/// What can be read of packed bytes: all that they hold; where they cannot be unpacked to their end,
/// the whole lines before the break, and what is wrong with the rest.
pub open spec fn unpacked(raw: Seq<u8>) -> (Seq<u8>, Option<(ErrorKind, Seq<char>)>) {
    match gunzipped(raw) {
        (bytes, None) => (bytes, None),
        (bytes, Some(e)) => (whole_lines(bytes), Some((ErrorKind::BadArchive, e))),
    }
}

/// What can be read of a file, unpacked where its name says that it is packed, and what is wrong
/// with the rest.
pub open spec fn readable(path: Seq<char>, raw: Seq<u8>) -> (
    Seq<u8>,
    Option<(ErrorKind, Seq<char>)>,
) {
    if gz_named(path) {
        unpacked(raw)
    } else {
        (raw, None)
    }
}

/// Whether a file is packed, by its name.
pub fn is_packed(path: &str) -> (r: bool)
    ensures
        r == gz_named(path@),
{
    match strip_suffix(path, ".gz") {
        Some(s) => {
            let v = chars_of(s.as_str());
            proof {
                reveal_strlit(".gz");
                assert(s@.len() == path@.len() - 3);
                if s@.len() > 0 {
                    assert(s@[s@.len() - 1] == path@[path@.len() - 4]);
                }
            }
            v.len() > 0 && v[v.len() - 1] != '/'
        },
        None => false,
    }
}

/// What is wrong with a file, as contracts speak of it.
pub open spec fn break_view(broken: Option<Error>) -> Option<(ErrorKind, Seq<char>)> {
    match broken {
        Some(e) => Some(e@),
        None => None,
    }
}

/// Unpacks packed bytes, as far as that can be done.
pub fn unpack(raw: &[u8]) -> (r: (Vec<u8>, Option<Error>))
    ensures
        (r.0@, break_view(r.1)) == unpacked(raw@),
{
    let (mut bytes, failure) = gunzip(raw);
    match failure {
        None => (bytes, None),
        Some(e) => {
            let ghost all = bytes@;
            while bytes.len() > 0 && bytes[bytes.len() - 1] != 10
                invariant
                    whole_lines(bytes@) == whole_lines(all),
                decreases bytes@.len(),
            {
                let _ = bytes.pop();
            }
            (bytes, Some(Error::new(ErrorKind::BadArchive, e)))
        },
    }
}

/// The result of reading a file that may break off, from that of reading what could be read: what
/// is wrong there comes first, and the break after it.
pub fn until_break<T>(read: Result<T, Error>, broken: Option<Error>) -> (r: Result<T, Error>)
    ensures
        match (read, broken) {
            (Ok(_), Some(b)) => r == Err::<T, Error>(b),
            _ => r == read,
        },
{
    match (read, broken) {
        (Ok(_), Some(b)) => Err(b),
        (read, _) => read,
    }
}

/// What events say stands in ascending order of time.
pub open spec fn told_in_order<N>(events: Seq<EventView<N>>) -> bool {
    forall|i: int, j: int|
        0 <= i <= j < events.len() ==> (#[trigger] events[i]).ts() <= (#[trigger] events[j]).ts()
}

pub proof fn lemma_said_push<N>(events: Seq<EventView<N>>, e: EventView<N>, t: i64)
    ensures
        said_at(events.push(e), t) == if e.ts() == t {
            said_at(events, t).push(e)
        } else {
            said_at(events, t)
        },
{
    reveal(Seq::filter);
    assert(events.push(e).drop_last() =~= events);
}

pub proof fn lemma_said_nothing<N>(events: Seq<EventView<N>>, t: i64)
    requires
        forall|i: int| 0 <= i < events.len() ==> (#[trigger] events[i]).ts() != t,
    ensures
        said_at(events, t) == Seq::<EventView<N>>::empty(),
    decreases events.len(),
{
    reveal(Seq::filter);
    if events.len() > 0 {
        let rest = events.drop_last();
        assert(forall|i: int| 0 <= i < rest.len() ==> rest[i] == events[i]);
        assert(events[events.len() - 1] == events.last());
        lemma_said_nothing(rest, t);
        assert(rest.push(events.last()) =~= events);
        lemma_said_push(rest, events.last(), t);
    }
}

proof fn lemma_last_is_not_later<N>(a: Seq<EventView<N>>, b: Seq<EventView<N>>)
    requires
        told_in_order(b),
        a.len() > 0,
        said_at(a, a.last().ts()) == said_at(b, a.last().ts()),
    ensures
        b.len() > 0,
        a.last().ts() <= b.last().ts(),
{
    let t = a.last().ts();
    assert(a.drop_last().push(a.last()) =~= a);
    lemma_said_push(a.drop_last(), a.last(), t);
    if forall|i: int| 0 <= i < b.len() ==> (#[trigger] b[i]).ts() != t {
        lemma_said_nothing(b, t);
        assert(said_at(a, t).len() > 0);
    } else {
        let i = choose|i: int| 0 <= i < b.len() && (#[trigger] b[i]).ts() == t;
        assert(b[i].ts() <= b[b.len() - 1].ts());
    }
}

/// There is one way to put events in order of time that keeps those of each instant as they stood.
pub proof fn law_order_is_unique<N>(a: Seq<EventView<N>>, b: Seq<EventView<N>>)
    requires
        told_in_order(a),
        told_in_order(b),
        forall|t: i64| #[trigger] said_at(a, t) == said_at(b, t),
    ensures
        a == b,
    decreases a.len(),
{
    if a.len() == 0 {
        if b.len() > 0 {
            assert(said_at(b, b.last().ts()) == said_at(a, b.last().ts()));
            lemma_last_is_not_later(b, a);
        }
        assert(a =~= b);
    } else {
        assert(said_at(a, a.last().ts()) == said_at(b, a.last().ts()));
        lemma_last_is_not_later(a, b);
        assert(said_at(b, b.last().ts()) == said_at(a, b.last().ts()));
        lemma_last_is_not_later(b, a);
        let (c, d) = (a.drop_last(), b.drop_last());
        let (x, y) = (a.last(), b.last());
        assert(c.push(x) =~= a && d.push(y) =~= b);
        assert forall|t: i64| #[trigger] said_at(c, t) == said_at(d, t) by {
            assert(said_at(a, t) == said_at(b, t));
            lemma_said_push(c, x, t);
            lemma_said_push(d, y, t);
            if t == x.ts() {
                assert(said_at(a, t).drop_last() =~= said_at(c, t));
                assert(said_at(b, t).drop_last() =~= said_at(d, t));
            }
        }
        let t = x.ts();
        lemma_said_push(c, x, t);
        lemma_said_push(d, y, t);
        assert(said_at(a, t).last() == x);
        assert(said_at(b, t).last() == y);
        assert(told_in_order(c)) by {
            assert(forall|i: int| 0 <= i < c.len() ==> c[i] == a[i]);
        }
        assert(told_in_order(d)) by {
            assert(forall|i: int| 0 <= i < d.len() ==> d[i] == b[i]);
        }
        law_order_is_unique(c, d);
    }
}

/// A pattern with a `%` or `*` at its end matches the values that begin with what stands before it;
/// any other pattern matches itself alone.
pub proof fn law_patterns_match(pattern: Seq<char>, value: Seq<char>)
    ensures
        matches_glob(pattern, value) <==> if pattern.len() > 0 && (pattern.last() == '%'
            || pattern.last() == '*') {
            pattern.len() - 1 <= value.len() && forall|i: int|
                0 <= i < pattern.len() - 1 ==> value[i] == #[trigger] pattern[i]
        } else {
            value == pattern
        },
{
    if pattern.len() > 0 && (pattern.last() == '%' || pattern.last() == '*') {
        let head = pattern.drop_last();
        if head.len() <= value.len() {
            let front = value.take(head.len() as int);
            if forall|i: int| 0 <= i < pattern.len() - 1 ==> value[i] == #[trigger] pattern[i] {
                assert forall|i: int| 0 <= i < head.len() implies front[i] == head[i] by {
                    assert(pattern[i] == head[i]);
                }
                assert(front =~= head);
            }
            if front == head {
                assert forall|i: int| 0 <= i < pattern.len() - 1 implies value[i]
                    == #[trigger] pattern[i] by {
                    assert(front[i] == head[i]);
                }
            }
        }
    }
}

} // verus!
