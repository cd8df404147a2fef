//! Warnings about data that looks wrong.
use crate::cli::show::{fmt_int, fmt_ts_full, int_text, ts_full_text};
use crate::data::summary::{DataSummary, InstrumentSummary};
use crate::fixed::Fixed;
use crate::number::Number;
use crate::text::{decimal, join, joined, lemma_texts_push, texts, u64_text};
use crate::types::{Action, BookDelta, MarketEvent, TradeEvent};
use vstd::prelude::*;

verus! {

/// Whether a price in cents is none of a contract that pays a dollar.
pub open spec fn odd_price(cents: i32) -> bool {
    cents <= 0 || cents > 100
}

/// A delta at an odd price.
pub open spec fn odd_delta<N>(ev: MarketEvent<N>) -> bool {
    ev matches MarketEvent::Delta(d) && odd_price(d.price.0)
}

/// A trade at an odd price.
pub open spec fn odd_trade<N>(ev: MarketEvent<N>) -> bool {
    ev matches MarketEvent::Trade(t) && odd_price(t.price.0)
}

/// An event without a size, where it ought to have one.
pub open spec fn sizeless<N: Number>(ev: MarketEvent<N>) -> bool {
    match ev {
        MarketEvent::Delta(d) => d.size.at_most(N::integer(0)) && d.action != Action::Delete,
        MarketEvent::Trade(t) => t.size.at_most(N::integer(0)),
    }
}

/// How many of some events have a property.
pub open spec fn how_many<N>(
    events: Seq<MarketEvent<N>>,
    p: spec_fn(MarketEvent<N>) -> bool,
) -> nat
    decreases events.len(),
{
    if events.len() == 0 {
        0
    } else if p(events.last()) {
        how_many(events.drop_last(), p) + 1
    } else {
        how_many(events.drop_last(), p)
    }
}

/// How many events come before the one before them.
pub open spec fn steps_back<N>(events: Seq<MarketEvent<N>>) -> nat
    decreases events.len(),
{
    if events.len() < 2 {
        0
    } else if events.last().ts() < events[events.len() - 2].ts() {
        steps_back(events.drop_last()) + 1
    } else {
        steps_back(events.drop_last())
    }
}

/// The instruments without a snapshot.
pub open spec fn unsnapped(instruments: Seq<InstrumentSummary>) -> Seq<Seq<char>>
    decreases instruments.len(),
{
    if instruments.len() == 0 {
        Seq::empty()
    } else if instruments.last().snapshots == 0 {
        unsnapped(instruments.drop_last()).push(instruments.last().instrument@)
    } else {
        unsnapped(instruments.drop_last())
    }
}

/// All events have one time.
pub open spec fn one_instant<N>(events: Seq<MarketEvent<N>>) -> bool {
    events.len() > 1 && forall|i: int|
        0 <= i < events.len() ==> (#[trigger] events[i]).ts() == events[0].ts()
}

/// A list with a warning more, if there is cause for it.
pub open spec fn warned(list: Seq<Seq<char>>, cause: bool, text: Seq<char>) -> Seq<Seq<char>> {
    if cause {
        list.push(text)
    } else {
        list
    }
}

/// The first of some names, and how many more there are.
pub open spec fn some_names(names: Seq<Seq<char>>, shown: nat) -> Seq<char> {
    if names.len() > shown {
        joined(names.take(shown as int), ", "@) + ", \u{2026} (+"@ + decimal(
            (names.len() - shown) as nat,
        ) + " more)"@
    } else {
        joined(names, ", "@)
    }
}

/// Writes the first of some names, and how many more there are.
pub fn name_some(names: &Vec<String>, shown: usize) -> (r: String)
    ensures
        r@ == some_names(texts(names@), shown as nat),
{
    let n: usize = names.len();
    if n > shown {
        let mut first: Vec<String> = Vec::new();
        let mut i: usize = 0;
        proof {
            assert(texts(first@) =~= texts(names@).take(0));
        }
        while i < shown
            invariant
                i <= shown,
                shown < n,
                n == names@.len(),
                texts(first@) == texts(names@).take(i as int),
            decreases shown - i,
        {
            let s = names[i].clone();
            proof {
                lemma_texts_push(first@, s);
                assert(texts(names@).take(i + 1) =~= texts(names@).take(i as int).push(s@));
            }
            first.push(s);
            i += 1;
        }
        let mut s = join(&first, ", ");
        s.append(", \u{2026} (+");
        s.append(u64_text((n - shown) as u64).as_str());
        s.append(" more)");
        s
    } else {
        join(names, ", ")
    }
}

/// The warning about a source without events.
pub const NO_EVENTS: &'static str = "the source produced 0 events \u{2014} check the path, the --instrument filter, the date range, and (for adapters) your mapping (e.g. a wrong `instrument` column drops every row).";

/// The warning about deltas at odd prices, behind their number.
pub const ODD_DELTAS: &'static str = " delta row(s) have a price outside (0,1] (\u{2264}0\u{a2} or >100\u{a2}) \u{2014} likely a price_scale/price column mistake (use price_scale=cents|bps|prob to match your source units).";

/// The warning about trades at odd prices, behind their number.
pub const ODD_TRADES: &'static str = " trade row(s) have a price outside (0,1] \u{2014} check the price column / price_scale.";

/// The warning about missing sizes, behind their number.
pub const NO_SIZES: &'static str = " row(s) have zero/negative size \u{2014} check the size column (and price_scale won't fix this); a signed-size source may need `side_from_sign=<column>`.";

/// The warning about events out of order, behind their number.
pub const OUT_OF_ORDER: &'static str = " event(s) arrived OUT OF TIME ORDER after loading \u{2014} unusual (loaders sort by ts); check for a wrong ts column or a ts_unit mismatch producing collisions.";

/// The warning about missing snapshots, behind some instruments.
pub const NO_SNAPSHOTS: &'static str = ") \u{2014} their book is built from incremental deltas only, which may be incomplete; confirm your is_snapshot mapping.";

/// The warning about a single time, behind that time.
pub const ONE_INSTANT: &'static str = ") \u{2014} almost certainly a wrong ts column or ts_unit; the engine needs real time ordering.";

/// The warnings about some events and their summary.
pub open spec fn warnings_of<N: Number>(
    events: Seq<MarketEvent<N>>,
    instruments: Seq<InstrumentSummary>,
) -> Seq<Seq<char>> {
    let deltas = how_many(events, |e: MarketEvent<N>| odd_delta(e));
    let trades = how_many(events, |e: MarketEvent<N>| odd_trade(e));
    let sizes = how_many(events, |e: MarketEvent<N>| sizeless(e));
    let back = steps_back(events);
    let bare = unsnapped(instruments);
    if events.len() == 0 {
        seq![NO_EVENTS@]
    } else {
        let w1 = warned(Seq::empty(), deltas > 0, int_text(deltas as i64 as int) + ODD_DELTAS@);
        let w2 = warned(w1, trades > 0, int_text(trades as i64 as int) + ODD_TRADES@);
        let w3 = warned(w2, sizes > 0, int_text(sizes as i64 as int) + NO_SIZES@);
        let w4 = warned(w3, back > 0, int_text(back as i64 as int) + OUT_OF_ORDER@);
        let w5 = warned(
            w4,
            bare.len() > 0,
            decimal(bare.len()) + " instrument(s) have NO snapshot row (e.g. "@ + some_names(
                bare,
                3,
            ) + NO_SNAPSHOTS@,
        );
        warned(
            w5,
            one_instant(events),
            "every event shares the SAME timestamp ("@ + ts_full_text(events[0].ts())
                + ONE_INSTANT@,
        )
    }
}

fn warn(list: &mut Vec<String>, cause: bool, text: String)
    ensures
        texts(final(list)@) == warned(texts(old(list)@), cause, text@),
{
    if cause {
        proof {
            lemma_texts_push(list@, text);
        }
        list.push(text);
    }
}

fn counted_text(n: u64, what: &str) -> (r: String)
    ensures
        r@ == int_text(n as i64 as int) + what@,
{
    let mut s = fmt_int(n as i64);
    s.append(what);
    s
}

fn bare_names(sum: &DataSummary) -> (r: Vec<String>)
    ensures
        texts(r@) == unsnapped(sum.instruments@),
{
    let ghost all = sum.instruments@;
    let mut r: Vec<String> = Vec::new();
    let n: usize = sum.instruments.len();
    let mut i: usize = 0;
    proof {
        assert(texts(r@) =~= Seq::<Seq<char>>::empty());
    }
    while i < n
        invariant
            i <= n,
            n == all.len(),
            all == sum.instruments@,
            texts(r@) == unsnapped(all.take(i as int)),
        decreases n - i,
    {
        proof {
            assert(all.take(i + 1).drop_last() =~= all.take(i as int));
        }
        if sum.instruments[i].snapshots == 0 {
            let s = sum.instruments[i].instrument.clone();
            proof {
                lemma_texts_push(r@, s);
            }
            r.push(s);
        }
        i += 1;
    }
    proof {
        assert(all.take(n as int) =~= all);
    }
    r
}

/// The warnings about events and their summary. None of them keeps a run from going on.
pub fn data_quality_warnings<N: Number>(events: &[MarketEvent<N>], sum: &DataSummary) -> (r: Vec<
    String,
>)
    ensures
        texts(r@) == warnings_of(events@, sum.instruments@),
{
    let mut list: Vec<String> = Vec::new();
    proof {
        assert(texts(list@) =~= Seq::<Seq<char>>::empty());
    }
    let n: usize = events.len();
    if n == 0 {
        let s = NO_EVENTS.to_owned();
        proof {
            lemma_texts_push(list@, s);
            assert(Seq::<Seq<char>>::empty().push(NO_EVENTS@) =~= seq![NO_EVENTS@]);
        }
        list.push(s);
        return list;
    }
    let ghost od = |e: MarketEvent<N>| odd_delta(e);
    let ghost ot = |e: MarketEvent<N>| odd_trade(e);
    let ghost sl = |e: MarketEvent<N>| sizeless(e);
    let mut deltas: u64 = 0;
    let mut trades: u64 = 0;
    let mut sizes: u64 = 0;
    let mut back: u64 = 0;
    let mut same = true;
    let first: i64 = events[0].ts_ns();
    let mut i: usize = 0;
    while i < n
        invariant
            i <= n,
            n == events@.len(),
            n > 0,
            first == events@[0].ts(),
            od == (|e: MarketEvent<N>| odd_delta(e)),
            ot == (|e: MarketEvent<N>| odd_trade(e)),
            sl == (|e: MarketEvent<N>| sizeless(e)),
            deltas == how_many(events@.take(i as int), od),
            trades == how_many(events@.take(i as int), ot),
            sizes == how_many(events@.take(i as int), sl),
            back == steps_back(events@.take(i as int)),
            deltas <= i && trades <= i && sizes <= i && back <= i,
            same == forall|j: int| 0 <= j < i ==> (#[trigger] events@[j]).ts() == first,
        decreases n - i,
    {
        let ev = &events[i];
        proof {
            assert(events@.take(i + 1).drop_last() =~= events@.take(i as int));
            assert(events@.take(i + 1).last() == *ev);
        }
        let ts: i64 = ev.ts_ns();
        if i > 0 && ts < events[i - 1].ts_ns() {
            back += 1;
        }
        if ts != first {
            same = false;
        }
        match ev {
            MarketEvent::Delta(d) => {
                if d.price.0 <= 0 || d.price.0 > 100 {
                    deltas += 1;
                }
                let deletes: bool = match d.action {
                    Action::Delete => true,
                    _ => false,
                };
                if d.size.is_at_most(N::from_int(0)) && !deletes {
                    sizes += 1;
                }
            },
            MarketEvent::Trade(t) => {
                if t.price.0 <= 0 || t.price.0 > 100 {
                    trades += 1;
                }
                if t.size.is_at_most(N::from_int(0)) {
                    sizes += 1;
                }
            },
        }
        i += 1;
    }
    proof {
        assert(events@.take(n as int) =~= events@);
    }
    warn(&mut list, deltas > 0, counted_text(deltas, ODD_DELTAS));
    warn(&mut list, trades > 0, counted_text(trades, ODD_TRADES));
    warn(&mut list, sizes > 0, counted_text(sizes, NO_SIZES));
    warn(&mut list, back > 0, counted_text(back, OUT_OF_ORDER));
    let bare = bare_names(sum);
    let mut s = u64_text(bare.len() as u64);
    s.append(" instrument(s) have NO snapshot row (e.g. ");
    s.append(name_some(&bare, 3).as_str());
    s.append(NO_SNAPSHOTS);
    warn(&mut list, bare.len() > 0, s);
    let mut t = "every event shares the SAME timestamp (".to_owned();
    t.append(fmt_ts_full(first).as_str());
    t.append(ONE_INSTANT);
    warn(&mut list, n > 1 && same, t);
    list
}

/// Data without events gets one warning and no other.
pub proof fn law_no_events_one_warning<N: Number>(instruments: Seq<InstrumentSummary>)
    ensures
        warnings_of(Seq::<MarketEvent<N>>::empty(), instruments).len() == 1,
{
}

/// As many events have a property as are left when the others are taken out.
pub proof fn law_counts_are_of_those_left<N>(
    events: Seq<MarketEvent<N>>,
    p: spec_fn(MarketEvent<N>) -> bool,
)
    ensures
        how_many(events, p) == events.filter(p).len(),
    decreases events.len(),
{
    reveal(Seq::filter);
    if events.len() > 0 {
        law_counts_are_of_those_left(events.drop_last(), p);
    }
}

/// A price is odd where no contract that pays a dollar can cost it: nothing or less, or more than a
/// dollar. An event is without a size where it has none above 0, but for a delta that deletes.
pub proof fn law_oddities_are_told_apart(d: BookDelta<Fixed>, t: TradeEvent<Fixed>)
    ensures
        odd_delta(MarketEvent::Delta(d)) <==> d.price.0 < 1 || d.price.0 > 100,
        odd_trade(MarketEvent::Trade(t)) <==> t.price.0 < 1 || t.price.0 > 100,
        !odd_delta(MarketEvent::Trade(t)),
        !odd_trade(MarketEvent::Delta(d)),
        sizeless(MarketEvent::Delta(d)) <==> d.size.units <= 0 && d.action != Action::Delete,
        sizeless(MarketEvent::Trade(t)) <==> t.size.units <= 0,
{
}

/// One event more counts as out of order exactly where it comes before the one that stands before it.
/// Events in order of time are none.
pub proof fn law_steps_back_are_counted<N>(
    events: Seq<MarketEvent<N>>,
    last: MarketEvent<N>,
    next: MarketEvent<N>,
)
    ensures
        next.ts() < last.ts() ==> steps_back(events.push(last).push(next)) == steps_back(
            events.push(last),
        ) + 1,
        next.ts() >= last.ts() ==> steps_back(events.push(last).push(next)) == steps_back(
            events.push(last),
        ),
        steps_back(seq![last]) == 0,
{
    let all = events.push(last).push(next);
    assert(all.drop_last() =~= events.push(last));
    assert(all.last() == next);
    assert(all[all.len() - 2] == last);
}

/// The instruments that are told are those without a snapshot, in their order.
pub proof fn law_bare_instruments_are_told(instruments: Seq<InstrumentSummary>)
    ensures
        unsnapped(instruments) == instruments.filter(
            |i: InstrumentSummary| i.snapshots == 0,
        ).map_values(|i: InstrumentSummary| i.instrument@),
    decreases instruments.len(),
{
    reveal(Seq::filter);
    let keep = |i: InstrumentSummary| i.snapshots == 0;
    let say = |i: InstrumentSummary| i.instrument@;
    if instruments.len() > 0 {
        let rest = instruments.drop_last();
        law_bare_instruments_are_told(rest);
        if keep(instruments.last()) {
            assert(rest.filter(keep).push(instruments.last()).map_values(say) =~= rest.filter(
                keep,
            ).map_values(say).push(say(instruments.last())));
        }
    } else {
        assert(unsnapped(instruments) =~= instruments.filter(keep).map_values(say));
    }
}

/// There is one warning for each kind of flaw that the events have, and none for those that they do
/// not have.
pub proof fn law_each_flaw_warns_once<N: Number>(
    events: Seq<MarketEvent<N>>,
    instruments: Seq<InstrumentSummary>,
)
    requires
        events.len() > 0,
    ensures
        ({
            let one = |b: bool|
                if b {
                    1int
                } else {
                    0
                };
            let deltas = events.filter(|e: MarketEvent<N>| odd_delta(e)).len();
            let trades = events.filter(|e: MarketEvent<N>| odd_trade(e)).len();
            let sizes = events.filter(|e: MarketEvent<N>| sizeless(e)).len();
            warnings_of(events, instruments).len() == one(deltas > 0) + one(trades > 0) + one(
                sizes > 0,
            ) + one(steps_back(events) > 0) + one(unsnapped(instruments).len() > 0) + one(
                one_instant(events),
            )
        }),
{
    law_counts_are_of_those_left(events, |e: MarketEvent<N>| odd_delta(e));
    law_counts_are_of_those_left(events, |e: MarketEvent<N>| odd_trade(e));
    law_counts_are_of_those_left(events, |e: MarketEvent<N>| sizeless(e));
}

} // verus!
