//! What an event stream holds: counts and time spans, in all and for each instrument.
use crate::strmap::{ascending, lemma_ascending_distinct, lemma_ascending_unique, StrMap};
use crate::types::{BookDelta, MarketEvent, TradeEvent};
use vstd::prelude::*;

verus! {

/// Counts and time span of one instrument.
#[derive(Debug, Clone, Default)]
pub struct InstrumentSummary {
    pub instrument: String,
    /// Events of either kind.
    pub events: u64,
    /// Deltas that are part of a snapshot.
    pub snapshots: u64,
    /// Other deltas.
    pub deltas: u64,
    /// Trades.
    pub trades: u64,
    /// Time of the earliest event.
    pub first_ns: i64,
    /// Time of the latest event.
    pub last_ns: i64,
}

/// Counts and time span of a whole stream, and of each of its instruments.
#[derive(Debug, Clone, Default)]
pub struct DataSummary {
    pub total_events: u64,
    pub total_snapshots: u64,
    pub total_deltas: u64,
    pub total_trades: u64,
    pub first_ns: i64,
    pub last_ns: i64,
    pub instruments: Vec<InstrumentSummary>,
}

/// The kinds of events that a summary counts apart.
pub enum Kind {
    Snapshot,
    Delta,
    Trade,
}

/// The kind of an event.
pub open spec fn kind_of<N>(e: MarketEvent<N>) -> Kind {
    match e {
        MarketEvent::Delta(d) => if d.is_snapshot {
            Kind::Snapshot
        } else {
            Kind::Delta
        },
        MarketEvent::Trade(_) => Kind::Trade,
    }
}

/// The events of one instrument.
pub open spec fn of_instrument<N>(events: Seq<MarketEvent<N>>, inst: Seq<char>) -> Seq<
    MarketEvent<N>,
> {
    events.filter(|e: MarketEvent<N>| e.inst() == inst)
}

/// How many of the events are of a kind.
pub open spec fn count<N>(events: Seq<MarketEvent<N>>, kind: Kind) -> int
    decreases events.len(),
{
    if events.len() == 0 {
        0
    } else {
        count(events.drop_last(), kind) + if kind_of(events.last()) == kind {
            1int
        } else {
            0
        }
    }
}

/// The earliest time of the events.
pub open spec fn earliest<N>(events: Seq<MarketEvent<N>>) -> i64
    decreases events.len(),
{
    if events.len() == 0 {
        i64::MAX
    } else {
        let e = earliest(events.drop_last());
        if events.last().ts() < e {
            events.last().ts()
        } else {
            e
        }
    }
}

/// The latest time of the events.
pub open spec fn latest<N>(events: Seq<MarketEvent<N>>) -> i64
    decreases events.len(),
{
    if events.len() == 0 {
        i64::MIN
    } else {
        let e = latest(events.drop_last());
        if events.last().ts() > e {
            events.last().ts()
        } else {
            e
        }
    }
}

/// The summary of one instrument counts the events given.
pub open spec fn counts<N>(s: InstrumentSummary, events: Seq<MarketEvent<N>>) -> bool {
    &&& s.events == events.len()
    &&& s.snapshots == count(events, Kind::Snapshot)
    &&& s.deltas == count(events, Kind::Delta)
    &&& s.trades == count(events, Kind::Trade)
    &&& s.first_ns == earliest(events)
    &&& s.last_ns == latest(events)
}

/// Some event is of the instrument.
pub open spec fn occurs<N>(events: Seq<MarketEvent<N>>, inst: Seq<char>) -> bool {
    exists|i: int| 0 <= i < events.len() && (#[trigger] events[i]).inst() == inst
}

/// The names of the instruments of a summary.
pub open spec fn names(v: Seq<InstrumentSummary>) -> Seq<Seq<char>> {
    v.map_values(|s: InstrumentSummary| s.instrument@)
}

proof fn lemma_count_bound<N>(events: Seq<MarketEvent<N>>, kind: Kind)
    ensures
        0 <= count(events, kind) <= events.len(),
    decreases events.len(),
{
    if events.len() > 0 {
        lemma_count_bound(events.drop_last(), kind);
    }
}

proof fn lemma_of_instrument_push<N>(events: Seq<MarketEvent<N>>, e: MarketEvent<N>, inst: Seq<char>)
    ensures
        of_instrument(events.push(e), inst) == if e.inst() == inst {
            of_instrument(events, inst).push(e)
        } else {
            of_instrument(events, inst)
        },
        of_instrument(events, inst).len() <= events.len(),
{
    reveal(Seq::filter);
    assert(events.push(e).drop_last() =~= events);
    events.lemma_filter_len(|e: MarketEvent<N>| e.inst() == inst);
}

proof fn lemma_of_instrument_absent<N>(events: Seq<MarketEvent<N>>, inst: Seq<char>)
    requires
        !occurs(events, inst),
    ensures
        of_instrument(events, inst) == Seq::<MarketEvent<N>>::empty(),
    decreases events.len(),
{
    reveal(Seq::filter);
    if events.len() > 0 {
        assert(events.last() == events[events.len() - 1]);
        assert(!occurs(events.drop_last(), inst)) by {
            if occurs(events.drop_last(), inst) {
                let i = choose|i: int|
                    0 <= i < events.drop_last().len() && (
                    #[trigger] events.drop_last()[i]).inst() == inst;
                assert(events[i].inst() == inst);
            }
        }
        lemma_of_instrument_absent(events.drop_last(), inst);
    }
}

proof fn lemma_occurs_push<N>(events: Seq<MarketEvent<N>>, e: MarketEvent<N>, inst: Seq<char>)
    ensures
        occurs(events.push(e), inst) == (occurs(events, inst) || e.inst() == inst),
{
    let all = events.push(e);
    if occurs(events, inst) {
        let i = choose|i: int| 0 <= i < events.len() && (#[trigger] events[i]).inst() == inst;
        assert(all[i].inst() == inst);
    }
    if e.inst() == inst {
        assert(all[events.len() as int].inst() == inst);
    }
    if occurs(all, inst) {
        let i = choose|i: int| 0 <= i < all.len() && (#[trigger] all[i]).inst() == inst;
        if i < events.len() {
            assert(events[i].inst() == inst);
        }
    }
}

/// Adds one event to the summary of its instrument.
fn tally<N>(s: &mut InstrumentSummary, ev: &MarketEvent<N>, Ghost(seen): Ghost<Seq<MarketEvent<N>>>)
    requires
        counts(*old(s), seen),
        seen.len() < u64::MAX,
    ensures
        counts(*final(s), seen.push(*ev)),
        final(s).instrument == old(s).instrument,
{
    proof {
        lemma_count_bound(seen, Kind::Snapshot);
        lemma_count_bound(seen, Kind::Delta);
        lemma_count_bound(seen, Kind::Trade);
        assert(seen.push(*ev).drop_last() =~= seen);
    }
    s.events = s.events + 1;
    match ev {
        MarketEvent::Delta(d) => {
            if d.is_snapshot {
                s.snapshots = s.snapshots + 1;
            } else {
                s.deltas = s.deltas + 1;
            }
        },
        MarketEvent::Trade(_) => {
            s.trades = s.trades + 1;
        },
    }
    let ts: i64 = ev.ts_ns();
    if ts < s.first_ns {
        s.first_ns = ts;
    }
    if ts > s.last_ns {
        s.last_ns = ts;
    }
}

/// A summary that has counted nothing yet.
fn blank(instrument: String) -> (r: InstrumentSummary)
    ensures
        r.instrument == instrument,
        r.events == 0,
        r.snapshots == 0,
        r.deltas == 0,
        r.trades == 0,
        r.first_ns == i64::MAX,
        r.last_ns == i64::MIN,
{
    InstrumentSummary {
        instrument,
        events: 0,
        snapshots: 0,
        deltas: 0,
        trades: 0,
        first_ns: i64::MAX,
        last_ns: i64::MIN,
    }
}

/// A summary says what a stream holds: the totals, and one row for each instrument that occurs, in
/// the order of their names.
pub open spec fn summarizes<N>(r: DataSummary, events: Seq<MarketEvent<N>>) -> bool {
    &&& r.total_events == events.len()
    &&& r.total_snapshots == count(events, Kind::Snapshot)
    &&& r.total_deltas == count(events, Kind::Delta)
    &&& r.total_trades == count(events, Kind::Trade)
    &&& r.first_ns == if events.len() == 0 {
        0
    } else {
        earliest(events)
    }
    &&& r.last_ns == if events.len() == 0 {
        0
    } else {
        latest(events)
    }
    &&& ascending(names(r.instruments@))
    &&& forall|inst: Seq<char>| names(r.instruments@).contains(inst) <==> occurs(events, inst)
    &&& forall|i: int|
        0 <= i < r.instruments@.len() ==> counts(
            #[trigger] r.instruments@[i],
            of_instrument(events, r.instruments@[i].instrument@),
        )
}

/// Summarises a stream: the totals, and one row for each instrument that occurs, in the order of
/// their names.
pub fn summarize<N>(events: &[MarketEvent<N>]) -> (r: DataSummary)
    ensures
        summarizes(r, events@),
{
    let mut by_inst: StrMap<InstrumentSummary> = StrMap::new();
    let mut total = blank(String::new());
    let mut i: usize = 0;
    let ghost mut seen = Seq::<MarketEvent<N>>::empty();
    let n: usize = events.len();
    while i < n
        invariant
            i <= n,
            n == events@.len(),
            seen == events@.take(i as int),
            counts(total, seen),
            forall|inst: Seq<char>| #[trigger]
                by_inst@.contains_key(inst) <==> occurs(seen, inst),
            forall|inst: Seq<char>| #[trigger]
                by_inst@.contains_key(inst) ==> by_inst@[inst].instrument@ == inst && counts(
                    by_inst@[inst],
                    of_instrument(seen, inst),
                ),
        decreases n - i,
    {
        let ev = &events[i];
        let ghost before = by_inst@;
        let ghost inst = ev.inst();
        proof {
            assert(seen.len() < u64::MAX);
            lemma_of_instrument_push(seen, *ev, inst);
        }
        tally(&mut total, ev, Ghost(seen));
        match by_inst.position(ev.instrument()) {
            Some(p) => {
                let mut s = blank(String::new());
                by_inst.swap_at(p, &mut s);
                tally(&mut s, ev, Ghost(of_instrument(seen, inst)));
                by_inst.swap_at(p, &mut s);
                assert(by_inst@.contains_key(inst));
            },
            None => {
                let mut s = blank(ev.instrument().to_owned());
                proof {
                    lemma_of_instrument_absent(seen, inst);
                }
                tally(&mut s, ev, Ghost(Seq::<MarketEvent<N>>::empty()));
                by_inst.insert(ev.instrument().to_owned(), s);
            },
        }
        proof {
            let next = seen.push(*ev);
            assert(next =~= events@.take(i + 1));
            assert forall|k: Seq<char>| #[trigger] by_inst@.contains_key(k) <==> occurs(next, k) by {
                lemma_occurs_push(seen, *ev, k);
                assert(before.contains_key(k) <==> occurs(seen, k));
            }
            assert forall|k: Seq<char>| #[trigger] by_inst@.contains_key(k) implies by_inst@[k].instrument@
                == k && counts(by_inst@[k], of_instrument(next, k)) by {
                lemma_of_instrument_push(seen, *ev, k);
                assert(before.contains_key(k) <==> occurs(seen, k));
                if k != inst {
                    assert(before.contains_key(k));
                }
            }
            seen = next;
        }
        i += 1;
    }
    assert(events@.take(events@.len() as int) =~= events@);
    let mut rows: Vec<InstrumentSummary> = Vec::new();
    let n: usize = by_inst.len();
    let mut j: usize = 0;
    while j < n
        invariant
            j <= n,
            n == by_inst.keys().len(),
            by_inst.coherent(),
            rows@.len() == j,
            seen == events@,
            forall|inst: Seq<char>| #[trigger]
                by_inst@.contains_key(inst) ==> by_inst@[inst].instrument@ == inst && counts(
                    by_inst@[inst],
                    of_instrument(seen, inst),
                ),
            forall|p: int|
                0 <= p < j ==> (#[trigger] rows@[p]).instrument@ == by_inst.keys()[p] && counts(
                    rows@[p],
                    of_instrument(events@, rows@[p].instrument@),
                ),
        decreases n - j,
    {
        let s = by_inst.value_at(j);
        assert(by_inst@.contains_key(by_inst.keys()[j as int]));
        rows.push(
            InstrumentSummary {
                instrument: s.instrument.clone(),
                events: s.events,
                snapshots: s.snapshots,
                deltas: s.deltas,
                trades: s.trades,
                first_ns: s.first_ns,
                last_ns: s.last_ns,
            },
        );
        j += 1;
    }
    assert(names(rows@) =~= by_inst.keys());
    assert forall|inst: Seq<char>| names(rows@).contains(inst) <==> occurs(events@, inst) by {
        assert(by_inst@.contains_key(inst) <==> by_inst.keys().contains(inst));
    }
    let none: bool = total.events == 0;
    DataSummary {
        total_events: total.events,
        total_snapshots: total.snapshots,
        total_deltas: total.deltas,
        total_trades: total.trades,
        first_ns: if none {
            0
        } else {
            total.first_ns
        },
        last_ns: if none {
            0
        } else {
            total.last_ns
        },
        instruments: rows,
    }
}

// ---- what every summary keeps ----------------------------------------------------------------

/// How many of the events are of a kind, or how many there are.
pub open spec fn measure<N>(events: Seq<MarketEvent<N>>, kind: Option<Kind>) -> int {
    match kind {
        Some(k) => count(events, k),
        None => events.len() as int,
    }
}

/// What a row says of a kind, or of all its events.
pub open spec fn row_count(row: InstrumentSummary, kind: Option<Kind>) -> int {
    match kind {
        Some(Kind::Snapshot) => row.snapshots as int,
        Some(Kind::Delta) => row.deltas as int,
        Some(Kind::Trade) => row.trades as int,
        None => row.events as int,
    }
}

/// What a summary says in all of a kind, or of all its events.
pub open spec fn total_count(r: DataSummary, kind: Option<Kind>) -> int {
    match kind {
        Some(Kind::Snapshot) => r.total_snapshots as int,
        Some(Kind::Delta) => r.total_deltas as int,
        Some(Kind::Trade) => r.total_trades as int,
        None => r.total_events as int,
    }
}

/// The sum of what some rows say.
pub open spec fn rows_count(rows: Seq<InstrumentSummary>, kind: Option<Kind>) -> int
    decreases rows.len(),
{
    if rows.len() == 0 {
        0
    } else {
        rows_count(rows.drop_last(), kind) + row_count(rows.last(), kind)
    }
}

spec fn spread<N>(keys: Seq<Seq<char>>, events: Seq<MarketEvent<N>>, kind: Option<Kind>) -> int
    decreases keys.len(),
{
    if keys.len() == 0 {
        0
    } else {
        spread(keys.drop_last(), events, kind) + measure(
            of_instrument(events, keys.last()),
            kind,
        )
    }
}

proof fn lemma_measure_push<N>(events: Seq<MarketEvent<N>>, e: MarketEvent<N>, kind: Option<Kind>)
    ensures
        measure(events.push(e), kind) == measure(events, kind) + measure(seq![e], kind),
{
    assert(events.push(e).drop_last() =~= events);
    assert(seq![e].drop_last() =~= Seq::<MarketEvent<N>>::empty());
    if let Some(k) = kind {
        assert(count(Seq::<MarketEvent<N>>::empty(), k) == 0);
    }
}

proof fn lemma_spread_push<N>(
    keys: Seq<Seq<char>>,
    events: Seq<MarketEvent<N>>,
    e: MarketEvent<N>,
    kind: Option<Kind>,
)
    requires
        keys.no_duplicates(),
    ensures
        spread(keys, events.push(e), kind) == spread(keys, events, kind) + if keys.contains(
            e.inst(),
        ) {
            measure(seq![e], kind)
        } else {
            0
        },
    decreases keys.len(),
{
    if keys.len() > 0 {
        let rest = keys.drop_last();
        lemma_spread_push(rest, events, e, kind);
        lemma_of_instrument_push(events, e, keys.last());
        lemma_measure_push(of_instrument(events, keys.last()), e, kind);
        if keys.last() == e.inst() {
            assert(keys[keys.len() - 1] == e.inst());
            assert(!rest.contains(e.inst())) by {
                if rest.contains(e.inst()) {
                    let i = choose|i: int| 0 <= i < rest.len() && rest[i] == e.inst();
                    assert(keys[i] == keys[keys.len() - 1]);
                }
            }
        } else if keys.contains(e.inst()) {
            let i = choose|i: int| 0 <= i < keys.len() && keys[i] == e.inst();
            assert(rest[i] == e.inst());
        } else if rest.contains(e.inst()) {
            let i = choose|i: int| 0 <= i < rest.len() && rest[i] == e.inst();
            assert(keys[i] == e.inst());
        }
    }
}

proof fn lemma_spread_whole<N>(
    keys: Seq<Seq<char>>,
    events: Seq<MarketEvent<N>>,
    kind: Option<Kind>,
)
    requires
        keys.no_duplicates(),
        forall|i: int| 0 <= i < events.len() ==> keys.contains((#[trigger] events[i]).inst()),
    ensures
        spread(keys, events, kind) == measure(events, kind),
    decreases events.len(), keys.len(),
{
    if events.len() == 0 {
        if keys.len() > 0 {
            assert(keys.drop_last().no_duplicates());
            lemma_spread_whole(keys.drop_last(), events, kind);
            lemma_of_instrument_absent(events, keys.last());
            assert(events =~= Seq::<MarketEvent<N>>::empty());
        }
    } else {
        let rest = events.drop_last();
        assert(rest.push(events.last()) =~= events);
        assert forall|i: int| 0 <= i < rest.len() implies keys.contains(
            (#[trigger] rest[i]).inst(),
        ) by {
            assert(rest[i] == events[i]);
        }
        assert(events[events.len() - 1] == events.last());
        lemma_spread_whole(keys, rest, kind);
        lemma_spread_push(keys, rest, events.last(), kind);
        lemma_measure_push(rest, events.last(), kind);
    }
}

proof fn lemma_rows_spread<N>(
    rows: Seq<InstrumentSummary>,
    events: Seq<MarketEvent<N>>,
    kind: Option<Kind>,
)
    requires
        forall|i: int|
            0 <= i < rows.len() ==> counts(
                #[trigger] rows[i],
                of_instrument(events, rows[i].instrument@),
            ),
    ensures
        rows_count(rows, kind) == spread(names(rows), events, kind),
    decreases rows.len(),
{
    if rows.len() > 0 {
        assert(names(rows).drop_last() =~= names(rows.drop_last()));
        assert forall|i: int| 0 <= i < rows.drop_last().len() implies counts(
            #[trigger] rows.drop_last()[i],
            of_instrument(events, rows.drop_last()[i].instrument@),
        ) by {
            assert(rows.drop_last()[i] == rows[i]);
        }
        lemma_rows_spread(rows.drop_last(), events, kind);
        assert(rows[rows.len() - 1] == rows.last());
    }
}

/// The totals of a summary are the sums of its rows: of events, and of each kind of them.
pub proof fn law_totals_are_sums<N>(r: DataSummary, events: Seq<MarketEvent<N>>, kind: Option<Kind>)
    requires
        summarizes(r, events),
    ensures
        total_count(r, kind) == rows_count(r.instruments@, kind),
{
    let keys = names(r.instruments@);
    lemma_ascending_distinct(keys);
    assert forall|i: int| 0 <= i < events.len() implies keys.contains(
        (#[trigger] events[i]).inst(),
    ) by {
        assert(occurs(events, events[i].inst()));
    }
    lemma_spread_whole(keys, events, kind);
    lemma_rows_spread(r.instruments@, events, kind);
}

proof fn lemma_kinds_add_up<N>(events: Seq<MarketEvent<N>>)
    ensures
        events.len() == count(events, Kind::Snapshot) + count(events, Kind::Delta) + count(
            events,
            Kind::Trade,
        ),
    decreases events.len(),
{
    if events.len() > 0 {
        lemma_kinds_add_up(events.drop_last());
    }
}

/// Every event is of one kind: in all and in each row, the events are the deltas of snapshots, the
/// other deltas and the trades.
pub proof fn law_events_are_of_one_kind<N>(r: DataSummary, events: Seq<MarketEvent<N>>)
    requires
        summarizes(r, events),
    ensures
        r.total_events == r.total_snapshots + r.total_deltas + r.total_trades,
        forall|i: int|
            0 <= i < r.instruments@.len() ==> (#[trigger] r.instruments@[i]).events
                == r.instruments@[i].snapshots + r.instruments@[i].deltas
                + r.instruments@[i].trades,
{
    lemma_kinds_add_up(events);
    assert forall|i: int| 0 <= i < r.instruments@.len() implies (
    #[trigger] r.instruments@[i]).events == r.instruments@[i].snapshots + r.instruments@[i].deltas
        + r.instruments@[i].trades by {
        lemma_kinds_add_up(of_instrument(events, r.instruments@[i].instrument@));
    }
}

/// The events of one instrument, or all of them.
spec fn chosen<N>(events: Seq<MarketEvent<N>>, inst: Option<Seq<char>>) -> Seq<MarketEvent<N>> {
    match inst {
        Some(i) => of_instrument(events, i),
        None => events,
    }
}

spec fn alike<N>(a: Seq<MarketEvent<N>>, b: Seq<MarketEvent<N>>) -> bool {
    &&& a.len() == b.len()
    &&& forall|k: Kind| count(a, k) == #[trigger] count(b, k)
    &&& earliest(a) == earliest(b)
    &&& latest(a) == latest(b)
}

proof fn lemma_alike_push<N>(
    a: Seq<MarketEvent<N>>,
    b: Seq<MarketEvent<N>>,
    e: MarketEvent<N>,
    inst: Option<Seq<char>>,
)
    requires
        alike(chosen(a, inst), chosen(b, inst)),
    ensures
        alike(chosen(a.push(e), inst), chosen(b.push(e), inst)),
{
    if let Some(i) = inst {
        lemma_of_instrument_push(a, e, i);
        lemma_of_instrument_push(b, e, i);
    }
    let (x, y) = (chosen(a, inst), chosen(b, inst));
    assert(x.push(e).drop_last() =~= x);
    assert(y.push(e).drop_last() =~= y);
    assert forall|k: Kind| count(x.push(e), k) == #[trigger] count(y.push(e), k) by {
        assert(count(x, k) == count(y, k));
    }
}

proof fn lemma_alike_swap<N>(
    a: Seq<MarketEvent<N>>,
    e: MarketEvent<N>,
    f: MarketEvent<N>,
    inst: Option<Seq<char>>,
)
    ensures
        alike(chosen(a.push(e).push(f), inst), chosen(a.push(f).push(e), inst)),
{
    if let Some(i) = inst {
        lemma_of_instrument_push(a, e, i);
        lemma_of_instrument_push(a, f, i);
        lemma_of_instrument_push(a.push(e), f, i);
        lemma_of_instrument_push(a.push(f), e, i);
    }
    let x = chosen(a, inst);
    assert(x.push(e).drop_last() =~= x);
    assert(x.push(f).drop_last() =~= x);
    assert(x.push(e).push(f).drop_last() =~= x.push(e));
    assert(x.push(f).push(e).drop_last() =~= x.push(f));
    assert(earliest(x.push(e)) <= earliest(x) && earliest(x.push(f)) <= earliest(x));
    assert(latest(x.push(e)) >= latest(x) && latest(x.push(f)) >= latest(x));
    assert(earliest(x.push(e).push(f)) == earliest(x.push(f).push(e)));
    assert(latest(x.push(e).push(f)) == latest(x.push(f).push(e)));
    assert forall|k: Kind|
        count(x.push(e).push(f), k) == #[trigger] count(x.push(f).push(e), k) by {
        assert(count(x.push(e), k) == count(x, k) + if kind_of(e) == k {
            1int
        } else {
            0
        });
        assert(count(x.push(f), k) == count(x, k) + if kind_of(f) == k {
            1int
        } else {
            0
        });
    }
}

proof fn lemma_alike_moved<N>(events: Seq<MarketEvent<N>>, i: int, inst: Option<Seq<char>>)
    requires
        0 <= i < events.len(),
    ensures
        alike(chosen(events, inst), chosen(events.remove(i).push(events[i]), inst)),
    decreases events.len(),
{
    let x = events[i];
    if i == events.len() - 1 {
        assert(events.remove(i).push(x) =~= events);
    } else {
        let rest = events.drop_last();
        let l = events.last();
        assert(rest[i] == x);
        lemma_alike_moved(rest, i, inst);
        let moved = rest.remove(i);
        lemma_alike_push(rest, moved.push(x), l, inst);
        assert(rest.push(l) =~= events);
        lemma_alike_swap(moved, x, l, inst);
        assert(events.remove(i) =~= moved.push(l));
        assert forall|k: Kind|
            count(chosen(events, inst), k) == #[trigger] count(
                chosen(events.remove(i).push(x), inst),
                k,
            ) by {
            assert(count(chosen(rest.push(l), inst), k) == count(
                chosen(moved.push(x).push(l), inst),
                k,
            ));
            assert(count(chosen(moved.push(x).push(l), inst), k) == count(
                chosen(moved.push(l).push(x), inst),
                k,
            ));
        }
    }
}

proof fn lemma_alike_reordered<N>(
    a: Seq<MarketEvent<N>>,
    b: Seq<MarketEvent<N>>,
    inst: Option<Seq<char>>,
)
    requires
        a.to_multiset() == b.to_multiset(),
    ensures
        alike(chosen(a, inst), chosen(b, inst)),
    decreases a.len(),
{
    broadcast use vstd::seq_lib::group_to_multiset_ensures;

    assert(a.len() == a.to_multiset().len());
    assert(b.len() == b.to_multiset().len());
    if a.len() == 0 {
        assert(a =~= b);
    } else {
        let x = a.last();
        let rest = a.drop_last();
        assert(a[a.len() - 1] == x);
        assert(a.contains(x));
        assert(b.to_multiset().count(x) > 0);
        assert(b.contains(x));
        let i = choose|i: int| 0 <= i < b.len() && b[i] == x;
        assert(rest =~= a.remove(a.len() - 1));
        assert(rest.to_multiset() == a.to_multiset().remove(x));
        assert(b.remove(i).to_multiset() == b.to_multiset().remove(x));
        lemma_alike_reordered(rest, b.remove(i), inst);
        lemma_alike_push(rest, b.remove(i), x, inst);
        assert(rest.push(x) =~= a);
        lemma_alike_moved(b, i, inst);
        assert forall|k: Kind|
            count(chosen(a, inst), k) == #[trigger] count(chosen(b, inst), k) by {
            assert(count(chosen(a, inst), k) == count(
                chosen(b.remove(i).push(x), inst),
                k,
            ));
        }
    }
}

proof fn lemma_occurs_reordered<N>(
    a: Seq<MarketEvent<N>>,
    b: Seq<MarketEvent<N>>,
    inst: Seq<char>,
)
    requires
        a.to_multiset() == b.to_multiset(),
        occurs(a, inst),
    ensures
        occurs(b, inst),
{
    broadcast use vstd::seq_lib::group_to_multiset_ensures;

    let i = choose|i: int| 0 <= i < a.len() && (#[trigger] a[i]).inst() == inst;
    assert(a.contains(a[i]));
    assert(b.to_multiset().count(a[i]) > 0);
    assert(b.contains(a[i]));
    let j = choose|j: int| 0 <= j < b.len() && b[j] == a[i];
    assert(b[j].inst() == inst);
}

/// The order of the events does not matter: two streams of the same events have the same summary.
pub proof fn law_order_does_not_matter<N>(
    a: Seq<MarketEvent<N>>,
    b: Seq<MarketEvent<N>>,
    r: DataSummary,
    s: DataSummary,
)
    requires
        a.to_multiset() == b.to_multiset(),
        summarizes(r, a),
        summarizes(s, b),
    ensures
        forall|kind: Option<Kind>| #[trigger] total_count(r, kind) == total_count(s, kind),
        r.first_ns == s.first_ns,
        r.last_ns == s.last_ns,
        names(r.instruments@) == names(s.instruments@),
        r.instruments@.len() == s.instruments@.len(),
        forall|i: int, kind: Option<Kind>|
            0 <= i < r.instruments@.len() ==> #[trigger] row_count(r.instruments@[i], kind)
                == row_count(s.instruments@[i], kind),
        forall|i: int|
            0 <= i < r.instruments@.len() ==> (#[trigger] r.instruments@[i]).first_ns
                == s.instruments@[i].first_ns && r.instruments@[i].last_ns
                == s.instruments@[i].last_ns,
{
    lemma_alike_reordered(a, b, None);
    assert(chosen(a, None) == a && chosen(b, None) == b);
    assert(forall|k: Kind| count(a, k) == #[trigger] count(b, k));
    let (m, n) = (names(r.instruments@), names(s.instruments@));
    assert forall|k: Seq<char>| m.contains(k) <==> n.contains(k) by {
        if m.contains(k) {
            lemma_occurs_reordered(a, b, k);
        }
        if n.contains(k) {
            lemma_occurs_reordered(b, a, k);
        }
    }
    lemma_ascending_unique(m, n);
    assert(m.len() == r.instruments@.len() && n.len() == s.instruments@.len());
    assert forall|i: int| 0 <= i < r.instruments@.len() implies {
        let (x, y) = (#[trigger] r.instruments@[i], s.instruments@[i]);
        &&& x.events == y.events
        &&& x.snapshots == y.snapshots
        &&& x.deltas == y.deltas
        &&& x.trades == y.trades
        &&& x.first_ns == y.first_ns
        &&& x.last_ns == y.last_ns
    } by {
        let key = r.instruments@[i].instrument@;
        assert(m[i] == key && n[i] == s.instruments@[i].instrument@);
        lemma_alike_reordered(a, b, Some(key));
        let (x, y) = (of_instrument(a, key), of_instrument(b, key));
        assert(count(x, Kind::Snapshot) == count(y, Kind::Snapshot));
        assert(count(x, Kind::Delta) == count(y, Kind::Delta));
        assert(count(x, Kind::Trade) == count(y, Kind::Trade));
    }
}

/// The earliest and the latest time of some events are times of theirs, and none lies outside them;
/// as many are counted as are of a kind.
pub proof fn law_summaries_span_the_events<N>(events: Seq<MarketEvent<N>>, kind: Kind, i: int)
    requires
        0 <= i < events.len(),
    ensures
        earliest(events) <= events[i].ts() <= latest(events),
        exists|j: int| 0 <= j < events.len() && (#[trigger] events[j]).ts() == earliest(events),
        exists|j: int| 0 <= j < events.len() && (#[trigger] events[j]).ts() == latest(events),
        count(events, kind) == events.filter(|e: MarketEvent<N>| kind_of(e) == kind).len(),
    decreases events.len(),
{
    lemma_count_is_of_those_left(events, kind);
    let rest = events.drop_last();
    let n = events.len() - 1;
    assert(events.last() == events[n]);
    if rest.len() > 0 {
        let j = if i < n {
            i
        } else {
            0
        };
        assert(rest[j] == events[j]);
        law_summaries_span_the_events(rest, kind, j);
        let a = choose|a: int| 0 <= a < rest.len() && (#[trigger] rest[a]).ts() == earliest(rest);
        let b = choose|b: int| 0 <= b < rest.len() && (#[trigger] rest[b]).ts() == latest(rest);
        assert(events[a] == rest[a] && events[b] == rest[b]);
    } else {
        assert(earliest(rest) == i64::MAX && latest(rest) == i64::MIN);
        assert(events[0].ts() == earliest(events) || events[0].ts() == i64::MAX);
    }
}

proof fn lemma_count_is_of_those_left<N>(events: Seq<MarketEvent<N>>, kind: Kind)
    ensures
        count(events, kind) == events.filter(|e: MarketEvent<N>| kind_of(e) == kind).len(),
    decreases events.len(),
{
    reveal(Seq::filter);
    if events.len() > 0 {
        lemma_count_is_of_those_left(events.drop_last(), kind);
    }
}

/// A delta that begins a book anew is a snapshot, any other delta a delta, and a trade a trade.
pub proof fn law_kinds_tell_events_apart<N>(d: BookDelta<N>, t: TradeEvent<N>)
    ensures
        d.is_snapshot ==> kind_of(MarketEvent::Delta(d)) == Kind::Snapshot,
        !d.is_snapshot ==> kind_of(MarketEvent::Delta(d)) == Kind::Delta,
        kind_of(MarketEvent::Trade(t)) == Kind::Trade,
{
}

} // verus!
