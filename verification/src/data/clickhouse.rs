//! The rows that ClickHouse answers with, one JSON object a line.
use crate::data::clickhouse_schema::{
    action_of, aggressor_is_yes, parse_action, parse_side, parse_ts_ns, side_of, ts_of, yes_taker,
    ClickHouseSchema,
};
use crate::data::{sort_events, stable_order};
use crate::error::{Error, ErrorKind};
use crate::foreign::{json_value, parse_json, Json, JsonView};
use crate::json::{as_text, child, get, text_of};
use crate::number::Number;
use crate::text::{concat2, int_within, lines, lines_of, parse_i64, texts, trim, trimmed};
use crate::types::{
    event_views, BookDelta, Cents, DeltaView, EventView, MarketEvent, TradeEvent, TradeView,
};
use vstd::prelude::*;

verus! {

/// One instrument of the table of deltas: how many rows it has, from when to when.
#[derive(Debug, Clone, PartialEq)]
pub struct ChInstrumentRow {
    pub instrument: String,
    pub rows: u64,
    pub first_ns: i64,
    pub last_ns: i64,
}

/// What a row of an instrument says.
#[verifier::ext_equal]
pub struct ChInstrumentView {
    pub instrument: Seq<char>,
    pub rows: u64,
    pub first_ns: i64,
    pub last_ns: i64,
}

impl View for ChInstrumentRow {
    type V = ChInstrumentView;

    open spec fn view(&self) -> ChInstrumentView {
        ChInstrumentView {
            instrument: self.instrument@,
            rows: self.rows,
            first_ns: self.first_ns,
            last_ns: self.last_ns,
        }
    }
}

/// The days that are asked for: the given ones, else all there are.
pub open spec fn day_or(day: Option<&str>, default: Seq<char>) -> Seq<char> {
    match day {
        Some(d) => d@,
        None => default,
    }
}

fn day_text(day: Option<&str>, default: &str) -> (r: String)
    ensures
        r@ == day_or(day, default@),
{
    match day {
        Some(d) => d.to_owned(),
        None => default.to_owned(),
    }
}

/// The queries for the deltas and the trades of the instruments like a pattern.
pub fn queries(
    instrument_like: &str,
    start: Option<&str>,
    end: Option<&str>,
    schema: &ClickHouseSchema,
) -> (r: (String, String))
    ensures
        r.0@ == schema.deltas_query(
            instrument_like@,
            day_or(start, "1970-01-01"@),
            day_or(end, "2100-01-01"@),
        ),
        r.1@ == schema.trades_query(
            instrument_like@,
            day_or(start, "1970-01-01"@),
            day_or(end, "2100-01-01"@),
        ),
{
    let from = day_text(start, "1970-01-01");
    let to = day_text(end, "2100-01-01");
    (
        schema.deltas_sql(instrument_like, from.as_str(), to.as_str()),
        schema.trades_sql(instrument_like, from.as_str(), to.as_str()),
    )
}

/// The query for the instruments like a pattern.
pub fn instruments_query(
    instrument_like: &str,
    start: Option<&str>,
    end: Option<&str>,
    schema: &ClickHouseSchema,
) -> (r: String)
    ensures
        r@ == schema.instruments_query(
            instrument_like@,
            day_or(start, "1970-01-01"@),
            day_or(end, "2100-01-01"@),
        ),
{
    let from = day_text(start, "1970-01-01");
    let to = day_text(end, "2100-01-01");
    schema.instruments_sql(instrument_like, from.as_str(), to.as_str())
}

/// The integer of a field, as a number or as its text; else 0.
pub open spec fn int_field(v: JsonView, key: Seq<char>) -> i64 {
    match child(v, key) {
        Some(JsonView::Number(whole, _)) => match whole {
            Some(i) => i,
            None => 0,
        },
        Some(JsonView::Text(s)) => match int_within(s, i64::MIN as int, i64::MAX as int) {
            Some(i) => i as i64,
            None => 0,
        },
        _ => 0,
    }
}

/// The number of a field, as a number or as its text; else 0.
pub open spec fn number_field<N: Number>(v: JsonView, key: Seq<char>) -> N {
    let written = match child(v, key) {
        Some(JsonView::Number(_, text)) => N::written(text),
        Some(JsonView::Text(s)) => N::written(s),
        _ => None,
    };
    match written {
        Some(x) => x,
        None => N::integer(0),
    }
}

/// The text of a field; else the empty one.
pub open spec fn text_field(v: JsonView, key: Seq<char>) -> Seq<char> {
    match text_of(child(v, key)) {
        Some(s) => s,
        None => Seq::empty(),
    }
}

/// The time of a field; else 0.
pub open spec fn time_field<N: Number>(v: JsonView, key: Seq<char>) -> i64 {
    match child(v, key) {
        Some(x) => match ts_of::<N>(x) {
            Some(t) => t,
            None => 0,
        },
        None => 0,
    }
}

/// The delta of a row, or what is wrong with it.
pub open spec fn delta_row<N: Number>(v: JsonView, line: Seq<char>) -> Result<
    EventView<N>,
    (ErrorKind, Seq<char>),
> {
    let action = match child(v, "action"@) {
        Some(x) => action_of(x),
        None => None,
    };
    let side = match child(v, "side"@) {
        Some(x) => side_of(x),
        None => None,
    };
    match (action, side) {
        (None, _) => Err((ErrorKind::BadRow, "bad/unknown action in row: "@ + line)),
        (_, None) => Err((ErrorKind::BadRow, "bad/unknown side in row: "@ + line)),
        (Some(action), Some(side)) => Ok(
            EventView::Delta(
                DeltaView {
                    ts_ns: time_field::<N>(v, "ts_ns"@),
                    instrument: text_field(v, "instrument_id"@),
                    action,
                    side,
                    price: Cents::of_dollars(number_field::<N>(v, "price"@)),
                    size: number_field::<N>(v, "size"@),
                    sequence: int_field(v, "sequence"@),
                    is_snapshot: int_field(v, "is_snapshot"@) != 0,
                },
            ),
        ),
    }
}

/// The trade of a row.
pub open spec fn trade_row<N: Number>(v: JsonView) -> EventView<N> {
    EventView::Trade(
        TradeView {
            ts_ns: time_field::<N>(v, "ts_ns"@),
            instrument: text_field(v, "instrument_id"@),
            aggressor_yes: match child(v, "aggressor_side"@) {
                Some(x) => yes_taker(x),
                None => true,
            },
            price: Cents::of_dollars(number_field::<N>(v, "price"@)),
            size: number_field::<N>(v, "size"@),
            trade_id: text_field(v, "trade_id"@),
        },
    )
}

/// The events of some rows, or the first failure among them.
pub open spec fn row_events<N: Number>(lines: Seq<Seq<char>>, trades: bool) -> Result<
    Seq<EventView<N>>,
    (ErrorKind, Seq<char>),
>
    decreases lines.len(),
{
    if lines.len() == 0 {
        Ok(Seq::empty())
    } else {
        match row_events::<N>(lines.drop_last(), trades) {
            Err(e) => Err(e),
            Ok(events) => {
                let line = lines.last();
                if trimmed(line).len() == 0 {
                    Ok(events)
                } else {
                    match json_value(line) {
                        Err(e) => Err((ErrorKind::BadJson, e)),
                        Ok(v) => if trades {
                            Ok(events.push(trade_row::<N>(v)))
                        } else {
                            match delta_row::<N>(v, line) {
                                Ok(e) => Ok(events.push(e)),
                                Err(e) => Err(e),
                            }
                        },
                    }
                }
            },
        }
    }
}

fn read_int(v: &Json, key: &str) -> (r: i64)
    ensures
        r == int_field(v@, key@),
{
    match get(v, key) {
        Some(Json::Number(n)) => match n.int {
            Some(i) => i,
            None => 0,
        },
        Some(Json::Text(s)) => match parse_i64(s.as_str()) {
            Some(i) => i,
            None => 0,
        },
        _ => 0,
    }
}

fn read_number<N: Number>(v: &Json, key: &str) -> (r: N)
    ensures
        r == number_field::<N>(v@, key@),
{
    let written = match get(v, key) {
        Some(Json::Number(n)) => N::parse(n.text.as_str()),
        Some(Json::Text(s)) => N::parse(s.as_str()),
        _ => None,
    };
    match written {
        Some(x) => x,
        None => N::from_int(0),
    }
}

fn read_text(v: &Json, key: &str) -> (r: String)
    ensures
        r@ == text_field(v@, key@),
{
    match as_text(get(v, key)) {
        Some(s) => s,
        None => String::new(),
    }
}

fn read_time<N: Number>(v: &Json, key: &str) -> (r: i64)
    ensures
        r == time_field::<N>(v@, key@),
{
    match get(v, key) {
        Some(x) => match parse_ts_ns::<N>(x) {
            Some(t) => t,
            None => 0,
        },
        None => 0,
    }
}

/// The delta of a row.
pub fn read_delta_row<N: Number>(v: &Json, line: &str) -> (r: Result<MarketEvent<N>, Error>)
    ensures
        match r {
            Ok(e) => delta_row::<N>(v@, line@) == Ok::<EventView<N>, (ErrorKind, Seq<char>)>(e@),
            Err(e) => delta_row::<N>(v@, line@) == Err::<EventView<N>, (ErrorKind, Seq<char>)>(
                e@,
            ),
        },
{
    let action = match get(v, "action") {
        Some(x) => parse_action(x),
        None => None,
    };
    let action = match action {
        Some(a) => a,
        None => {
            return Err(
                Error::new(ErrorKind::BadRow, concat2("bad/unknown action in row: ", line)),
            );
        },
    };
    let side = match get(v, "side") {
        Some(x) => parse_side(x),
        None => None,
    };
    let side = match side {
        Some(s) => s,
        None => {
            return Err(
                Error::new(ErrorKind::BadRow, concat2("bad/unknown side in row: ", line)),
            );
        },
    };
    Ok(
        MarketEvent::Delta(
            BookDelta {
                ts_ns: read_time::<N>(v, "ts_ns"),
                instrument: read_text(v, "instrument_id"),
                action,
                side,
                price: Cents::from_dollars(read_number::<N>(v, "price")),
                size: read_number::<N>(v, "size"),
                sequence: read_int(v, "sequence"),
                is_snapshot: read_int(v, "is_snapshot") != 0,
            },
        ),
    )
}

/// The trade of a row.
pub fn read_trade_row<N: Number>(v: &Json) -> (r: MarketEvent<N>)
    ensures
        r@ == trade_row::<N>(v@),
{
    let aggressor_yes = match get(v, "aggressor_side") {
        Some(x) => aggressor_is_yes(x),
        None => true,
    };
    MarketEvent::Trade(
        TradeEvent {
            ts_ns: read_time::<N>(v, "ts_ns"),
            instrument: read_text(v, "instrument_id"),
            aggressor_yes,
            price: Cents::from_dollars(read_number::<N>(v, "price")),
            size: read_number::<N>(v, "size"),
            trade_id: read_text(v, "trade_id"),
        },
    )
}

proof fn lemma_failure_stays<N: Number>(lines: Seq<Seq<char>>, n: int, trades: bool)
    requires
        0 <= n <= lines.len(),
        row_events::<N>(lines.take(n), trades) is Err,
    ensures
        row_events::<N>(lines, trades) == row_events::<N>(lines.take(n), trades),
    decreases lines.len(),
{
    if n == lines.len() {
        assert(lines.take(n) =~= lines);
    } else {
        let rest = lines.drop_last();
        assert(rest.take(n) =~= lines.take(n));
        lemma_failure_stays::<N>(rest, n, trades);
    }
}

/// Reads the rows of an answer: trades or deltas.
pub fn read_rows<N: Number>(body: &str, trades: bool) -> (r: Result<Vec<MarketEvent<N>>, Error>)
    ensures
        match r {
            Ok(evs) => row_events::<N>(lines_of(body@), trades) == Ok::<
                Seq<EventView<N>>,
                (ErrorKind, Seq<char>),
            >(event_views(evs@)),
            Err(e) => row_events::<N>(lines_of(body@), trades) == Err::<
                Seq<EventView<N>>,
                (ErrorKind, Seq<char>),
            >(e@),
        },
{
    let lines = lines(body);
    let ghost all = texts(lines@);
    let mut events: Vec<MarketEvent<N>> = Vec::new();
    let mut i: usize = 0;
    assert(event_views(events@) =~= Seq::<EventView<N>>::empty());
    while i < lines.len()
        invariant
            i <= lines@.len(),
            all == texts(lines@),
            all == lines_of(body@),
            row_events::<N>(all.take(i as int), trades) == Ok::<
                Seq<EventView<N>>,
                (ErrorKind, Seq<char>),
            >(event_views(events@)),
        decreases lines@.len() - i,
    {
        let ghost here = all.take(i + 1);
        proof {
            assert(here.drop_last() =~= all.take(i as int));
            assert(here.last() == lines@[i as int]@);
        }
        let line = lines[i].as_str();
        let bare = trim(line);
        if !bare.as_str().is_empty() {
            let parsed: Result<MarketEvent<N>, Error> = match parse_json(line) {
                Err(e) => Err(Error::new(ErrorKind::BadJson, e)),
                Ok(v) => if trades {
                    Ok(read_trade_row::<N>(&v))
                } else {
                    read_delta_row::<N>(&v, line)
                },
            };
            match parsed {
                Ok(ev) => {
                    let ghost before = events@;
                    events.push(ev);
                    assert(event_views(events@) =~= event_views(before).push(ev@));
                },
                Err(e) => {
                    proof {
                        lemma_failure_stays::<N>(all, i + 1, trades);
                    }
                    return Err(e);
                },
            }
        }
        i += 1;
    }
    assert(all.take(all.len() as int) =~= all);
    Ok(events)
}

/// The events of two answers, before they are put in order, or the first failure.
pub open spec fn answer_events<N: Number>(deltas: Seq<char>, trades: Seq<char>) -> Result<
    Seq<EventView<N>>,
    (ErrorKind, Seq<char>),
> {
    match row_events::<N>(lines_of(deltas), false) {
        Err(e) => Err(e),
        Ok(ds) => match row_events::<N>(lines_of(trades), true) {
            Err(e) => Err(e),
            Ok(ts) => Ok(ds + ts),
        },
    }
}

/// Makes one stream of the answers to the queries for deltas and for trades.
pub fn load<N: Number>(deltas: &str, trades: &str) -> (r: Result<Vec<MarketEvent<N>>, Error>)
    ensures
        match r {
            Ok(evs) => answer_events::<N>(deltas@, trades@) matches Ok(due) && stable_order(
                due,
                event_views(evs@),
            ),
            Err(e) => answer_events::<N>(deltas@, trades@) == Err::<
                Seq<EventView<N>>,
                (ErrorKind, Seq<char>),
            >(e@),
        },
{
    let mut events = match read_rows::<N>(deltas, false) {
        Ok(evs) => evs,
        Err(e) => {
            return Err(e);
        },
    };
    let mut more = match read_rows::<N>(trades, true) {
        Ok(evs) => evs,
        Err(e) => {
            return Err(e);
        },
    };
    let ghost ds = events@;
    let ghost ts = more@;
    events.append(&mut more);
    assert(event_views(events@) =~= event_views(ds) + event_views(ts));
    Ok(sort_events(events))
}

/// The instrument of a row.
pub open spec fn instrument_row<N: Number>(v: JsonView) -> ChInstrumentView {
    ChInstrumentView {
        instrument: text_field(v, "instrument_id"@),
        rows: if int_field(v, "rows"@) < 0 {
            0
        } else {
            int_field(v, "rows"@) as u64
        },
        first_ns: time_field::<N>(v, "first_ns"@),
        last_ns: time_field::<N>(v, "last_ns"@),
    }
}

/// The instruments of some rows, or the first failure among them.
pub open spec fn row_instruments<N: Number>(lines: Seq<Seq<char>>) -> Result<
    Seq<ChInstrumentView>,
    (ErrorKind, Seq<char>),
>
    decreases lines.len(),
{
    if lines.len() == 0 {
        Ok(Seq::empty())
    } else {
        match row_instruments::<N>(lines.drop_last()) {
            Err(e) => Err(e),
            Ok(rows) => {
                let line = lines.last();
                if trimmed(line).len() == 0 {
                    Ok(rows)
                } else {
                    match json_value(line) {
                        Err(e) => Err((ErrorKind::BadJson, e)),
                        Ok(v) => Ok(rows.push(instrument_row::<N>(v))),
                    }
                }
            },
        }
    }
}

proof fn lemma_list_failure_stays<N: Number>(lines: Seq<Seq<char>>, n: int)
    requires
        0 <= n <= lines.len(),
        row_instruments::<N>(lines.take(n)) is Err,
    ensures
        row_instruments::<N>(lines) == row_instruments::<N>(lines.take(n)),
    decreases lines.len(),
{
    if n == lines.len() {
        assert(lines.take(n) =~= lines);
    } else {
        let rest = lines.drop_last();
        assert(rest.take(n) =~= lines.take(n));
        lemma_list_failure_stays::<N>(rest, n);
    }
}

/// What each of some rows says.
pub open spec fn instrument_views(rows: Seq<ChInstrumentRow>) -> Seq<ChInstrumentView> {
    rows.map_values(|r: ChInstrumentRow| r@)
}

/// Reads the answer to the query for instruments.
pub fn list_instruments<N: Number>(body: &str) -> (r: Result<Vec<ChInstrumentRow>, Error>)
    ensures
        match r {
            Ok(rows) => row_instruments::<N>(lines_of(body@)) == Ok::<
                Seq<ChInstrumentView>,
                (ErrorKind, Seq<char>),
            >(instrument_views(rows@)),
            Err(e) => row_instruments::<N>(lines_of(body@)) == Err::<
                Seq<ChInstrumentView>,
                (ErrorKind, Seq<char>),
            >(e@),
        },
{
    let lines = lines(body);
    let ghost all = texts(lines@);
    let mut rows: Vec<ChInstrumentRow> = Vec::new();
    let mut i: usize = 0;
    assert(instrument_views(rows@) =~= Seq::<ChInstrumentView>::empty());
    while i < lines.len()
        invariant
            i <= lines@.len(),
            all == texts(lines@),
            all == lines_of(body@),
            row_instruments::<N>(all.take(i as int)) == Ok::<
                Seq<ChInstrumentView>,
                (ErrorKind, Seq<char>),
            >(instrument_views(rows@)),
        decreases lines@.len() - i,
    {
        let ghost here = all.take(i + 1);
        proof {
            assert(here.drop_last() =~= all.take(i as int));
            assert(here.last() == lines@[i as int]@);
        }
        let line = lines[i].as_str();
        let bare = trim(line);
        if !bare.as_str().is_empty() {
            match parse_json(line) {
                Err(e) => {
                    proof {
                        lemma_list_failure_stays::<N>(all, i + 1);
                    }
                    return Err(Error::new(ErrorKind::BadJson, e));
                },
                Ok(v) => {
                    let n: i64 = read_int(&v, "rows");
                    let row = ChInstrumentRow {
                        instrument: read_text(&v, "instrument_id"),
                        rows: if n < 0 {
                            0
                        } else {
                            n as u64
                        },
                        first_ns: read_time::<N>(&v, "first_ns"),
                        last_ns: read_time::<N>(&v, "last_ns"),
                    };
                    let ghost before = rows@;
                    rows.push(row);
                    assert(instrument_views(rows@) =~= instrument_views(before).push(row@));
                },
            }
        }
        i += 1;
    }
    assert(all.take(all.len() as int) =~= all);
    Ok(rows)
}

/// What a row of deltas or of trades says stands in the fields of its names: its time, its instrument,
/// its price in dollars to the cent, its size, its action and its side. A row of deltas whose action or
/// side is not known is refused.
pub proof fn law_rows_say_what_their_fields_say<N: Number>(
    v: JsonView,
    line: Seq<char>,
    ts: i64,
    tt: Seq<char>,
    name: Seq<char>,
    price: Seq<char>,
    size: Seq<char>,
    p: N,
    q: N,
)
    requires
        child(v, "ts_ns"@) == Some(JsonView::Number(Some(ts), tt)),
        child(v, "instrument_id"@) == Some(JsonView::Text(name)),
        child(v, "price"@) == Some(JsonView::Text(price)),
        child(v, "size"@) == Some(JsonView::Text(size)),
        N::written(price) == Some(p),
        N::written(size) == Some(q),
    ensures
        ({
            let action = child(v, "action"@);
            let side = child(v, "side"@);
            let known = action is Some && action_of(action->0) is Some && side is Some && side_of(
                side->0,
            ) is Some;
            &&& delta_row::<N>(v, line) is Ok <==> known
            &&& delta_row::<N>(v, line) matches Ok(e) ==> {
                &&& e matches EventView::Delta(d)
                &&& d.ts_ns == ts
                &&& d.instrument == name
                &&& d.price == Cents::of_dollars(p)
                &&& d.size == q
                &&& Some(d.action) == action_of(action->0)
                &&& Some(d.side) == side_of(side->0)
            }
        }),
        ({
            &&& trade_row::<N>(v) matches EventView::Trade(t)
            &&& t.ts_ns == ts
            &&& t.instrument == name
            &&& t.price == Cents::of_dollars(p)
            &&& t.size == q
            &&& child(v, "aggressor_side"@) is None ==> t.aggressor_yes
            &&& child(v, "aggressor_side"@) is Some ==> t.aggressor_yes == yes_taker(
                child(v, "aggressor_side"@)->0,
            )
        }),
{
}

/// The rows are read line after line: one more adds its event, one of nothing but space none, and the
/// first that cannot be read fails them all.
pub proof fn law_rows_are_read_in_turn<N: Number>(lines: Seq<Seq<char>>, line: Seq<char>, trades: bool)
    ensures
        ({
            let before = row_events::<N>(lines, trades);
            let after = row_events::<N>(lines.push(line), trades);
            &&& before is Err ==> after == before
            &&& before is Ok && trimmed(line).len() == 0 ==> after == before
            &&& before is Ok && trimmed(line).len() > 0 && json_value(line) is Err ==> after is Err
            &&& before is Ok && trimmed(line).len() > 0 && json_value(line) is Ok && trades
                ==> after is Ok && after->Ok_0 == before->Ok_0.push(
                trade_row::<N>(json_value(line)->Ok_0),
            )
            &&& before is Ok && trimmed(line).len() > 0 && json_value(line) is Ok && !trades
                && delta_row::<N>(json_value(line)->Ok_0, line) is Ok ==> after is Ok
                && after->Ok_0 == before->Ok_0.push(
                delta_row::<N>(json_value(line)->Ok_0, line)->Ok_0,
            )
        }),
{
    assert(lines.push(line).drop_last() =~= lines);
}

} // verus!
