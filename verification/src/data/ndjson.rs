//! The collector's captures: newline-delimited JSON, one delta or trade a line.
use crate::adapters::{in_range, within};
use crate::data::{
    glob_match, is_packed, matches_glob, readable, sort_events, stable_order, unpack, until_break,
};
use crate::error::{because, Error, ErrorKind};
use crate::foreign::{json_value, parse_json, Json, JsonView};
use crate::json::{
    as_flag, as_int, as_number, as_text, child, flag_of, get, int_of, number_of, text_of,
};
use crate::number::Number;
use crate::text::{byte_lines, byte_texts, concat2, line_text, read_text, same_text, split_lines};
use crate::types::{
    event_views, Action, BookDelta, Cents, DeltaView, EventView, MarketEvent, Side, TradeEvent,
    TradeView,
};
use vstd::prelude::*;

verus! {

/// The text of a field, or another where it has none.
pub open spec fn word(v: JsonView, key: Seq<char>, default: Seq<char>) -> Seq<char> {
    match text_of(child(v, key)) {
        Some(s) => s,
        None => default,
    }
}

/// The number of a field, or 0 where it has none.
pub open spec fn amount<N: Number>(v: JsonView, key: Seq<char>) -> N {
    match number_of::<N>(child(v, key)) {
        Some(x) => x,
        None => N::integer(0),
    }
}

/// A row that lacks a field.
pub open spec fn lacks(key: Seq<char>) -> (ErrorKind, Seq<char>) {
    (ErrorKind::BadRow, key)
}

/// The delta that a value stands for, or the first thing that is wrong with it.
pub open spec fn delta_of<N: Number>(v: JsonView) -> Result<DeltaView<N>, (ErrorKind, Seq<char>)> {
    let action = word(v, "action"@, Seq::empty());
    let side = word(v, "side"@, Seq::empty());
    if int_of(child(v, "ts_ns"@)) is None {
        Err(lacks("ts_ns"@))
    } else if text_of(child(v, "instrument"@)) is None {
        Err(lacks("instrument"@))
    } else if action != "ADD"@ && action != "UPDATE"@ && action != "DELETE"@ {
        Err((ErrorKind::BadRow, "bad action "@ + action))
    } else if side != "BUY"@ && side != "SELL"@ {
        Err((ErrorKind::BadRow, "bad side "@ + side))
    } else if number_of::<N>(child(v, "price"@)) is None {
        Err(lacks("price"@))
    } else {
        Ok(
            DeltaView {
                ts_ns: int_of(child(v, "ts_ns"@))->0,
                instrument: text_of(child(v, "instrument"@))->0,
                action: if action == "ADD"@ {
                    Action::Add
                } else if action == "UPDATE"@ {
                    Action::Update
                } else {
                    Action::Delete
                },
                side: if side == "BUY"@ {
                    Side::Bid
                } else {
                    Side::Ask
                },
                price: Cents::of_dollars(number_of::<N>(child(v, "price"@))->0),
                size: amount::<N>(v, "size"@),
                sequence: match int_of(child(v, "sequence"@)) {
                    Some(n) => n,
                    None => 0,
                },
                is_snapshot: flag_of(child(v, "is_snapshot"@)),
            },
        )
    }
}

/// The trade that a value stands for, or the first thing that is wrong with it.
pub open spec fn trade_of<N: Number>(v: JsonView) -> Result<TradeView<N>, (ErrorKind, Seq<char>)> {
    let taker = word(v, "aggressor_side"@, "yes"@);
    if int_of(child(v, "ts_ns"@)) is None {
        Err(lacks("ts_ns"@))
    } else if text_of(child(v, "instrument"@)) is None {
        Err(lacks("instrument"@))
    } else if number_of::<N>(child(v, "price"@)) is None {
        Err(lacks("price"@))
    } else {
        Ok(
            TradeView {
                ts_ns: int_of(child(v, "ts_ns"@))->0,
                instrument: text_of(child(v, "instrument"@))->0,
                aggressor_yes: taker == "yes"@ || taker == "YES"@ || taker == "BUY"@,
                price: Cents::of_dollars(number_of::<N>(child(v, "price"@))->0),
                size: amount::<N>(v, "size"@),
                trade_id: word(v, "trade_id"@, Seq::empty()),
            },
        )
    }
}

/// The event that a value stands for, or the first thing that is wrong with it.
pub open spec fn event_of<N: Number>(v: JsonView) -> Result<EventView<N>, (ErrorKind, Seq<char>)> {
    let kind = word(v, "kind"@, Seq::empty());
    if kind == "delta"@ {
        match delta_of::<N>(v) {
            Ok(d) => Ok(EventView::Delta(d)),
            Err(e) => Err(e),
        }
    } else if kind == "trade"@ {
        match trade_of::<N>(v) {
            Ok(t) => Ok(EventView::Trade(t)),
            Err(e) => Err(e),
        }
    } else {
        Err((ErrorKind::BadRow, "unknown kind: "@ + kind))
    }
}

/// What is taken from a capture: the instruments that match, in a range of time.
pub open spec fn taken<N>(
    e: EventView<N>,
    instrument: Option<Seq<char>>,
    start: Option<i64>,
    end: Option<i64>,
) -> bool {
    &&& (instrument matches Some(p) ==> matches_glob(p, e.inst()))
    &&& within(e.ts(), start, end)
}

/// The events of some lines, or the first failure among them.
pub open spec fn capture_events<N: Number>(
    lines: Seq<Seq<u8>>,
    instrument: Option<Seq<char>>,
    start: Option<i64>,
    end: Option<i64>,
) -> Result<Seq<EventView<N>>, (ErrorKind, Seq<char>)>
    decreases lines.len(),
{
    if lines.len() == 0 {
        Ok(Seq::empty())
    } else {
        match capture_events::<N>(lines.drop_last(), instrument, start, end) {
            Err(e) => Err(e),
            Ok(events) => {
                match line_text(lines.last()) {
                    None => Err((ErrorKind::NotText, "stream did not contain valid UTF-8"@)),
                    Some(line) => {
                        if line.len() == 0 {
                            Ok(events)
                        } else {
                            match json_value(line) {
                                Err(e) => Err((ErrorKind::BadJson, because("bad json line: "@ + line, e))),
                                Ok(v) => match event_of::<N>(v) {
                                    Err(e) => Err(e),
                                    Ok(ev) => if taken(ev, instrument, start, end) {
                                        Ok(events.push(ev))
                                    } else {
                                        Ok(events)
                                    },
                                },
                            }
                        }
                    },
                }
            },
        }
    }
}

/// The events of a capture, before they are put in order, or the failure to read it.
pub open spec fn capture_of<N: Number>(
    data: Seq<u8>,
    instrument: Option<Seq<char>>,
    start: Option<i64>,
    end: Option<i64>,
) -> Result<Seq<EventView<N>>, (ErrorKind, Seq<char>)> {
    capture_events::<N>(byte_lines(data), instrument, start, end)
}

fn read_word(v: &Json, key: &str, default: &str) -> (r: String)
    ensures
        r@ == word(v@, key@, default@),
{
    match as_text(get(v, key)) {
        Some(s) => s,
        None => default.to_owned(),
    }
}

fn read_amount<N: Number>(v: &Json, key: &str) -> (r: N)
    ensures
        r == amount::<N>(v@, key@),
{
    match as_number::<N>(get(v, key)) {
        Some(x) => x,
        None => N::from_int(0),
    }
}

fn lacking(key: &str) -> (r: Error)
    ensures
        r@ == lacks(key@),
{
    Error::new(ErrorKind::BadRow, key.to_owned())
}

/// The delta that a value stands for.
pub fn parse_delta<N: Number>(v: &Json) -> (r: Result<BookDelta<N>, Error>)
    ensures
        match r {
            Ok(d) => delta_of::<N>(v@) == Ok::<DeltaView<N>, (ErrorKind, Seq<char>)>(d@),
            Err(e) => delta_of::<N>(v@) == Err::<DeltaView<N>, (ErrorKind, Seq<char>)>(e@),
        },
{
    proof {
        reveal_strlit("");
        assert(""@ =~= Seq::<char>::empty());
    }
    let ts_ns: i64 = match as_int(get(v, "ts_ns")) {
        Some(t) => t,
        None => {
            return Err(lacking("ts_ns"));
        },
    };
    let instrument = match as_text(get(v, "instrument")) {
        Some(s) => s,
        None => {
            return Err(lacking("instrument"));
        },
    };
    let a = read_word(v, "action", "");
    let action = if same_text(a.as_str(), "ADD") {
        Action::Add
    } else if same_text(a.as_str(), "UPDATE") {
        Action::Update
    } else if same_text(a.as_str(), "DELETE") {
        Action::Delete
    } else {
        return Err(Error::new(ErrorKind::BadRow, concat2("bad action ", a.as_str())));
    };
    let s = read_word(v, "side", "");
    let side = if same_text(s.as_str(), "BUY") {
        Side::Bid
    } else if same_text(s.as_str(), "SELL") {
        Side::Ask
    } else {
        return Err(Error::new(ErrorKind::BadRow, concat2("bad side ", s.as_str())));
    };
    let price = match as_number::<N>(get(v, "price")) {
        Some(x) => Cents::from_dollars(x),
        None => {
            return Err(lacking("price"));
        },
    };
    let size = read_amount::<N>(v, "size");
    let sequence: i64 = match as_int(get(v, "sequence")) {
        Some(n) => n,
        None => 0,
    };
    let is_snapshot = as_flag(get(v, "is_snapshot"));
    Ok(BookDelta { ts_ns, instrument, action, side, price, size, sequence, is_snapshot })
}

/// The trade that a value stands for.
pub fn parse_trade<N: Number>(v: &Json) -> (r: Result<TradeEvent<N>, Error>)
    ensures
        match r {
            Ok(t) => trade_of::<N>(v@) == Ok::<TradeView<N>, (ErrorKind, Seq<char>)>(t@),
            Err(e) => trade_of::<N>(v@) == Err::<TradeView<N>, (ErrorKind, Seq<char>)>(e@),
        },
{
    proof {
        reveal_strlit("");
        assert(""@ =~= Seq::<char>::empty());
    }
    let ts_ns: i64 = match as_int(get(v, "ts_ns")) {
        Some(t) => t,
        None => {
            return Err(lacking("ts_ns"));
        },
    };
    let instrument = match as_text(get(v, "instrument")) {
        Some(s) => s,
        None => {
            return Err(lacking("instrument"));
        },
    };
    let taker = read_word(v, "aggressor_side", "yes");
    let aggressor_yes = same_text(taker.as_str(), "yes") || same_text(taker.as_str(), "YES")
        || same_text(taker.as_str(), "BUY");
    let price = match as_number::<N>(get(v, "price")) {
        Some(x) => Cents::from_dollars(x),
        None => {
            return Err(lacking("price"));
        },
    };
    let size = read_amount::<N>(v, "size");
    let trade_id = read_word(v, "trade_id", "");
    Ok(TradeEvent { ts_ns, instrument, aggressor_yes, price, size, trade_id })
}

/// The event that a value stands for.
pub fn parse_event<N: Number>(v: &Json) -> (r: Result<MarketEvent<N>, Error>)
    ensures
        match r {
            Ok(ev) => event_of::<N>(v@) == Ok::<EventView<N>, (ErrorKind, Seq<char>)>(ev@),
            Err(e) => event_of::<N>(v@) == Err::<EventView<N>, (ErrorKind, Seq<char>)>(e@),
        },
{
    proof {
        reveal_strlit("");
        assert(""@ =~= Seq::<char>::empty());
    }
    let kind = read_word(v, "kind", "");
    if same_text(kind.as_str(), "delta") {
        match parse_delta::<N>(v) {
            Ok(d) => Ok(MarketEvent::Delta(d)),
            Err(e) => Err(e),
        }
    } else if same_text(kind.as_str(), "trade") {
        match parse_trade::<N>(v) {
            Ok(t) => Ok(MarketEvent::Trade(t)),
            Err(e) => Err(e),
        }
    } else {
        Err(Error::new(ErrorKind::BadRow, concat2("unknown kind: ", kind.as_str())))
    }
}

/// The text of an optional string slice.
pub open spec fn opt_str(s: Option<&str>) -> Option<Seq<char>> {
    match s {
        Some(t) => Some(t@),
        None => None,
    }
}

/// The events that are taken from some lines.
pub fn read_capture<N: Number>(
    lines: &Vec<Vec<u8>>,
    instrument: Option<&str>,
    start_ns: Option<i64>,
    end_ns: Option<i64>,
) -> (r: Result<Vec<MarketEvent<N>>, Error>)
    ensures
        match r {
            Ok(evs) => capture_events::<N>(byte_texts(lines@), opt_str(instrument), start_ns, end_ns)
                == Ok::<Seq<EventView<N>>, (ErrorKind, Seq<char>)>(event_views(evs@)),
            Err(e) => capture_events::<N>(byte_texts(lines@), opt_str(instrument), start_ns, end_ns)
                == Err::<Seq<EventView<N>>, (ErrorKind, Seq<char>)>(e@),
        },
{
    let mut events: Vec<MarketEvent<N>> = Vec::new();
    let mut i: usize = 0;
    let ghost all = byte_texts(lines@);
    let ghost inst = opt_str(instrument);
    assert(event_views(events@) =~= Seq::<EventView<N>>::empty());
    while i < lines.len()
        invariant
            i <= lines@.len(),
            all == byte_texts(lines@),
            inst == opt_str(instrument),
            capture_events::<N>(all.take(i as int), inst, start_ns, end_ns) == Ok::<
                Seq<EventView<N>>,
                (ErrorKind, Seq<char>),
            >(event_views(events@)),
        decreases lines@.len() - i,
    {
        let ghost here = all.take(i + 1);
        proof {
            assert(here.drop_last() =~= all.take(i as int));
            assert(here.last() == lines@[i as int]@);
        }
        let line = match read_text(lines[i].as_slice()) {
            Some(line) => line,
            None => {
                proof {
                    lemma_failure_stays::<N>(all, i + 1, inst, start_ns, end_ns);
                }
                return Err(Error::new(ErrorKind::NotText, "stream did not contain valid UTF-8".to_owned()));
            },
        };
        if !line.as_str().is_empty() {
            let parsed = match parse_json(line.as_str()) {
                Err(e) => Err(
                    Error::caused(
                        ErrorKind::BadJson,
                        concat2("bad json line: ", line.as_str()).as_str(),
                        e.as_str(),
                    ),
                ),
                Ok(v) => parse_event::<N>(&v),
            };
            match parsed {
                Ok(ev) => {
                    let fits: bool = match instrument {
                        Some(p) => glob_match(p, ev.instrument()),
                        None => true,
                    };
                    if fits && in_range(ev.ts_ns(), start_ns, end_ns) {
                        let ghost before = events@;
                        events.push(ev);
                        assert(event_views(events@) =~= event_views(before).push(ev@));
                    }
                },
                Err(e) => {
                    proof {
                        lemma_failure_stays::<N>(all, i + 1, inst, start_ns, end_ns);
                    }
                    return Err(e);
                },
            }
        }
        i += 1;
    }
    assert(all.take(all.len() as int) =~= all);
    Ok(events)
}

proof fn lemma_failure_stays<N: Number>(
    lines: Seq<Seq<u8>>,
    n: int,
    instrument: Option<Seq<char>>,
    start: Option<i64>,
    end: Option<i64>,
)
    requires
        0 <= n <= lines.len(),
        capture_events::<N>(lines.take(n), instrument, start, end) is Err,
    ensures
        capture_events::<N>(lines, instrument, start, end) == capture_events::<N>(
            lines.take(n),
            instrument,
            start,
            end,
        ),
    decreases lines.len(),
{
    if n == lines.len() {
        assert(lines.take(n) =~= lines);
    } else {
        let rest = lines.drop_last();
        assert(rest.take(n) =~= lines.take(n));
        lemma_failure_stays::<N>(rest, n, instrument, start, end);
    }
}

/// Reads a capture: the events of the instruments that match, in a range of time, in order.
pub fn load<N: Number>(
    data: &[u8],
    instrument: Option<&str>,
    start_ns: Option<i64>,
    end_ns: Option<i64>,
) -> (r: Result<Vec<MarketEvent<N>>, Error>)
    ensures
        match r {
            Ok(evs) => capture_of::<N>(data@, opt_str(instrument), start_ns, end_ns) matches Ok(due)
                && stable_order(due, event_views(evs@)),
            Err(e) => capture_of::<N>(data@, opt_str(instrument), start_ns, end_ns) == Err::<
                Seq<EventView<N>>,
                (ErrorKind, Seq<char>),
            >(e@),
        },
{
    let lines = split_lines(data);
    match read_capture::<N>(&lines, instrument, start_ns, end_ns) {
        Ok(events) => Ok(sort_events(events)),
        Err(e) => Err(e),
    }
}

/// The events of the file of a capture, or the first failure: what is wrong with a line comes before
/// the break of a packed file that cannot be unpacked to its end.
pub open spec fn file_events<N: Number>(
    path: Seq<char>,
    raw: Seq<u8>,
    instrument: Option<Seq<char>>,
    start: Option<i64>,
    end: Option<i64>,
) -> Result<Seq<EventView<N>>, (ErrorKind, Seq<char>)> {
    let (data, broken) = readable(path, raw);
    match (capture_of::<N>(data, instrument, start, end), broken) {
        (Ok(_), Some(b)) => Err(b),
        (read, _) => read,
    }
}

/// Reads the file of a capture, which holds `raw` and is packed where its name says so.
pub fn load_file<N: Number>(
    path: &str,
    raw: &[u8],
    instrument: Option<&str>,
    start_ns: Option<i64>,
    end_ns: Option<i64>,
) -> (r: Result<Vec<MarketEvent<N>>, Error>)
    ensures
        match r {
            Ok(evs) => file_events::<N>(path@, raw@, opt_str(instrument), start_ns, end_ns) matches Ok(
                due,
            ) && stable_order(due, event_views(evs@)),
            Err(e) => file_events::<N>(path@, raw@, opt_str(instrument), start_ns, end_ns)
                == Err::<Seq<EventView<N>>, (ErrorKind, Seq<char>)>(e@),
        },
{
    if is_packed(path) {
        let (data, broken) = unpack(raw);
        let read = load::<N>(data.as_slice(), instrument, start_ns, end_ns);
        until_break(read, broken)
    } else {
        load::<N>(raw, instrument, start_ns, end_ns)
    }
}

/// What a line of a capture says: a delta or a trade, at its time, of its instrument, at its price in
/// dollars to the cent and of its size. `BUY` is a bid and `SELL` an ask; a trade was taken by a buyer
/// of YES unless it names another side.
pub proof fn law_captured_rows_say<N: Number>(
    v: JsonView,
    ts: i64,
    name: Seq<char>,
    price: N,
    size: N,
    action: Seq<char>,
    side: Seq<char>,
)
    requires
        int_of(child(v, "ts_ns"@)) == Some(ts),
        text_of(child(v, "instrument"@)) == Some(name),
        number_of::<N>(child(v, "price"@)) == Some(price),
        number_of::<N>(child(v, "size"@)) == Some(size),
    ensures
        text_of(child(v, "kind"@)) == Some("delta"@) && text_of(child(v, "action"@)) == Some(action)
            && text_of(child(v, "side"@)) == Some(side) ==> {
            let known = action == "ADD"@ || action == "UPDATE"@ || action == "DELETE"@;
            &&& known && (side == "BUY"@ || side == "SELL"@) <==> event_of::<N>(v) is Ok
            &&& event_of::<N>(v) matches Ok(e) ==> {
                &&& e matches EventView::Delta(d)
                &&& d.ts_ns == ts
                &&& d.instrument == name
                &&& d.price == Cents::of_dollars(price)
                &&& d.size == size
                &&& d.side == Side::Bid <==> side == "BUY"@
                &&& action == "ADD"@ ==> d.action == Action::Add
                &&& action == "UPDATE"@ && action != "ADD"@ ==> d.action == Action::Update
                &&& action == "DELETE"@ && action != "ADD"@ && action != "UPDATE"@ ==> d.action
                    == Action::Delete
                &&& int_of(child(v, "sequence"@)) matches Some(n) ==> d.sequence == n
                &&& d.is_snapshot == flag_of(child(v, "is_snapshot"@))
            }
        },
        text_of(child(v, "kind"@)) == Some("trade"@) && "trade"@ != "delta"@ ==> {
            &&& event_of::<N>(v) matches Ok(e)
            &&& e matches EventView::Trade(t)
            &&& t.ts_ns == ts
            &&& t.instrument == name
            &&& t.price == Cents::of_dollars(price)
            &&& t.size == size
            &&& child(v, "aggressor_side"@) is None ==> t.aggressor_yes
            &&& text_of(child(v, "aggressor_side"@)) matches Some(w) ==> (t.aggressor_yes <==> w
                == "yes"@ || w == "YES"@ || w == "BUY"@)
        },
{
}

/// A capture is read line after line. A line that holds an event adds it, where its instrument and its
/// time are asked for; an empty line adds nothing; and the first line that cannot be read fails it.
pub proof fn law_captures_are_read_line_by_line<N: Number>(
    lines: Seq<Seq<u8>>,
    line: Seq<u8>,
    text: Seq<char>,
    ev: EventView<N>,
    instrument: Option<Seq<char>>,
    start: Option<i64>,
    end: Option<i64>,
)
    requires
        line_text(line) == Some(text),
        text.len() > 0,
        json_value(text) matches Ok(v) && event_of::<N>(v) == Ok::<
            EventView<N>,
            (ErrorKind, Seq<char>),
        >(ev),
    ensures
        ({
            let before = capture_events::<N>(lines, instrument, start, end);
            let after = capture_events::<N>(lines.push(line), instrument, start, end);
            let early = start matches Some(s) && ev.ts() < s;
            let late = end matches Some(e) && ev.ts() >= e;
            let other = instrument matches Some(p) && !matches_glob(p, ev.inst());
            match before {
                Ok(events) => after == Ok::<Seq<EventView<N>>, (ErrorKind, Seq<char>)>(
                    if early || late || other {
                        events
                    } else {
                        events.push(ev)
                    },
                ),
                Err(e) => after == Err::<Seq<EventView<N>>, (ErrorKind, Seq<char>)>(e),
            }
        }),
{
    assert(lines.push(line).drop_last() =~= lines);
}

} // verus!
