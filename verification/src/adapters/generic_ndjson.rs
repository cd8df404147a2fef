//! Any venue's data as newline-delimited JSON, with names of fields that can be chosen.
use crate::adapters::rows::{
    action_named, delivered, is_wanted, is_yes_taker, map_action, map_side, plan, plan_of,
    side_named, side_of_sign, signed_side, took_yes, wanted, Collector, Haul, Plan, Row, RowView,
};
use crate::adapters::{
    all_events, in_range, opt_text, retagged, setting, source_key, source_name, tagged, within, AdapterLoad,
    AdapterSpec, DataAdapter, MappingKey, PriceScale, Venue, VenueView,
};
use crate::data::ndjson::{amount, capture_events, capture_of, event_of, taken, word};
use crate::data::{
    law_order_is_unique, lemma_said_nothing, lemma_said_push, said_at, stable_order, told_in_order,
};
use crate::error::{because, Error, ErrorKind};
use crate::foreign::{json_value, parse_json, Json, JsonView};
use crate::json::{
    as_flag, as_loose_int, as_loose_number, as_text, at_path, child, flag_of, get_path, int_of,
    loose_int_of, loose_number_of, number_of, text_of,
};
use crate::number::Number;
use crate::text::{
    ascii_upper, byte_lines, byte_texts, concat2, concat3, line_text, read_text, same_text,
    split_lines, uppercase,
};
use crate::types::{
    deltas_among, trades_among, Action, BookDelta, DeltaView, EventView, MarketEvent, Side,
    TradeEvent, TradeView,
};
use vstd::prelude::*;

verus! {

/// The generic adapter of newline-delimited JSON.
#[derive(Debug, Clone, Copy)]
pub struct GenericNdjsonAdapter;

/// The value at the path that a source has for a field.
pub open spec fn field(v: JsonView, spec: AdapterSpec, name: Seq<char>) -> Option<JsonView> {
    at_path(v, source_name(spec.mapping@, name))
}

/// The side and the size of a delta: the side that is written; else both from the sign of the
/// column that `side_from_sign` names.
pub open spec fn line_side<N: Number>(v: JsonView, line: Seq<char>, spec: AdapterSpec) -> Result<
    (Side, N),
    (ErrorKind, Seq<char>),
> {
    let written = match text_of(field(v, spec, "side"@)) {
        Some(word) => side_named(word),
        None => None,
    };
    match written {
        Some(side) => Ok(
            (
                side,
                match loose_number_of::<N>(field(v, spec, "size"@)) {
                    Some(x) => x,
                    None => N::integer(0),
                },
            ),
        ),
        None => match setting(spec.mapping@, "side_from_sign"@) {
            None => Err((ErrorKind::BadRow, "bad/missing side in: "@ + line)),
            Some(column) => match loose_number_of::<N>(at_path(v, column)) {
                None => Err(
                    (
                        ErrorKind::BadRow,
                        "side_from_sign column '"@ + column + "' missing/non-numeric in: "@ + line,
                    ),
                ),
                Some(signed) => if signed.equals(N::integer(0)) {
                    Err(
                        (
                            ErrorKind::BadRow,
                            "side_from_sign column '"@ + column + "' is 0 (no sign) in: "@ + line,
                        ),
                    )
                } else {
                    Ok(signed_side(signed))
                },
            },
        },
    }
}

/// What one line is: the row that its value stands for, or the failure to read it.
pub open spec fn line_row<N: Number>(
    v: JsonView,
    line: Seq<char>,
    spec: AdapterSpec,
    plan: Plan,
    numbered: i64,
) -> Result<RowView<N>, (ErrorKind, Seq<char>)> {
    match text_of(field(v, spec, "instrument"@)) {
        None => Err((ErrorKind::BadRow, "missing instrument field in: "@ + line)),
        Some(symbol) => if !wanted(spec, symbol) {
            Ok(RowView::Skip)
        } else {
            match loose_int_of::<N>(field(v, spec, "ts_ns"@)) {
                None => Err((ErrorKind::BadRow, "missing ts_ns in: "@ + line)),
                Some(ts) => if !within(ts, plan.start, plan.end) {
                    Ok(RowView::Skip)
                } else {
                    let price = plan.scale.cents_of(
                        match loose_number_of::<N>(field(v, spec, "price"@)) {
                            Some(x) => x,
                            None => N::integer(0),
                        },
                    );
                    if text_of(field(v, spec, "kind"@)) == Some("trade"@) {
                        Ok(
                            RowView::Trade(
                                TradeView {
                                    ts_ns: ts,
                                    instrument: symbol,
                                    aggressor_yes: match text_of(
                                        field(v, spec, "aggressor_side"@),
                                    ) {
                                        Some(word) => took_yes(word),
                                        None => true,
                                    },
                                    price,
                                    size: match loose_number_of::<N>(field(v, spec, "size"@)) {
                                        Some(x) => x,
                                        None => N::integer(0),
                                    },
                                    trade_id: match text_of(field(v, spec, "trade_id"@)) {
                                        Some(id) => id,
                                        None => Seq::empty(),
                                    },
                                },
                            ),
                        )
                    } else {
                        match line_side::<N>(v, line, spec) {
                            Err(e) => Err(e),
                            Ok((side, size)) => {
                                let sequence = loose_int_of::<N>(field(v, spec, "sequence"@));
                                Ok(
                                    RowView::Delta(
                                        DeltaView {
                                            ts_ns: ts,
                                            instrument: symbol,
                                            action: match text_of(field(v, spec, "action"@)) {
                                                Some(word) => action_named(word),
                                                None => Action::Add,
                                            },
                                            side,
                                            price,
                                            size,
                                            sequence: match sequence {
                                                Some(n) => n,
                                                None => numbered.wrapping_add(1),
                                            },
                                            is_snapshot: flag_of(field(v, spec, "is_snapshot"@)),
                                        },
                                        sequence is None,
                                    ),
                                )
                            },
                        }
                    }
                },
            }
        },
    }
}

/// What the lines come to, or the first failure among them.
pub open spec fn lines_haul<N: Number>(lines: Seq<Seq<u8>>, spec: AdapterSpec, plan: Plan) -> Result<
    Haul<N>,
    (ErrorKind, Seq<char>),
>
    decreases lines.len(),
{
    if lines.len() == 0 {
        Ok(Haul::empty())
    } else {
        match lines_haul::<N>(lines.drop_last(), spec, plan) {
            Err(e) => Err(e),
            Ok(haul) => {
                match line_text(lines.last()) {
                    None => Err((ErrorKind::NotText, "stream did not contain valid UTF-8"@)),
                    Some(line) => {
                        if line.len() == 0 {
                            Ok(haul)
                        } else {
                            match json_value(line) {
                                Err(e) => Err((ErrorKind::BadJson, because("bad json line: "@ + line, e))),
                                Ok(v) => match line_row::<N>(v, line, spec, plan, haul.numbered) {
                                    Err(e) => Err(e),
                                    Ok(row) => Ok(haul.with(row)),
                                },
                            }
                        }
                    },
                }
            },
        }
    }
}

/// The events of a source under a venue, before they are put in order, or the failure to read it.
pub open spec fn ndjson_events<N: Number>(spec: AdapterSpec, venue: VenueView, data: Seq<u8>) -> Result<
    Seq<EventView<N>>,
    (ErrorKind, Seq<char>),
> {
    match plan_of(spec) {
        Err(e) => Err(e),
        Ok(plan) => match lines_haul::<N>(byte_lines(data), spec, plan) {
            Err(e) => Err(e),
            Ok(haul) => Ok(tagged(all_events(haul.deltas, haul.trades), venue)),
        },
    }
}

fn fetch<'a>(v: &'a Json, spec: &AdapterSpec, name: &str) -> (r: Option<&'a Json>)
    ensures
        crate::json::found(r) == field(v@, *spec, name@),
{
    let key = source_key(&spec.mapping, name);
    get_path(v, key.as_str())
}

fn or_zero<N: Number>(x: Option<N>) -> (r: N)
    ensures
        r == (match x {
            Some(y) => y,
            None => N::integer(0),
        }),
{
    match x {
        Some(y) => y,
        None => N::from_int(0),
    }
}

/// The side and the size of a delta.
pub fn read_side<N: Number>(v: &Json, line: &str, spec: &AdapterSpec) -> (r: Result<
    (Side, N),
    Error,
>)
    ensures
        match r {
            Ok(x) => line_side::<N>(v@, line@, *spec) == Ok::<(Side, N), (ErrorKind, Seq<char>)>(x),
            Err(e) => line_side::<N>(v@, line@, *spec) == Err::<
                (Side, N),
                (ErrorKind, Seq<char>),
            >(e@),
        },
{
    let written = match as_text(fetch(v, spec, "side")) {
        Some(word) => map_side(word.as_str()),
        None => None,
    };
    match written {
        Some(side) => Ok((side, or_zero(as_loose_number::<N>(fetch(v, spec, "size"))))),
        None => match spec.mapping.get("side_from_sign") {
            None => Err(Error::new(ErrorKind::BadRow, concat2("bad/missing side in: ", line))),
            Some(column) => match as_loose_number::<N>(get_path(v, column.as_str())) {
                None => {
                    let head = concat3(
                        "side_from_sign column '",
                        column.as_str(),
                        "' missing/non-numeric in: ",
                    );
                    Err(Error::new(ErrorKind::BadRow, concat2(head.as_str(), line)))
                },
                Some(signed) => if signed.is_equal(N::from_int(0)) {
                    let head = concat3(
                        "side_from_sign column '",
                        column.as_str(),
                        "' is 0 (no sign) in: ",
                    );
                    Err(Error::new(ErrorKind::BadRow, concat2(head.as_str(), line)))
                } else {
                    Ok(side_of_sign(signed))
                },
            },
        },
    }
}

/// The row that the value of one line stands for.
pub fn read_line<N: Number>(
    v: &Json,
    line: &str,
    spec: &AdapterSpec,
    plan: Plan,
    numbered: i64,
) -> (r: Result<Row<N>, Error>)
    ensures
        match r {
            Ok(row) => line_row::<N>(v@, line@, *spec, plan, numbered) == Ok::<
                RowView<N>,
                (ErrorKind, Seq<char>),
            >(row@),
            Err(e) => line_row::<N>(v@, line@, *spec, plan, numbered) == Err::<
                RowView<N>,
                (ErrorKind, Seq<char>),
            >(e@),
        },
{
    let symbol = match as_text(fetch(v, spec, "instrument")) {
        Some(s) => s,
        None => {
            return Err(
                Error::new(ErrorKind::BadRow, concat2("missing instrument field in: ", line)),
            );
        },
    };
    if !is_wanted(spec, symbol.as_str()) {
        return Ok(Row::Skip);
    }
    let ts_ns: i64 = match as_loose_int::<N>(fetch(v, spec, "ts_ns")) {
        Some(t) => t,
        None => {
            return Err(Error::new(ErrorKind::BadRow, concat2("missing ts_ns in: ", line)));
        },
    };
    if !in_range(ts_ns, plan.start, plan.end) {
        return Ok(Row::Skip);
    }
    let price = plan.scale.to_cents(or_zero(as_loose_number::<N>(fetch(v, spec, "price"))));
    let is_trade: bool = match as_text(fetch(v, spec, "kind")) {
        Some(k) => same_text(k.as_str(), "trade"),
        None => false,
    };
    if is_trade {
        let aggressor_yes = match as_text(fetch(v, spec, "aggressor_side")) {
            Some(word) => is_yes_taker(word.as_str()),
            None => true,
        };
        let trade_id = match as_text(fetch(v, spec, "trade_id")) {
            Some(id) => id,
            None => String::new(),
        };
        let size = or_zero(as_loose_number::<N>(fetch(v, spec, "size")));
        return Ok(
            Row::Trade(
                TradeEvent { ts_ns, instrument: symbol, aggressor_yes, price, size, trade_id },
            ),
        );
    }
    let (side, size) = match read_side::<N>(v, line, spec) {
        Ok(x) => x,
        Err(e) => {
            return Err(e);
        },
    };
    let action = match as_text(fetch(v, spec, "action")) {
        Some(word) => map_action(word.as_str()),
        None => Action::Add,
    };
    let written = as_loose_int::<N>(fetch(v, spec, "sequence"));
    let own: bool = written.is_none();
    let sequence: i64 = match written {
        Some(n) => n,
        None => numbered.wrapping_add(1),
    };
    let is_snapshot = as_flag(fetch(v, spec, "is_snapshot"));
    Ok(
        Row::Delta(
            BookDelta {
                ts_ns,
                instrument: symbol,
                action,
                side,
                price,
                size,
                sequence,
                is_snapshot,
            },
            own,
        ),
    )
}

/// Collects the rows of all lines.
pub fn read_lines<N: Number>(lines: &Vec<Vec<u8>>, spec: &AdapterSpec, plan: Plan) -> (r: Result<
    Collector<N>,
    Error,
>)
    ensures
        match r {
            Ok(c) => lines_haul::<N>(byte_texts(lines@), *spec, plan) == Ok::<
                Haul<N>,
                (ErrorKind, Seq<char>),
            >(c@),
            Err(e) => lines_haul::<N>(byte_texts(lines@), *spec, plan) == Err::<
                Haul<N>,
                (ErrorKind, Seq<char>),
            >(e@),
        },
{
    let mut c: Collector<N> = Collector::new();
    let mut i: usize = 0;
    let ghost all = byte_texts(lines@);
    while i < lines.len()
        invariant
            i <= lines@.len(),
            all == byte_texts(lines@),
            lines_haul::<N>(all.take(i as int), *spec, plan) == Ok::<
                Haul<N>,
                (ErrorKind, Seq<char>),
            >(c@),
        decreases lines@.len() - i,
    {
        let ghost here = all.take(i + 1);
        proof {
            assert(here.drop_last() =~= all.take(i as int));
            assert(here.last() == lines@[i as int]@);
        }
        let line = match read_text(lines[i].as_slice()) {
            Some(line) => line,
            None => {
                proof {
                    lemma_failure_stays::<N>(all, i + 1, *spec, plan);
                }
                return Err(Error::new(ErrorKind::NotText, "stream did not contain valid UTF-8".to_owned()));
            },
        };
        if !line.as_str().is_empty() {
            let row = match parse_json(line.as_str()) {
                Err(e) => Err(
                    Error::caused(
                        ErrorKind::BadJson,
                        concat2("bad json line: ", line.as_str()).as_str(),
                        e.as_str(),
                    ),
                ),
                Ok(v) => read_line::<N>(&v, line.as_str(), spec, plan, c.numbered),
            };
            match row {
                Ok(row) => {
                    c.take(row);
                },
                Err(e) => {
                    proof {
                        lemma_failure_stays::<N>(all, i + 1, *spec, plan);
                    }
                    return Err(e);
                },
            }
        }
        i += 1;
    }
    assert(all.take(all.len() as int) =~= all);
    Ok(c)
}

/// What fails on some of the lines fails on all of them.
proof fn lemma_failure_stays<N: Number>(
    lines: Seq<Seq<u8>>,
    n: int,
    spec: AdapterSpec,
    plan: Plan,
)
    requires
        0 <= n <= lines.len(),
        lines_haul::<N>(lines.take(n), spec, plan) is Err,
    ensures
        lines_haul::<N>(lines, spec, plan) == lines_haul::<N>(lines.take(n), spec, plan),
    decreases lines.len(),
{
    if n == lines.len() {
        assert(lines.take(n) =~= lines);
    } else {
        let rest = lines.drop_last();
        assert(rest.take(n) =~= lines.take(n));
        lemma_failure_stays::<N>(rest, n, spec, plan);
    }
}

/// Reads a source under a venue.
pub fn load_ndjson<N: Number>(spec: &AdapterSpec, venue: Venue, data: &[u8]) -> (r: Result<
    Vec<MarketEvent<N>>,
    Error,
>)
    ensures
        delivered(ndjson_events::<N>(*spec, venue@, data@), r),
{
    let p = match plan(spec) {
        Ok(p) => p,
        Err(e) => {
            return Err(e);
        },
    };
    let lines = split_lines(data);
    match read_lines::<N>(&lines, spec, p) {
        Ok(c) => Ok(c.finish(&venue)),
        Err(e) => Err(e),
    }
}

impl GenericNdjsonAdapter {
    /// The generic adapter of newline-delimited JSON.
    pub fn new() -> (r: GenericNdjsonAdapter)
        ensures
            r == GenericNdjsonAdapter,
    {
        GenericNdjsonAdapter
    }
}

impl Default for GenericNdjsonAdapter {
    fn default() -> (r: GenericNdjsonAdapter)
        ensures
            r == GenericNdjsonAdapter,
    {
        GenericNdjsonAdapter::new()
    }
}

/// The settings that the adapter knows, and what each is for.
pub open spec fn ndjson_knobs() -> Seq<(Seq<char>, Seq<char>)> {
    seq![
        ("ts_ns"@, "source key for the timestamp in nanoseconds (default 'ts_ns')"@),
        ("instrument"@, "source key for the symbol (default 'instrument'); dotted paths ok"@),
        ("kind"@, "source key for delta|trade routing (default 'kind'; default value 'delta')"@),
        ("price"@, "source key for price (default 'price'); dotted paths ok"@),
        ("size"@, "source key for size (default 'size')"@),
        ("side"@, "source key for side BUY/SELL/YES/NO/bid/ask (default 'side')"@),
        ("action"@, "source key for ADD|UPDATE|DELETE (default 'action' → ADD)"@),
        (
            "sequence"@,
            "source key for the i64 sequence (default 'sequence'; auto-increments if absent)"@,
        ),
        ("is_snapshot"@, "source key for the snapshot flag (default 'is_snapshot')"@),
        (
            "aggressor_side"@,
            "trade-only: source key for the aggressor side (default 'aggressor_side')"@,
        ),
        ("trade_id"@, "trade-only: source key for the trade id (default 'trade_id')"@),
        ("price_scale"@, "price unit: dollars|cents|bps|prob (default 'dollars')"@),
        ("price_is_cents"@, "alias: 'true' == price_scale=cents (default 'false')"@),
        (
            "side_from_sign"@,
            "derive side from the SIGN of this signed column (no explicit side)"@,
        ),
    ]
}

impl DataAdapter for GenericNdjsonAdapter {
    open spec fn key(&self) -> Seq<char> {
        "generic_ndjson"@
    }

    open spec fn home(&self) -> VenueView {
        VenueView::Generic("GENERIC"@)
    }

    open spec fn about(&self) -> Seq<char> {
        "Any venue's tick data as newline-delimited JSON (one delta/trade per line; zero Rust)."@
    }

    open spec fn knobs(&self) -> Seq<(Seq<char>, Seq<char>)> {
        ndjson_knobs()
    }

    fn name(&self) -> (r: &str) {
        "generic_ndjson"
    }

    fn default_venue(&self) -> (r: Venue) {
        Venue::Generic("GENERIC".to_owned())
    }

    fn description(&self) -> (r: &str) {
        "Any venue's tick data as newline-delimited JSON (one delta/trade per line; zero Rust)."
    }

    fn mapping_keys(&self) -> (r: Vec<MappingKey>) {
        let v = vec![
            MappingKey { key: "ts_ns", note: "source key for the timestamp in nanoseconds (default 'ts_ns')" },
            MappingKey { key: "instrument", note: "source key for the symbol (default 'instrument'); dotted paths ok" },
            MappingKey { key: "kind", note: "source key for delta|trade routing (default 'kind'; default value 'delta')" },
            MappingKey { key: "price", note: "source key for price (default 'price'); dotted paths ok" },
            MappingKey { key: "size", note: "source key for size (default 'size')" },
            MappingKey { key: "side", note: "source key for side BUY/SELL/YES/NO/bid/ask (default 'side')" },
            MappingKey { key: "action", note: "source key for ADD|UPDATE|DELETE (default 'action' → ADD)" },
            MappingKey { key: "sequence", note: "source key for the i64 sequence (default 'sequence'; auto-increments if absent)" },
            MappingKey { key: "is_snapshot", note: "source key for the snapshot flag (default 'is_snapshot')" },
            MappingKey { key: "aggressor_side", note: "trade-only: source key for the aggressor side (default 'aggressor_side')" },
            MappingKey { key: "trade_id", note: "trade-only: source key for the trade id (default 'trade_id')" },
            MappingKey { key: "price_scale", note: "price unit: dollars|cents|bps|prob (default 'dollars')" },
            MappingKey { key: "price_is_cents", note: "alias: 'true' == price_scale=cents (default 'false')" },
            MappingKey { key: "side_from_sign", note: "derive side from the SIGN of this signed column (no explicit side)" },
        ];
        assert(crate::adapters::knob_texts(v@) =~= ndjson_knobs());
        v
    }
}

impl<N: Number> AdapterLoad<N> for GenericNdjsonAdapter {
    open spec fn reads(
        &self,
        spec: AdapterSpec,
        data: Seq<u8>,
        r: Result<Vec<MarketEvent<N>>, Error>,
    ) -> bool {
        delivered(
            ndjson_events::<N>(spec, spec.venue_or(VenueView::Generic("GENERIC"@)), data),
            r,
        )
    }

    fn load(&self, spec: &AdapterSpec, data: &[u8]) -> (r: Result<Vec<MarketEvent<N>>, Error>) {
        let venue = spec.resolved_venue(Venue::Generic("GENERIC".to_owned()));
        load_ndjson::<N>(spec, venue, data)
    }
}

// ---- captures ---------------------------------------------------------------------------------

/// A value that the reader of captures and this adapter take for the same event: both find the same
/// size in it, a delta has a sequence, and both know or both do not know the word for the side that
/// took.
pub open spec fn reads_alike<N: Number>(v: JsonView) -> bool {
    &&& amount::<N>(v, "size"@) == match loose_number_of::<N>(child(v, "size"@)) {
        Some(x) => x,
        None => N::integer(0),
    }
    &&& if word(v, "kind"@, Seq::empty()) == "trade"@ {
        match text_of(child(v, "aggressor_side"@)) {
            Some(w) => took_yes(w) == (w == "yes"@ || w == "YES"@ || w == "BUY"@),
            None => true,
        }
    } else {
        int_of(child(v, "sequence"@)) is Some
    }
}

/// Every value that some lines hold is taken for the same event by both.
pub open spec fn lines_read_alike<N: Number>(lines: Seq<Seq<u8>>) -> bool {
    forall|i: int|
        0 <= i < lines.len() ==> match line_text(#[trigger] lines[i]) {
            Some(line) => match json_value(line) {
                Ok(v) => reads_alike::<N>(v),
                Err(_) => true,
            },
            None => true,
        }
}

/// The row that an event makes, where it is wanted.
spec fn row_for<N>(e: EventView<N>, wanted: bool) -> RowView<N> {
    if !wanted {
        RowView::Skip
    } else {
        match e {
            EventView::Delta(d) => RowView::Delta(d, false),
            EventView::Trade(t) => RowView::Trade(t),
        }
    }
}

proof fn lemma_plain_names(v: JsonView, spec: AdapterSpec)
    requires
        spec.mapping@ == Map::<Seq<char>, String>::empty(),
    ensures
        field(v, spec, "instrument"@) == child(v, "instrument"@),
        field(v, spec, "ts_ns"@) == child(v, "ts_ns"@),
        field(v, spec, "price"@) == child(v, "price"@),
        field(v, spec, "size"@) == child(v, "size"@),
        field(v, spec, "kind"@) == child(v, "kind"@),
        field(v, spec, "side"@) == child(v, "side"@),
        field(v, spec, "action"@) == child(v, "action"@),
        field(v, spec, "sequence"@) == child(v, "sequence"@),
        field(v, spec, "is_snapshot"@) == child(v, "is_snapshot"@),
        field(v, spec, "aggressor_side"@) == child(v, "aggressor_side"@),
        field(v, spec, "trade_id"@) == child(v, "trade_id"@),
{
    reveal_strlit("instrument");
    reveal_strlit("ts_ns");
    reveal_strlit("price");
    reveal_strlit("size");
    reveal_strlit("kind");
    reveal_strlit("side");
    reveal_strlit("action");
    reveal_strlit("sequence");
    reveal_strlit("is_snapshot");
    reveal_strlit("aggressor_side");
    reveal_strlit("trade_id");
}

proof fn lemma_capital(s: Seq<char>)
    requires
        forall|i: int| 0 <= i < s.len() ==> 'A' <= #[trigger] s[i] <= 'Z',
    ensures
        uppercase(s) == s,
{
    assert(ascii_upper(s) =~= s);
}

proof fn lemma_words()
    ensures
        side_named("BUY"@) == Some(Side::Bid),
        side_named("SELL"@) == Some(Side::Ask),
        action_named("ADD"@) == Action::Add,
        action_named("UPDATE"@) == Action::Update,
        action_named("DELETE"@) == Action::Delete,
{
    reveal_strlit("BUY");
    reveal_strlit("SELL");
    reveal_strlit("BID");
    reveal_strlit("YES");
    reveal_strlit("B");
    reveal_strlit("ADD");
    reveal_strlit("UPDATE");
    reveal_strlit("DELETE");
    reveal_strlit("DEL");
    reveal_strlit("REMOVE");
    reveal_strlit("CHANGE");
    lemma_capital("BUY"@);
    lemma_capital("SELL"@);
    lemma_capital("ADD"@);
    lemma_capital("UPDATE"@);
    lemma_capital("DELETE"@);
    assert("SELL"@ != "BUY"@ && "SELL"@ != "BID"@ && "SELL"@ != "YES"@ && "SELL"@ != "B"@) by {
        assert("SELL"@.len() == 4 && "BUY"@.len() == 3 && "BID"@.len() == 3 && "YES"@.len() == 3
            && "B"@.len() == 1);
    }
    assert("ADD"@ != "DELETE"@ && "ADD"@ != "REMOVE"@ && "ADD"@ != "UPDATE"@ && "ADD"@
        != "CHANGE"@) by {
        assert("ADD"@.len() == 3 && "DELETE"@.len() == 6 && "REMOVE"@.len() == 6
            && "UPDATE"@.len() == 6 && "CHANGE"@.len() == 6);
    }
    assert("ADD"@[0] == 'A' && "DEL"@[0] == 'D');
    assert("UPDATE"@[0] == 'U' && "DELETE"@[0] == 'D' && "REMOVE"@[0] == 'R');
    assert("UPDATE"@.len() == 6 && "DEL"@.len() == 3);
}

proof fn lemma_line_reads_alike<N: Number>(
    v: JsonView,
    line: Seq<char>,
    spec: AdapterSpec,
    plan: Plan,
    numbered: i64,
)
    requires
        spec.mapping@ == Map::<Seq<char>, String>::empty(),
        plan.scale == PriceScale::Dollars,
        event_of::<N>(v) is Ok,
        reads_alike::<N>(v),
    ensures
        line_row::<N>(v, line, spec, plan, numbered) == Ok::<RowView<N>, (ErrorKind, Seq<char>)>(
            row_for(
                event_of::<N>(v)->Ok_0,
                taken(event_of::<N>(v)->Ok_0, opt_text(spec.instrument), plan.start, plan.end),
            ),
        ),
{
    lemma_plain_names(v, spec);
    lemma_words();
    reveal_strlit("delta");
    reveal_strlit("trade");
    assert("delta"@[0] == 'd' && "trade"@[0] == 't');
    reveal_strlit("yes");
    let e = event_of::<N>(v)->Ok_0;
    if word(v, "kind"@, Seq::empty()) == "trade"@ {
        assert(e is Trade);
        assert(number_of::<N>(child(v, "price"@)) == loose_number_of::<N>(child(v, "price"@)));
        assert(loose_int_of::<N>(child(v, "ts_ns"@)) == int_of(child(v, "ts_ns"@)));
    } else {
        assert(e is Delta);
        assert(loose_int_of::<N>(child(v, "sequence"@)) == int_of(child(v, "sequence"@)));
        assert(loose_int_of::<N>(child(v, "ts_ns"@)) == int_of(child(v, "ts_ns"@)));
        reveal_strlit("BUY");
        reveal_strlit("SELL");
        reveal_strlit("ADD");
        reveal_strlit("UPDATE");
        reveal_strlit("DELETE");
        assert(text_of(child(v, "side"@)) is Some);
        assert(text_of(child(v, "action"@)) is Some);
    }
}

proof fn lemma_lines_read_alike<N: Number>(
    lines: Seq<Seq<u8>>,
    spec: AdapterSpec,
    plan: Plan,
    events: Seq<EventView<N>>,
)
    requires
        spec.mapping@ == Map::<Seq<char>, String>::empty(),
        plan.scale == PriceScale::Dollars,
        lines_read_alike::<N>(lines),
        capture_events::<N>(lines, opt_text(spec.instrument), plan.start, plan.end) == Ok::<
            Seq<EventView<N>>,
            (ErrorKind, Seq<char>),
        >(events),
    ensures
        lines_haul::<N>(lines, spec, plan) == Ok::<Haul<N>, (ErrorKind, Seq<char>)>(
            Haul { deltas: deltas_among(events), trades: trades_among(events), numbered: 0 },
        ),
    decreases lines.len(),
{
    if lines.len() > 0 {
        let rest = lines.drop_last();
        assert(lines_read_alike::<N>(rest)) by {
            assert(forall|i: int| 0 <= i < rest.len() ==> rest[i] == lines[i]);
        }
        assert(lines[lines.len() - 1] == lines.last());
        let before = capture_events::<N>(
            rest,
            opt_text(spec.instrument),
            plan.start,
            plan.end,
        )->Ok_0;
        lemma_lines_read_alike(rest, spec, plan, before);
        let line = line_text(lines.last())->0;
        if line.len() > 0 {
            let v = json_value(line)->Ok_0;
            lemma_line_reads_alike::<N>(v, line, spec, plan, 0);
            let e = event_of::<N>(v)->Ok_0;
            assert(before.push(e).drop_last() =~= before);
        }
    }
}

/// The adapter reads what the reader of captures reads, with the venue in front of the instruments:
/// without settings, and where both take every value for the same event, its events are those of
/// the capture, the deltas before the trades. What is not wanted is left out by both.
pub proof fn law_captures_are_read<N: Number>(
    spec: AdapterSpec,
    venue: VenueView,
    data: Seq<u8>,
    plan: Plan,
    events: Seq<EventView<N>>,
)
    requires
        spec.mapping@ == Map::<Seq<char>, String>::empty(),
        plan_of(spec) == Ok::<Plan, (ErrorKind, Seq<char>)>(plan),
        lines_read_alike::<N>(byte_lines(data)),
        capture_of::<N>(data, opt_text(spec.instrument), plan.start, plan.end) == Ok::<
            Seq<EventView<N>>,
            (ErrorKind, Seq<char>),
        >(events),
    ensures
        ndjson_events::<N>(spec, venue, data) == Ok::<Seq<EventView<N>>, (ErrorKind, Seq<char>)>(
            tagged(all_events(deltas_among(events), trades_among(events)), venue),
        ),
{
    lemma_lines_read_alike(byte_lines(data), spec, plan, events);
}

/// At each instant, no delta stands behind a trade.
pub open spec fn deltas_first<N>(events: Seq<EventView<N>>) -> bool {
    forall|i: int, j: int|
        0 <= i < j < events.len() && (#[trigger] events[i]).ts() == (#[trigger] events[j]).ts()
            && events[i] is Trade ==> events[j] is Trade
}

spec fn told_deltas<N>(events: Seq<EventView<N>>) -> Seq<EventView<N>> {
    deltas_among(events).map_values(|d: DeltaView<N>| EventView::Delta(d))
}

spec fn told_trades<N>(events: Seq<EventView<N>>) -> Seq<EventView<N>> {
    trades_among(events).map_values(|t: TradeView<N>| EventView::Trade(t))
}

proof fn lemma_told_push<N>(events: Seq<EventView<N>>, e: EventView<N>)
    ensures
        told_deltas(events.push(e)) == if e is Delta {
            told_deltas(events).push(e)
        } else {
            told_deltas(events)
        },
        told_trades(events.push(e)) == if e is Trade {
            told_trades(events).push(e)
        } else {
            told_trades(events)
        },
{
    assert(events.push(e).drop_last() =~= events);
    match e {
        EventView::Delta(_) => {
            assert(told_deltas(events.push(e)) =~= told_deltas(events).push(e));
        },
        EventView::Trade(_) => {
            assert(told_trades(events.push(e)) =~= told_trades(events).push(e));
        },
    }
}

proof fn lemma_no_trade_told<N>(events: Seq<EventView<N>>, t: i64)
    requires
        forall|i: int|
            0 <= i < events.len() && (#[trigger] events[i]).ts() == t ==> !(events[i] is Trade),
    ensures
        said_at(told_trades(events), t) == Seq::<EventView<N>>::empty(),
    decreases events.len(),
{
    if events.len() == 0 {
        lemma_said_nothing(told_trades(events), t);
    } else {
        let rest = events.drop_last();
        let e = events.last();
        assert(forall|i: int| 0 <= i < rest.len() ==> rest[i] == events[i]);
        assert(events[events.len() - 1] == e);
        lemma_no_trade_told(rest, t);
        assert(rest.push(e) =~= events);
        lemma_told_push(rest, e);
        lemma_said_push(told_trades(rest), e, t);
    }
}

proof fn lemma_told_at<N>(events: Seq<EventView<N>>, t: i64)
    requires
        deltas_first(events),
    ensures
        said_at(events, t) == said_at(told_deltas(events), t) + said_at(told_trades(events), t),
    decreases events.len(),
{
    if events.len() == 0 {
        lemma_said_nothing(events, t);
        lemma_said_nothing(told_deltas(events), t);
        lemma_said_nothing(told_trades(events), t);
        assert(said_at(events, t) =~= said_at(told_deltas(events), t) + said_at(
            told_trades(events),
            t,
        ));
    } else {
        let rest = events.drop_last();
        let e = events.last();
        assert(forall|i: int| 0 <= i < rest.len() ==> rest[i] == events[i]);
        assert(events[events.len() - 1] == e);
        lemma_told_at(rest, t);
        assert(rest.push(e) =~= events);
        lemma_told_push(rest, e);
        lemma_said_push(rest, e, t);
        lemma_said_push(told_deltas(rest), e, t);
        lemma_said_push(told_trades(rest), e, t);
        if e.ts() == t && e is Delta {
            assert forall|i: int| 0 <= i < rest.len() && (#[trigger] rest[i]).ts() == t implies !(
            rest[i] is Trade) by {
                assert(events[i].ts() == events[events.len() - 1].ts());
            }
            lemma_no_trade_told(rest, t);
        }
        assert(said_at(events, t) =~= said_at(told_deltas(events), t) + said_at(
            told_trades(events),
            t,
        ));
    }
}

proof fn lemma_said_join<N>(a: Seq<EventView<N>>, b: Seq<EventView<N>>, t: i64)
    ensures
        said_at(a + b, t) == said_at(a, t) + said_at(b, t),
    decreases b.len(),
{
    if b.len() == 0 {
        lemma_said_nothing(b, t);
        assert(a + b =~= a);
        assert(said_at(a, t) + said_at(b, t) =~= said_at(a, t));
    } else {
        let rest = b.drop_last();
        lemma_said_join(a, rest, t);
        assert(a + b =~= (a + rest).push(b.last()));
        assert(rest.push(b.last()) =~= b);
        lemma_said_push(a + rest, b.last(), t);
        lemma_said_push(rest, b.last(), t);
        assert(said_at(a + b, t) =~= said_at(a, t) + said_at(b, t));
    }
}

proof fn lemma_tagged_at<N>(events: Seq<EventView<N>>, venue: VenueView, t: i64)
    ensures
        said_at(tagged(events, venue), t) == tagged(said_at(events, t), venue),
    decreases events.len(),
{
    if events.len() == 0 {
        lemma_said_nothing(events, t);
        lemma_said_nothing(tagged(events, venue), t);
        assert(tagged(said_at(events, t), venue) =~= Seq::<EventView<N>>::empty());
    } else {
        let rest = events.drop_last();
        let e = events.last();
        let named = e.with_instrument(retagged(e.inst(), venue));
        lemma_tagged_at(rest, venue, t);
        assert(rest.push(e) =~= events);
        assert(tagged(events, venue) =~= tagged(rest, venue).push(named));
        lemma_said_push(rest, e, t);
        lemma_said_push(tagged(rest, venue), named, t);
        assert(tagged(said_at(rest, t).push(e), venue) =~= tagged(
            said_at(rest, t),
            venue,
        ).push(named));
    }
}

/// The adapter gives back what the reader of captures gives back, in the same order and with only
/// the instruments changed, where besides no delta of a capture stands behind a trade of the same
/// instant. Where one does, the adapter puts it in front.
pub proof fn law_captures_are_read_in_order<N: Number>(
    spec: AdapterSpec,
    venue: VenueView,
    data: Seq<u8>,
    plan: Plan,
    events: Seq<EventView<N>>,
    capture: Seq<EventView<N>>,
    read: Seq<EventView<N>>,
)
    requires
        spec.mapping@ == Map::<Seq<char>, String>::empty(),
        plan_of(spec) == Ok::<Plan, (ErrorKind, Seq<char>)>(plan),
        lines_read_alike::<N>(byte_lines(data)),
        capture_of::<N>(data, opt_text(spec.instrument), plan.start, plan.end) == Ok::<
            Seq<EventView<N>>,
            (ErrorKind, Seq<char>),
        >(events),
        deltas_first(events),
        stable_order(events, capture),
        ndjson_events::<N>(spec, venue, data) matches Ok(due) ==> stable_order(due, read),
    ensures
        ndjson_events::<N>(spec, venue, data) is Ok,
        read == tagged(capture, venue),
{
    law_captures_are_read(spec, venue, data, plan, events);
    let all = all_events(deltas_among(events), trades_among(events));
    assert(all == told_deltas(events) + told_trades(events));
    let due = tagged(all, venue);
    let named = tagged(capture, venue);
    assert forall|t: i64| #[trigger] said_at(read, t) == said_at(named, t) by {
        assert(said_at(read, t) == said_at(due, t));
        assert(said_at(capture, t) == said_at(events, t));
        lemma_tagged_at(all, venue, t);
        lemma_tagged_at(capture, venue, t);
        lemma_told_at(events, t);
        lemma_said_join(told_deltas(events), told_trades(events), t);
    }
    assert(told_in_order(named)) by {
        assert forall|i: int, j: int| 0 <= i <= j < named.len() implies (#[trigger] named[i]).ts()
            <= (#[trigger] named[j]).ts() by {
            assert(capture[i].ts() <= capture[j].ts());
        }
    }
    law_order_is_unique(read, named);
}

/// What a line says. It is passed over where its symbol is not wanted or its time not in the range; it
/// is a trade where its kind says so, and else a delta. What it says stands under the names that the
/// source has for it.
pub proof fn law_lines_say_what_their_fields_say<N: Number>(
    v: JsonView,
    line: Seq<char>,
    spec: AdapterSpec,
    plan: Plan,
    numbered: i64,
    symbol: Seq<char>,
    ts: i64,
    price: N,
    size: N,
)
    requires
        text_of(field(v, spec, "instrument"@)) == Some(symbol),
        loose_int_of::<N>(field(v, spec, "ts_ns"@)) == Some(ts),
        loose_number_of::<N>(field(v, spec, "price"@)) == Some(price),
        loose_number_of::<N>(field(v, spec, "size"@)) == Some(size),
    ensures
        ({
            let row = line_row::<N>(v, line, spec, plan, numbered);
            let before = plan.start is Some && ts < plan.start->0;
            let after = plan.end is Some && ts >= plan.end->0;
            let skipped = !wanted(spec, symbol) || before || after;
            let is_trade = text_of(field(v, spec, "kind"@)) == Some("trade"@);
            let side = text_of(field(v, spec, "side"@));
            let sided = side is Some && side_named(side->0) is Some;
            &&& skipped ==> row is Ok && row->Ok_0 is Skip
            &&& !skipped && is_trade ==> {
                &&& row is Ok
                &&& row->Ok_0 matches RowView::Trade(t)
                &&& t.ts_ns == ts
                &&& t.instrument == symbol
                &&& t.price == plan.scale.cents_of(price)
                &&& t.size == size
                &&& text_of(field(v, spec, "aggressor_side"@)) is None ==> t.aggressor_yes
                &&& text_of(field(v, spec, "aggressor_side"@)) is Some ==> t.aggressor_yes
                    == took_yes(text_of(field(v, spec, "aggressor_side"@))->0)
            }
            &&& !skipped && !is_trade && sided ==> {
                &&& row is Ok
                &&& row->Ok_0 matches RowView::Delta(d, own)
                &&& d.ts_ns == ts
                &&& d.instrument == symbol
                &&& d.price == plan.scale.cents_of(price)
                &&& d.size == size
                &&& Some(d.side) == side_named(side->0)
                &&& text_of(field(v, spec, "action"@)) is None ==> d.action == Action::Add
                &&& text_of(field(v, spec, "action"@)) is Some ==> d.action == action_named(
                    text_of(field(v, spec, "action"@))->0,
                )
            }
        }),
{
}

} // verus!
