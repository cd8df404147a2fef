//! Any venue's data as comma-separated values with a header row, with names of columns that can
//! be chosen.
use crate::adapters::rows::{
    action_named, delivered, is_wanted, is_yes_taker, map_action, map_side, plan, plan_of,
    side_named, side_of_sign, signed_side, took_yes, wanted, Collector, Haul, Plan, Row, RowView,
};
use crate::adapters::{
    all_events, in_range, setting, source_key, source_name, tagged, within, AdapterLoad, AdapterSpec,
    DataAdapter, MappingKey, Venue, VenueView,
};
use crate::error::{because, Error, ErrorKind};
use crate::fixed::{law_whole_products_are_exact, lemma_cut_multiple, Fixed};
use crate::foreign::{csv_table, parse_csv, record_says, Table, TableView};
use crate::number::Number;
use crate::text::{
    ascii_lower, concat3, int_within, lowercase, parse_i64, same_text, texts, to_ascii_lower,
    to_lowercase, trim, trimmed,
};
use crate::types::{
    Action, BookDelta, DeltaView, EventView, MarketEvent, Side, TradeEvent, TradeView,
};
use vstd::prelude::*;

verus! {

/// The generic adapter of comma-separated values.
#[derive(Debug, Clone, Copy)]
pub struct GenericCsvAdapter;

/// The place of the first header with a name.
pub open spec fn header_place(headers: Seq<Seq<char>>, name: Seq<char>) -> Option<usize>
    decreases headers.len(),
{
    if headers.len() == 0 {
        None
    } else {
        match header_place(headers.drop_last(), name) {
            Some(i) => Some(i),
            None => if headers.last() == name {
                Some((headers.len() - 1) as usize)
            } else {
                None
            },
        }
    }
}

/// The place of the first header with a name.
pub fn find_header(headers: &Vec<String>, name: &str) -> (r: Option<usize>)
    ensures
        r == header_place(texts(headers@), name@),
{
    let mut i: usize = 0;
    let mut r: Option<usize> = None;
    let ghost all = texts(headers@);
    while i < headers.len()
        invariant
            i <= headers@.len(),
            all == texts(headers@),
            r == header_place(all.take(i as int), name@),
        decreases headers@.len() - i,
    {
        assert(all.take(i + 1).drop_last() =~= all.take(i as int));
        assert(all.take(i + 1).last() == headers@[i as int]@);
        if r.is_none() && same_text(headers[i].as_str(), name) {
            r = Some(i);
        }
        i += 1;
    }
    assert(all.take(all.len() as int) =~= all);
    r
}

/// The places of the columns that the adapter reads.
#[derive(Debug, Clone, Copy)]
pub struct Columns {
    pub instrument: usize,
    pub ts: usize,
    pub kind: Option<usize>,
    pub action: Option<usize>,
    pub side: Option<usize>,
    pub price: Option<usize>,
    pub size: Option<usize>,
    pub sequence: Option<usize>,
    pub snapshot: Option<usize>,
    pub aggressor: Option<usize>,
    pub trade_id: Option<usize>,
    pub sign: Option<usize>,
}

/// The place of the column that a source has for a field.
pub open spec fn place_of(headers: Seq<Seq<char>>, spec: AdapterSpec, name: Seq<char>) -> Option<usize> {
    header_place(headers, source_name(spec.mapping@, name))
}

/// Where the columns stand, or the first that is needed and missing.
pub open spec fn columns_of(headers: Seq<Seq<char>>, spec: AdapterSpec) -> Result<
    Columns,
    (ErrorKind, Seq<char>),
> {
    match place_of(headers, spec, "instrument"@) {
        None => Err(
            (
                ErrorKind::MissingColumn,
                "CSV missing instrument column '"@ + source_name(spec.mapping@, "instrument"@)
                    + "'"@,
            ),
        ),
        Some(instrument) => match place_of(headers, spec, "ts_ns"@) {
            None => Err(
                (
                    ErrorKind::MissingColumn,
                    "CSV missing ts column '"@ + source_name(spec.mapping@, "ts_ns"@) + "'"@,
                ),
            ),
            Some(ts) => {
                let all = Columns {
                    instrument,
                    ts,
                    kind: place_of(headers, spec, "kind"@),
                    action: place_of(headers, spec, "action"@),
                    side: place_of(headers, spec, "side"@),
                    price: place_of(headers, spec, "price"@),
                    size: place_of(headers, spec, "size"@),
                    sequence: place_of(headers, spec, "sequence"@),
                    snapshot: place_of(headers, spec, "is_snapshot"@),
                    aggressor: place_of(headers, spec, "aggressor_side"@),
                    trade_id: place_of(headers, spec, "trade_id"@),
                    sign: None,
                };
                match setting(spec.mapping@, "side_from_sign"@) {
                    None => Ok(all),
                    Some(name) => match header_place(headers, name) {
                        Some(i) => Ok(Columns { sign: Some(i), ..all }),
                        None => Err(
                            (
                                ErrorKind::MissingColumn,
                                "CSV missing side_from_sign column '"@ + name + "'"@,
                            ),
                        ),
                    },
                }
            },
        },
    }
}

/// How many nanoseconds a unit of time has.
pub open spec fn unit_ns(unit: Seq<char>) -> i64 {
    if unit == "s"@ || unit == "sec"@ || unit == "seconds"@ {
        1_000_000_000
    } else if unit == "ms"@ || unit == "milli"@ {
        1_000_000
    } else if unit == "us"@ || unit == "micro"@ {
        1_000
    } else {
        1
    }
}

/// A time in a unit, in nanoseconds.
pub open spec fn scaled_ts<N: Number>(raw: N, unit: Seq<char>) -> i64 {
    raw.product(N::integer(unit_ns(unit) as int)).nearest().truncated()
}

/// A time in a unit, in nanoseconds.
pub fn ts_to_ns<N: Number>(raw: N, unit: &str) -> (r: i64)
    ensures
        r == scaled_ts(raw, unit@),
{
    let mult: i64 = if same_text(unit, "s") || same_text(unit, "sec") || same_text(
        unit,
        "seconds",
    ) {
        1_000_000_000
    } else if same_text(unit, "ms") || same_text(unit, "milli") {
        1_000_000
    } else if same_text(unit, "us") || same_text(unit, "micro") {
        1_000
    } else {
        1
    };
    raw.times(N::from_int(mult)).round().to_int()
}

/// The cell of a record, without the white space at its ends, where the record has it.
pub open spec fn cell(record: Seq<Seq<char>>, i: Option<usize>) -> Option<Seq<char>> {
    match i {
        Some(i) => if i < record.len() {
            Some(trimmed(record[i as int]))
        } else {
            None
        },
        None => None,
    }
}

/// The number that a cell writes.
pub open spec fn cell_number<N: Number>(record: Seq<Seq<char>>, i: Option<usize>) -> Option<N> {
    match cell(record, i) {
        Some(s) => N::written(s),
        None => None,
    }
}

/// The number that a cell writes, or 0.
pub open spec fn cell_or_zero<N: Number>(record: Seq<Seq<char>>, i: Option<usize>) -> N {
    match cell_number::<N>(record, i) {
        Some(x) => x,
        None => N::integer(0),
    }
}

/// The unit in which a source writes times.
pub open spec fn unit_of(spec: AdapterSpec) -> Seq<char> {
    match setting(spec.mapping@, "ts_unit"@) {
        Some(u) => u,
        None => "ns"@,
    }
}

/// The side and the size of a delta: the side that is written; else both from the sign of the
/// signed column; else none.
pub open spec fn record_side<N: Number>(record: Seq<Seq<char>>, cols: Columns) -> Option<(Side, N)> {
    let written = match cell(record, cols.side) {
        Some(word) => side_named(word),
        None => None,
    };
    match written {
        Some(side) => Some((side, cell_or_zero::<N>(record, cols.size))),
        None => match cell_number::<N>(record, cols.sign) {
            Some(signed) => if signed.equals(N::integer(0)) {
                None
            } else {
                Some(signed_side(signed))
            },
            None => None,
        },
    }
}

/// What one record is.
pub open spec fn record_row<N: Number>(
    record: Seq<Seq<char>>,
    cols: Columns,
    spec: AdapterSpec,
    plan: Plan,
    numbered: i64,
) -> RowView<N> {
    match (cell(record, Some(cols.instrument)), cell_number::<N>(record, Some(cols.ts))) {
        (Some(symbol), Some(raw)) => {
            let ts = scaled_ts(raw, unit_of(spec));
            let price = plan.scale.cents_of(cell_or_zero::<N>(record, cols.price));
            if symbol.len() == 0 || !wanted(spec, symbol) || !within(ts, plan.start, plan.end) {
                RowView::Skip
            } else if cell(record, cols.kind) matches Some(k) && ascii_lower(k) == "trade"@ {
                RowView::Trade(
                    TradeView {
                        ts_ns: ts,
                        instrument: symbol,
                        aggressor_yes: match cell(record, cols.aggressor) {
                            Some(word) => took_yes(word),
                            None => true,
                        },
                        price,
                        size: cell_or_zero::<N>(record, cols.size),
                        trade_id: match cell(record, cols.trade_id) {
                            Some(id) => id,
                            None => Seq::empty(),
                        },
                    },
                )
            } else {
                match record_side::<N>(record, cols) {
                    None => RowView::Skip,
                    Some((side, size)) => {
                        let sequence = match cell(record, cols.sequence) {
                            Some(s) => int_within(s, i64::MIN as int, i64::MAX as int),
                            None => None,
                        };
                        RowView::Delta(
                            DeltaView {
                                ts_ns: ts,
                                instrument: symbol,
                                action: match cell(record, cols.action) {
                                    Some(word) => action_named(word),
                                    None => Action::Add,
                                },
                                side,
                                price,
                                size,
                                sequence: match sequence {
                                    Some(n) => n as i64,
                                    None => numbered.wrapping_add(1),
                                },
                                is_snapshot: match cell(record, cols.snapshot) {
                                    Some(s) => lowercase(s) == "1"@ || lowercase(s) == "true"@
                                        || lowercase(s) == "yes"@,
                                    None => false,
                                },
                            },
                            sequence is None,
                        )
                    },
                }
            }
        },
        _ => RowView::Skip,
    }
}

/// What the records come to. A record that could not be read is passed over.
pub open spec fn records_haul<N: Number>(
    records: Seq<Option<Seq<Seq<char>>>>,
    cols: Columns,
    spec: AdapterSpec,
    plan: Plan,
) -> Haul<N>
    decreases records.len(),
{
    if records.len() == 0 {
        Haul::empty()
    } else {
        let haul = records_haul::<N>(records.drop_last(), cols, spec, plan);
        match records.last() {
            None => haul,
            Some(record) => haul.with(
                record_row::<N>(record, cols, spec, plan, haul.numbered),
            ),
        }
    }
}

/// The events of a table under a venue, before they are put in order, or the column that it lacks.
pub open spec fn table_events<N: Number>(
    table: TableView,
    spec: AdapterSpec,
    plan: Plan,
    venue: VenueView,
) -> Result<Seq<EventView<N>>, (ErrorKind, Seq<char>)> {
    match columns_of(table.headers, spec) {
        Err(e) => Err(e),
        Ok(cols) => {
            let haul = records_haul::<N>(table.records, cols, spec, plan);
            Ok(tagged(all_events(haul.deltas, haul.trades), venue))
        },
    }
}

/// The events of a source under a venue, before they are put in order, or the failure to read it.
pub open spec fn csv_events<N: Number>(spec: AdapterSpec, venue: VenueView, data: Seq<u8>) -> Result<
    Seq<EventView<N>>,
    (ErrorKind, Seq<char>),
> {
    match plan_of(spec) {
        Err(e) => Err(e),
        Ok(plan) => match csv_table(data) {
            Err(e) => Err((ErrorKind::BadTable, because("reading CSV header"@, e))),
            Ok(table) => table_events::<N>(table, spec, plan, venue),
        },
    }
}

fn read_cell(record: &Vec<String>, i: Option<usize>) -> (r: Option<String>)
    ensures
        match r {
            Some(s) => cell(texts(record@), i) == Some(s@),
            None => cell(texts(record@), i) is None,
        },
{
    match i {
        Some(i) => if i < record.len() {
            Some(trim(record[i].as_str()))
        } else {
            None
        },
        None => None,
    }
}

fn read_number<N: Number>(record: &Vec<String>, i: Option<usize>) -> (r: Option<N>)
    ensures
        r == cell_number::<N>(texts(record@), i),
{
    match read_cell(record, i) {
        Some(s) => N::parse(s.as_str()),
        None => None,
    }
}

fn read_or_zero<N: Number>(record: &Vec<String>, i: Option<usize>) -> (r: N)
    ensures
        r == cell_or_zero::<N>(texts(record@), i),
{
    match read_number::<N>(record, i) {
        Some(x) => x,
        None => N::from_int(0),
    }
}

fn place(headers: &Vec<String>, spec: &AdapterSpec, name: &str) -> (r: Option<usize>)
    ensures
        r == place_of(texts(headers@), *spec, name@),
{
    let key = source_key(&spec.mapping, name);
    find_header(headers, key.as_str())
}

/// Finds the columns that the adapter reads.
pub fn find_columns(headers: &Vec<String>, spec: &AdapterSpec) -> (r: Result<Columns, Error>)
    ensures
        match r {
            Ok(c) => columns_of(texts(headers@), *spec) == Ok::<Columns, (ErrorKind, Seq<char>)>(c),
            Err(e) => columns_of(texts(headers@), *spec) == Err::<Columns, (ErrorKind, Seq<char>)>(e@),
        },
{
    let instrument: usize = match place(headers, spec, "instrument") {
        Some(i) => i,
        None => {
            let key = source_key(&spec.mapping, "instrument");
            return Err(
                Error::new(
                    ErrorKind::MissingColumn,
                    concat3("CSV missing instrument column '", key.as_str(), "'"),
                ),
            );
        },
    };
    let ts: usize = match place(headers, spec, "ts_ns") {
        Some(i) => i,
        None => {
            let key = source_key(&spec.mapping, "ts_ns");
            return Err(
                Error::new(
                    ErrorKind::MissingColumn,
                    concat3("CSV missing ts column '", key.as_str(), "'"),
                ),
            );
        },
    };
    let sign: Option<usize> = match spec.mapping.get("side_from_sign") {
        None => None,
        Some(name) => match find_header(headers, name.as_str()) {
            Some(i) => Some(i),
            None => {
                return Err(
                    Error::new(
                        ErrorKind::MissingColumn,
                        concat3("CSV missing side_from_sign column '", name.as_str(), "'"),
                    ),
                );
            },
        },
    };
    Ok(
        Columns {
            instrument,
            ts,
            kind: place(headers, spec, "kind"),
            action: place(headers, spec, "action"),
            side: place(headers, spec, "side"),
            price: place(headers, spec, "price"),
            size: place(headers, spec, "size"),
            sequence: place(headers, spec, "sequence"),
            snapshot: place(headers, spec, "is_snapshot"),
            aggressor: place(headers, spec, "aggressor_side"),
            trade_id: place(headers, spec, "trade_id"),
            sign,
        },
    )
}

/// The side and the size of a delta.
pub fn read_side<N: Number>(record: &Vec<String>, cols: Columns) -> (r: Option<(Side, N)>)
    ensures
        r == record_side::<N>(texts(record@), cols),
{
    let written = match read_cell(record, cols.side) {
        Some(word) => map_side(word.as_str()),
        None => None,
    };
    match written {
        Some(side) => Some((side, read_or_zero::<N>(record, cols.size))),
        None => match read_number::<N>(record, cols.sign) {
            Some(signed) => if signed.is_equal(N::from_int(0)) {
                None
            } else {
                Some(side_of_sign(signed))
            },
            None => None,
        },
    }
}

/// The row that one record stands for.
pub fn read_record<N: Number>(
    record: &Vec<String>,
    cols: Columns,
    spec: &AdapterSpec,
    plan: Plan,
    numbered: i64,
) -> (r: Row<N>)
    ensures
        r@ == record_row::<N>(texts(record@), cols, *spec, plan, numbered),
{
    let symbol = match read_cell(record, Some(cols.instrument)) {
        Some(s) => s,
        None => {
            return Row::Skip;
        },
    };
    if symbol.as_str().is_empty() || !is_wanted(spec, symbol.as_str()) {
        return Row::Skip;
    }
    let raw = match read_number::<N>(record, Some(cols.ts)) {
        Some(t) => t,
        None => {
            return Row::Skip;
        },
    };
    let ts_ns: i64 = match spec.mapping.get("ts_unit") {
        Some(u) => ts_to_ns(raw, u.as_str()),
        None => ts_to_ns(raw, "ns"),
    };
    if !in_range(ts_ns, plan.start, plan.end) {
        return Row::Skip;
    }
    let price = plan.scale.to_cents(read_or_zero::<N>(record, cols.price));
    let is_trade: bool = match read_cell(record, cols.kind) {
        Some(k) => {
            let low = to_ascii_lower(k.as_str());
            same_text(low.as_str(), "trade")
        },
        None => false,
    };
    if is_trade {
        let aggressor_yes = match read_cell(record, cols.aggressor) {
            Some(word) => is_yes_taker(word.as_str()),
            None => true,
        };
        let trade_id = match read_cell(record, cols.trade_id) {
            Some(id) => id,
            None => String::new(),
        };
        let size = read_or_zero::<N>(record, cols.size);
        return Row::Trade(
            TradeEvent { ts_ns, instrument: symbol, aggressor_yes, price, size, trade_id },
        );
    }
    let (side, size) = match read_side::<N>(record, cols) {
        Some(x) => x,
        None => {
            return Row::Skip;
        },
    };
    let action = match read_cell(record, cols.action) {
        Some(word) => map_action(word.as_str()),
        None => Action::Add,
    };
    let written = match read_cell(record, cols.sequence) {
        Some(s) => parse_i64(s.as_str()),
        None => None,
    };
    let own: bool = written.is_none();
    let sequence: i64 = match written {
        Some(n) => n,
        None => numbered.wrapping_add(1),
    };
    let is_snapshot = match read_cell(record, cols.snapshot) {
        Some(s) => {
            let low = to_lowercase(s.as_str());
            same_text(low.as_str(), "1") || same_text(low.as_str(), "true") || same_text(
                low.as_str(),
                "yes",
            )
        },
        None => false,
    };
    Row::Delta(
        BookDelta {
            ts_ns,
            instrument: symbol,
            action,
            side,
            price,
            size,
            sequence,
            is_snapshot,
        },
        own,
    )
}

/// Makes events of a table, under a venue.
pub fn read_table<N: Number>(table: &Table, spec: &AdapterSpec, plan: Plan, venue: &Venue) -> (r:
    Result<Vec<MarketEvent<N>>, Error>)
    ensures
        delivered(table_events::<N>(table@, *spec, plan, venue@), r),
{
    let cols = match find_columns(&table.headers, spec) {
        Ok(c) => c,
        Err(e) => {
            return Err(e);
        },
    };
    let mut c: Collector<N> = Collector::new();
    let mut i: usize = 0;
    let ghost all = table@.records;
    while i < table.records.len()
        invariant
            i <= all.len(),
            all == table@.records,
            all.len() == table.records@.len(),
            c@ == records_haul::<N>(all.take(i as int), cols, *spec, plan),
        decreases all.len() - i,
    {
        proof {
            assert(all.take(i + 1).drop_last() =~= all.take(i as int));
            assert(all.take(i + 1).last() == record_says(table.records@[i as int]));
        }
        match &table.records[i] {
            Some(record) => {
                let row = read_record::<N>(record, cols, spec, plan, c.numbered);
                c.take(row);
            },
            None => {},
        }
        i += 1;
    }
    assert(all.take(all.len() as int) =~= all);
    Ok(c.finish(venue))
}

/// Reads a source under a venue.
pub fn load_csv<N: Number>(spec: &AdapterSpec, venue: Venue, data: &[u8]) -> (r: Result<
    Vec<MarketEvent<N>>,
    Error,
>)
    ensures
        delivered(csv_events::<N>(*spec, venue@, data@), r),
{
    let p = match plan(spec) {
        Ok(p) => p,
        Err(e) => {
            return Err(e);
        },
    };
    match parse_csv(data) {
        Ok(table) => read_table::<N>(&table, spec, p, &venue),
        Err(e) => Err(Error::caused(ErrorKind::BadTable, "reading CSV header", e.as_str())),
    }
}

impl GenericCsvAdapter {
    /// The generic adapter of comma-separated values.
    pub fn new() -> (r: GenericCsvAdapter)
        ensures
            r == GenericCsvAdapter,
    {
        GenericCsvAdapter
    }
}

impl Default for GenericCsvAdapter {
    fn default() -> (r: GenericCsvAdapter)
        ensures
            r == GenericCsvAdapter,
    {
        GenericCsvAdapter::new()
    }
}

/// The settings that the adapter knows, and what each is for.
pub open spec fn csv_knobs() -> Seq<(Seq<char>, Seq<char>)> {
    seq![
        ("ts_ns"@, "header for the timestamp column (default 'ts_ns')"@),
        ("instrument"@, "header for the symbol column (default 'instrument')"@),
        ("kind"@, "header for delta|trade routing (default 'kind'; default value 'delta')"@),
        ("price"@, "header for the price column (default 'price')"@),
        ("size"@, "header for the size column (default 'size')"@),
        ("side"@, "header for side BUY/SELL/YES/NO/bid/ask (default 'side')"@),
        ("action"@, "header for ADD|UPDATE|DELETE (default 'action' → ADD)"@),
        (
            "sequence"@,
            "header for the i64 sequence (default 'sequence'; auto-increments if absent)"@,
        ),
        ("is_snapshot"@, "header for the snapshot flag (default 'is_snapshot')"@),
        (
            "aggressor_side"@,
            "trade-only: header for the aggressor side (default 'aggressor_side')"@,
        ),
        ("trade_id"@, "trade-only: header for the trade id (default 'trade_id')"@),
        ("ts_unit"@, "timestamp unit: s|ms|us|ns (default 'ns')"@),
        ("price_scale"@, "price unit: dollars|cents|bps|prob (default 'dollars')"@),
        ("price_is_cents"@, "alias: 'true' == price_scale=cents (default 'false')"@),
        (
            "side_from_sign"@,
            "derive side from the SIGN of this signed column (no explicit side)"@,
        ),
    ]
}

impl DataAdapter for GenericCsvAdapter {
    open spec fn key(&self) -> Seq<char> {
        "generic_csv"@
    }

    open spec fn home(&self) -> VenueView {
        VenueView::Generic("GENERIC"@)
    }

    open spec fn about(&self) -> Seq<char> {
        "Any venue's tick data as a CSV with a header row (delta/trade per row; zero Rust)."@
    }

    open spec fn knobs(&self) -> Seq<(Seq<char>, Seq<char>)> {
        csv_knobs()
    }

    fn name(&self) -> (r: &str) {
        "generic_csv"
    }

    fn default_venue(&self) -> (r: Venue) {
        Venue::Generic("GENERIC".to_owned())
    }

    fn description(&self) -> (r: &str) {
        "Any venue's tick data as a CSV with a header row (delta/trade per row; zero Rust)."
    }

    fn mapping_keys(&self) -> (r: Vec<MappingKey>) {
        let v = vec![
            MappingKey { key: "ts_ns", note: "header for the timestamp column (default 'ts_ns')" },
            MappingKey { key: "instrument", note: "header for the symbol column (default 'instrument')" },
            MappingKey { key: "kind", note: "header for delta|trade routing (default 'kind'; default value 'delta')" },
            MappingKey { key: "price", note: "header for the price column (default 'price')" },
            MappingKey { key: "size", note: "header for the size column (default 'size')" },
            MappingKey { key: "side", note: "header for side BUY/SELL/YES/NO/bid/ask (default 'side')" },
            MappingKey { key: "action", note: "header for ADD|UPDATE|DELETE (default 'action' → ADD)" },
            MappingKey { key: "sequence", note: "header for the i64 sequence (default 'sequence'; auto-increments if absent)" },
            MappingKey { key: "is_snapshot", note: "header for the snapshot flag (default 'is_snapshot')" },
            MappingKey { key: "aggressor_side", note: "trade-only: header for the aggressor side (default 'aggressor_side')" },
            MappingKey { key: "trade_id", note: "trade-only: header for the trade id (default 'trade_id')" },
            MappingKey { key: "ts_unit", note: "timestamp unit: s|ms|us|ns (default 'ns')" },
            MappingKey { key: "price_scale", note: "price unit: dollars|cents|bps|prob (default 'dollars')" },
            MappingKey { key: "price_is_cents", note: "alias: 'true' == price_scale=cents (default 'false')" },
            MappingKey { key: "side_from_sign", note: "derive side from the SIGN of this signed column (no explicit side)" },
        ];
        assert(crate::adapters::knob_texts(v@) =~= csv_knobs());
        v
    }
}

impl<N: Number> AdapterLoad<N> for GenericCsvAdapter {
    open spec fn reads(
        &self,
        spec: AdapterSpec,
        data: Seq<u8>,
        r: Result<Vec<MarketEvent<N>>, Error>,
    ) -> bool {
        delivered(csv_events::<N>(spec, spec.venue_or(VenueView::Generic("GENERIC"@)), data), r)
    }

    fn load(&self, spec: &AdapterSpec, data: &[u8]) -> (r: Result<Vec<MarketEvent<N>>, Error>) {
        let venue = spec.resolved_venue(Venue::Generic("GENERIC".to_owned()));
        load_csv::<N>(spec, venue, data)
    }
}

/// A whole number of a unit of time is as many nanoseconds as the unit has: a second has a thousand
/// million, a millisecond a million, a microsecond a thousand, and any other unit is a nanosecond.
pub proof fn law_units_are_nanoseconds(raw: Fixed, k: int, unit: Seq<char>)
    requires
        raw.units == k * 1_000_000,
        -9_000 <= k <= 9_000,
    ensures
        ({
            let ns = scaled_ts(raw, unit);
            let is_s = unit == seq!['s'] || unit == seq!['s', 'e', 'c'] || unit
                == seq!['s', 'e', 'c', 'o', 'n', 'd', 's'];
            let is_ms = unit == seq!['m', 's'] || unit == seq!['m', 'i', 'l', 'l', 'i'];
            let is_us = unit == seq!['u', 's'] || unit == seq!['m', 'i', 'c', 'r', 'o'];
            &&& is_s ==> ns == k * 1_000_000_000
            &&& is_ms ==> ns == k * 1_000_000
            &&& is_us ==> ns == k * 1_000
            &&& !is_s && !is_ms && !is_us ==> ns == k
        }),
{
    reveal_strlit("s");
    reveal_strlit("sec");
    reveal_strlit("seconds");
    reveal_strlit("ms");
    reveal_strlit("milli");
    reveal_strlit("us");
    reveal_strlit("micro");
    assert("s"@ =~= seq!['s']);
    assert("sec"@ =~= seq!['s', 'e', 'c']);
    assert("seconds"@ =~= seq!['s', 'e', 'c', 'o', 'n', 'd', 's']);
    assert("ms"@ =~= seq!['m', 's']);
    assert("milli"@ =~= seq!['m', 'i', 'l', 'l', 'i']);
    assert("us"@ =~= seq!['u', 's']);
    assert("micro"@ =~= seq!['m', 'i', 'c', 'r', 'o']);
    assert("s"@.len() == 1 && "ms"@[0] == 'm' && "us"@[0] == 'u');
    assert("sec"@.len() == 3 && "seconds"@.len() == 7);
    assert("milli"@[2] == 'l' && "micro"@[2] == 'c');
    assert(seq!['u', 's'][0] == 'u' && seq!['m', 's'][0] == 'm');
    assert(seq!['m', 'i', 'c', 'r', 'o'][2] == 'c' && seq!['m', 'i', 'l', 'l', 'i'][2] == 'l');
    let n = unit_ns(unit) as int;
    let each = Fixed::integer(n);
    assert(each.units == n * 1_000_000);
    let t = k * n;
    assert(k * (n * 1_000_000) == t * 1_000_000) by (nonlinear_arith)
        requires
            t == k * n,
    ;
    assert(-9_000_000_000_000 <= t <= 9_000_000_000_000) by (nonlinear_arith)
        requires
            t == k * n,
            -9_000 <= k <= 9_000,
            1 <= n <= 1_000_000_000,
    ;
    law_whole_products_are_exact(raw, each, k);
    let x = raw.product(each);
    assert(x.units == t * 1_000_000);
    assert(x.nearest() == x);
    lemma_cut_multiple(t, 1_000_000);
}

/// What a record says. It is passed over without a symbol that is wanted or without a time in the
/// range; it is a trade where its kind says so, and else a delta, where its side is known. What it
/// says stands in the columns of its name.
pub proof fn law_records_say_what_their_cells_say<N: Number>(
    record: Seq<Seq<char>>,
    cols: Columns,
    spec: AdapterSpec,
    plan: Plan,
    numbered: i64,
    raw: N,
)
    requires
        cols.instrument < record.len(),
        cols.ts < record.len(),
        N::written(trimmed(record[cols.ts as int])) == Some(raw),
    ensures
        ({
            let row = record_row::<N>(record, cols, spec, plan, numbered);
            let symbol = trimmed(record[cols.instrument as int]);
            let ts = scaled_ts(raw, unit_of(spec));
            let before = plan.start matches Some(s) && ts < s;
            let after = plan.end matches Some(e) && ts >= e;
            &&& symbol.len() == 0 || !wanted(spec, symbol) || before || after ==> row is Skip
            &&& row matches RowView::Trade(t) ==> {
                &&& t.ts_ns == ts
                &&& t.instrument == symbol
                &&& cell(record, cols.kind) is Some
                &&& ascii_lower(cell(record, cols.kind)->0) == "trade"@
                &&& cell_number::<N>(record, cols.price) is Some ==> t.price == plan.scale.cents_of(
                    cell_number::<N>(record, cols.price)->0,
                )
                &&& cell_number::<N>(record, cols.size) is Some ==> t.size == cell_number::<N>(
                    record,
                    cols.size,
                )->0
                &&& cell(record, cols.aggressor) is Some ==> t.aggressor_yes == took_yes(
                    cell(record, cols.aggressor)->0,
                )
                &&& cell(record, cols.aggressor) is None ==> t.aggressor_yes
                &&& cell(record, cols.trade_id) is Some ==> t.trade_id == cell(
                    record,
                    cols.trade_id,
                )->0
            }
            &&& row matches RowView::Delta(d, own) ==> {
                &&& d.ts_ns == ts
                &&& d.instrument == symbol
                &&& cell(record, cols.kind) is Some ==> ascii_lower(cell(record, cols.kind)->0)
                    != "trade"@
                &&& cell_number::<N>(record, cols.price) is Some ==> d.price == plan.scale.cents_of(
                    cell_number::<N>(record, cols.price)->0,
                )
                &&& cell(record, cols.side) is Some && side_named(cell(record, cols.side)->0) is Some
                    ==> d.side == side_named(cell(record, cols.side)->0)->0 && (cell_number::<N>(
                    record,
                    cols.size,
                ) is Some ==> d.size == cell_number::<N>(record, cols.size)->0)
                &&& cell(record, cols.action) is Some ==> d.action == action_named(
                    cell(record, cols.action)->0,
                )
                &&& cell(record, cols.action) is None ==> d.action == Action::Add
                &&& own ==> d.sequence == numbered.wrapping_add(1)
            }
        }),
{
}

/// A cell is what stands in its column, without the white space at its ends; a record that is too short
/// has none.
pub proof fn law_cells_stand_in_their_columns<N: Number>(record: Seq<Seq<char>>, i: usize)
    ensures
        i < record.len() ==> cell(record, Some(i)) == Some(trimmed(record[i as int])),
        i < record.len() ==> cell_number::<N>(record, Some(i)) == N::written(
            trimmed(record[i as int]),
        ),
        i >= record.len() ==> cell(record, Some(i)) is None && cell_number::<N>(record, Some(i)) is None,
        cell(record, None) is None,
{
}

} // verus!
