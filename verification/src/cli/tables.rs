//! What the commands that look at data print, line by line.
use crate::cli::quality::{data_quality_warnings, name_some, some_names, warnings_of};
use crate::cli::show::{
    byte_len, bytes_in, describe_event, event_text, fmt_count, fmt_span, int_text, left, pad_left,
    pad_right, right, span_text,
};
use crate::data::clickhouse::ChInstrumentRow;
use crate::data::summary::{names, DataSummary, InstrumentSummary};
use crate::number::Number;
use crate::strmap::{ascending, StrMap};
use crate::text::{
    concat2, concat3, decimal, lemma_texts_push, split_once, split_once_at, texts, u64_text,
};
use crate::types::MarketEvent;
use vstd::prelude::*;

verus! {

pub(crate) fn say(out: &mut Vec<String>, line: String)
    ensures
        texts(final(out)@) == texts(old(out)@).push(line@),
{
    proof {
        lemma_texts_push(out@, line);
    }
    out.push(line);
}

/// How wide a column of names is: as many places as the longest name takes bytes, and some at
/// least.
pub open spec fn name_width(list: Seq<Seq<char>>, least: nat) -> nat
    decreases list.len(),
{
    if list.len() == 0 {
        least
    } else {
        let w = name_width(list.drop_last(), least);
        let n = byte_len(list.last());
        if n > usize::MAX {
            usize::MAX as nat
        } else if n > w {
            n
        } else {
            w
        }
    }
}

pub(crate) fn wider(w: usize, name: &str) -> (r: usize)
    ensures
        r == if byte_len(name@) > usize::MAX {
            usize::MAX as nat
        } else if byte_len(name@) > w {
            byte_len(name@)
        } else {
            w as nat
        },
{
    let n: usize = bytes_in(name, usize::MAX);
    if n > w {
        n
    } else {
        w
    }
}

// ---- instruments ----------------------------------------------------------------------------

/// The head of the table of instruments.
pub open spec fn instrument_head(w: nat) -> Seq<char> {
    "  "@ + left("instrument"@, w) + "  "@ + right("events"@, 10) + "  "@ + right("snapshots"@, 9)
        + "  "@ + right("deltas"@, 8) + "  "@ + right("trades"@, 8) + "  time span"@
}

/// A line of the table of instruments.
pub open spec fn instrument_line(i: InstrumentSummary, w: nat) -> Seq<char> {
    "  "@ + left(i.instrument@, w) + "  "@ + right(decimal(i.events as nat), 10) + "  "@ + right(
        decimal(i.snapshots as nat),
        9,
    ) + "  "@ + right(decimal(i.deltas as nat), 8) + "  "@ + right(decimal(i.trades as nat), 8)
        + "  "@ + span_text(i.first_ns, i.last_ns)
}

/// The table of instruments.
pub open spec fn instrument_table(list: Seq<InstrumentSummary>) -> Seq<Seq<char>> {
    let w = name_width(names(list), 10);
    seq![instrument_head(w)] + list.map_values(|i: InstrumentSummary| instrument_line(i, w))
}

fn show_head(w: usize) -> (r: String)
    ensures
        r@ == instrument_head(w as nat),
{
    let mut s = concat2("  ", pad_right("instrument", w).as_str());
    s.append("  ");
    s.append(pad_left("events", 10).as_str());
    s.append("  ");
    s.append(pad_left("snapshots", 9).as_str());
    s.append("  ");
    s.append(pad_left("deltas", 8).as_str());
    s.append("  ");
    s.append(pad_left("trades", 8).as_str());
    s.append("  time span");
    s
}

fn show_instrument(i: &InstrumentSummary, w: usize) -> (r: String)
    ensures
        r@ == instrument_line(*i, w as nat),
{
    let mut s = concat2("  ", pad_right(i.instrument.as_str(), w).as_str());
    s.append("  ");
    s.append(pad_left(u64_text(i.events).as_str(), 10).as_str());
    s.append("  ");
    s.append(pad_left(u64_text(i.snapshots).as_str(), 9).as_str());
    s.append("  ");
    s.append(pad_left(u64_text(i.deltas).as_str(), 8).as_str());
    s.append("  ");
    s.append(pad_left(u64_text(i.trades).as_str(), 8).as_str());
    s.append("  ");
    s.append(fmt_span(i.first_ns, i.last_ns).as_str());
    s
}

/// Adds the table of instruments to some lines: a head, and a line for each.
pub fn print_instrument_table(out: &mut Vec<String>, list: &Vec<InstrumentSummary>)
    ensures
        texts(final(out)@) == texts(old(out)@) + instrument_table(list@),
{
    let ghost all = names(list@);
    let n: usize = list.len();
    let mut w: usize = 10;
    let mut i: usize = 0;
    while i < n
        invariant
            i <= n,
            n == list@.len(),
            all == names(list@),
            w == name_width(all.take(i as int), 10),
        decreases n - i,
    {
        proof {
            assert(all.take(i + 1).drop_last() =~= all.take(i as int));
            assert(all.take(i + 1).last() == list@[i as int].instrument@);
        }
        w = wider(w, list[i].instrument.as_str());
        i += 1;
    }
    proof {
        assert(all.take(n as int) =~= all);
    }
    let ghost due = list@.map_values(|i: InstrumentSummary| instrument_line(i, w as nat));
    let ghost start = texts(out@);
    say(out, show_head(w));
    let ghost head = start.push(instrument_head(w as nat));
    let mut i: usize = 0;
    while i < n
        invariant
            i <= n,
            n == list@.len(),
            due == list@.map_values(|i: InstrumentSummary| instrument_line(i, w as nat)),
            texts(out@) =~= head + due.take(i as int),
        decreases n - i,
    {
        say(out, show_instrument(&list[i], w));
        proof {
            assert(due.take(i + 1) =~= due.take(i as int).push(due[i as int]));
        }
        i += 1;
    }
    proof {
        assert(due.take(n as int) =~= due);
        assert(texts(out@) =~= start + instrument_table(list@));
    }
}

/// What is told of a source of data.
pub open spec fn data_lines(label: Seq<char>, sum: DataSummary) -> Seq<Seq<char>> {
    let head = Seq::<Seq<char>>::empty().push("Data source: "@ + label).push(
        "  total events : "@ + decimal(sum.total_events as nat),
    ).push("  snapshots    : "@ + decimal(sum.total_snapshots as nat)).push(
        "  deltas       : "@ + decimal(sum.total_deltas as nat),
    ).push("  trades       : "@ + decimal(sum.total_trades as nat)).push(
        "  instruments  : "@ + decimal(sum.instruments@.len()),
    ).push("  time span    : "@ + span_text(sum.first_ns, sum.last_ns));
    if sum.instruments@.len() > 0 {
        head.push(""@).push("Per instrument:"@) + instrument_table(sum.instruments@)
    } else {
        head
    }
}

/// Tells of a source of data: how much there is of what, and for each instrument.
pub fn describe_data(label: &str, sum: &DataSummary) -> (r: Vec<String>)
    ensures
        texts(r@) == data_lines(label@, *sum),
{
    let mut out: Vec<String> = Vec::new();
    proof {
        assert(texts(out@) =~= Seq::<Seq<char>>::empty());
    }
    say(&mut out, concat2("Data source: ", label));
    say(&mut out, concat2("  total events : ", u64_text(sum.total_events).as_str()));
    say(&mut out, concat2("  snapshots    : ", u64_text(sum.total_snapshots).as_str()));
    say(&mut out, concat2("  deltas       : ", u64_text(sum.total_deltas).as_str()));
    say(&mut out, concat2("  trades       : ", u64_text(sum.total_trades).as_str()));
    say(&mut out, concat2("  instruments  : ", u64_text(sum.instruments.len() as u64).as_str()));
    say(&mut out, concat2("  time span    : ", fmt_span(sum.first_ns, sum.last_ns).as_str()));
    if sum.instruments.len() > 0 {
        say(&mut out, "".to_owned());
        say(&mut out, "Per instrument:".to_owned());
        print_instrument_table(&mut out, &sum.instruments);
    }
    out
}

/// What the list of instruments says.
pub open spec fn listing_lines(label: Seq<char>, list: Seq<InstrumentSummary>) -> Seq<Seq<char>> {
    let head = Seq::<Seq<char>>::empty().push(
        "Instruments in "@ + label + " ("@ + decimal(list.len()) + "):"@,
    ).push(""@);
    if list.len() == 0 {
        head.push("  (none — check your --instrument filter or date range)"@)
    } else {
        head + instrument_table(list)
    }
}

/// Lists the instruments of a source of data.
pub fn list_instruments(label: &str, sum: &DataSummary) -> (r: Vec<String>)
    ensures
        texts(r@) == listing_lines(label@, sum.instruments@),
{
    let mut out: Vec<String> = Vec::new();
    proof {
        assert(texts(out@) =~= Seq::<Seq<char>>::empty());
    }
    let mut s = concat3("Instruments in ", label, " (");
    s.append(u64_text(sum.instruments.len() as u64).as_str());
    s.append("):");
    say(&mut out, s);
    say(&mut out, "".to_owned());
    if sum.instruments.len() == 0 {
        say(&mut out, "  (none — check your --instrument filter or date range)".to_owned());
    } else {
        print_instrument_table(&mut out, &sum.instruments);
    }
    out
}

// ---- instruments of a database --------------------------------------------------------------

/// The names of the instruments of a database.
pub open spec fn row_names(rows: Seq<ChInstrumentRow>) -> Seq<Seq<char>> {
    rows.map_values(|r: ChInstrumentRow| r.instrument@)
}

/// A line for an instrument of a database.
pub open spec fn row_line(r: ChInstrumentRow, w: nat) -> Seq<char> {
    "  "@ + left(r.instrument@, w) + "  "@ + right(decimal(r.rows as nat), 12) + "  "@ + span_text(
        r.first_ns,
        r.last_ns,
    )
}

/// A line for each instrument of a database.
pub open spec fn row_lines(rows: Seq<ChInstrumentRow>) -> Seq<Seq<char>> {
    rows.map_values(|r: ChInstrumentRow| row_line(r, name_width(row_names(rows), 10)))
}

fn rows_width(rows: &Vec<ChInstrumentRow>) -> (w: usize)
    ensures
        w == name_width(row_names(rows@), 10),
{
    let ghost all = row_names(rows@);
    let n: usize = rows.len();
    let mut w: usize = 10;
    let mut i: usize = 0;
    while i < n
        invariant
            i <= n,
            n == rows@.len(),
            all == row_names(rows@),
            w == name_width(all.take(i as int), 10),
        decreases n - i,
    {
        proof {
            assert(all.take(i + 1).drop_last() =~= all.take(i as int));
            assert(all.take(i + 1).last() == rows@[i as int].instrument@);
        }
        w = wider(w, rows[i].instrument.as_str());
        i += 1;
    }
    proof {
        assert(all.take(n as int) =~= all);
    }
    w
}

fn say_rows(out: &mut Vec<String>, rows: &Vec<ChInstrumentRow>, w: usize)
    requires
        w == name_width(row_names(rows@), 10),
    ensures
        texts(final(out)@) == texts(old(out)@) + row_lines(rows@),
{
    let ghost start = texts(out@);
    let ghost due = row_lines(rows@);
    let n: usize = rows.len();
    let mut i: usize = 0;
    while i < n
        invariant
            i <= n,
            n == rows@.len(),
            w == name_width(row_names(rows@), 10),
            due == row_lines(rows@),
            texts(out@) =~= start + due.take(i as int),
        decreases n - i,
    {
        let mut s = concat2("  ", pad_right(rows[i].instrument.as_str(), w).as_str());
        s.append("  ");
        s.append(pad_left(u64_text(rows[i].rows).as_str(), 12).as_str());
        s.append("  ");
        s.append(fmt_span(rows[i].first_ns, rows[i].last_ns).as_str());
        say(out, s);
        proof {
            assert(due.take(i + 1) =~= due.take(i as int).push(due[i as int]));
        }
        i += 1;
    }
    proof {
        assert(due.take(n as int) =~= due);
    }
}

/// What the list of the instruments of a database says.
pub open spec fn rows_listing(url: Seq<char>, rows: Seq<ChInstrumentRow>) -> Seq<Seq<char>> {
    Seq::<Seq<char>>::empty().push(
        "Instruments in clickhouse "@ + url + " ("@ + decimal(rows.len()) + "):"@,
    ).push(""@).push(
        "  "@ + left("instrument"@, name_width(row_names(rows), 10)) + "  "@ + right("rows"@, 12)
            + "  time span"@,
    ) + row_lines(rows)
}

/// Lists the instruments of a database.
pub fn list_instruments_clickhouse(url: &str, rows: &Vec<ChInstrumentRow>) -> (r: Vec<String>)
    ensures
        texts(r@) == rows_listing(url@, rows@),
{
    let mut out: Vec<String> = Vec::new();
    proof {
        assert(texts(out@) =~= Seq::<Seq<char>>::empty());
    }
    let mut s = concat3("Instruments in clickhouse ", url, " (");
    s.append(u64_text(rows.len() as u64).as_str());
    s.append("):");
    say(&mut out, s);
    say(&mut out, "".to_owned());
    let w: usize = rows_width(rows);
    let mut s = concat2("  ", pad_right("instrument", w).as_str());
    s.append("  ");
    s.append(pad_left("rows", 12).as_str());
    s.append("  time span");
    say(&mut out, s);
    say_rows(&mut out, rows, w);
    out
}

/// How many rows there are of all instruments.
pub open spec fn all_rows(rows: Seq<ChInstrumentRow>) -> nat
    decreases rows.len(),
{
    if rows.len() == 0 {
        0
    } else {
        all_rows(rows.drop_last()) + rows.last().rows as nat
    }
}

/// The earliest time above 0; 0 where there is none.
pub open spec fn first_seen(rows: Seq<ChInstrumentRow>) -> i64
    decreases rows.len(),
{
    if rows.len() == 0 {
        0
    } else {
        let t = first_seen(rows.drop_last());
        let u = rows.last().first_ns;
        if u > 0 && (t == 0 || u < t) {
            u
        } else {
            t
        }
    }
}

/// The latest time; 0 where there are no rows.
pub open spec fn last_seen(rows: Seq<ChInstrumentRow>) -> i64
    decreases rows.len(),
{
    if rows.len() == 0 {
        0
    } else {
        let u = rows.last().last_ns;
        if rows.len() == 1 || u > last_seen(rows.drop_last()) {
            u
        } else {
            last_seen(rows.drop_last())
        }
    }
}

proof fn lemma_more_rows(rows: Seq<ChInstrumentRow>, i: int)
    requires
        0 <= i <= rows.len(),
    ensures
        all_rows(rows.take(i)) <= all_rows(rows),
    decreases rows.len() - i,
{
    if i == rows.len() {
        assert(rows.take(i) =~= rows);
    } else {
        assert(rows.take(i + 1).drop_last() =~= rows.take(i));
        lemma_more_rows(rows, i + 1);
    }
}

/// What is told of a database.
pub open spec fn database_lines(url: Seq<char>, rows: Seq<ChInstrumentRow>) -> Seq<Seq<char>> {
    Seq::<Seq<char>>::empty().push("Data source: clickhouse "@ + url).push(
        "  delta rows  : "@ + decimal(all_rows(rows)),
    ).push("  instruments : "@ + decimal(rows.len())).push(
        "  time span   : "@ + span_text(first_seen(rows), last_seen(rows)),
    ).push(""@).push("Per instrument (delta rows):"@) + row_lines(rows)
}

/// Tells of a database: how much there is, and for each instrument. Nothing where the rows are
/// too many to be counted.
pub fn describe_clickhouse(url: &str, rows: &Vec<ChInstrumentRow>) -> (r: Option<Vec<String>>)
    ensures
        match r {
            Some(lines) => all_rows(rows@) <= u64::MAX && texts(lines@) == database_lines(
                url@,
                rows@,
            ),
            None => all_rows(rows@) > u64::MAX,
        },
{
    let n: usize = rows.len();
    let mut total: u64 = 0;
    let mut first: i64 = 0;
    let mut last: i64 = 0;
    let mut i: usize = 0;
    while i < n
        invariant
            i <= n,
            n == rows@.len(),
            total == all_rows(rows@.take(i as int)),
            first == first_seen(rows@.take(i as int)),
            last == last_seen(rows@.take(i as int)),
        decreases n - i,
    {
        proof {
            assert(rows@.take(i + 1).drop_last() =~= rows@.take(i as int));
            assert(rows@.take(i + 1).last() == rows@[i as int]);
            lemma_more_rows(rows@, i + 1);
        }
        match total.checked_add(rows[i].rows) {
            Some(t) => {
                total = t;
            },
            None => {
                return None;
            },
        }
        if rows[i].first_ns > 0 && (first == 0 || rows[i].first_ns < first) {
            first = rows[i].first_ns;
        }
        if i == 0 || rows[i].last_ns > last {
            last = rows[i].last_ns;
        }
        i += 1;
    }
    proof {
        assert(rows@.take(n as int) =~= rows@);
    }
    let mut out: Vec<String> = Vec::new();
    proof {
        assert(texts(out@) =~= Seq::<Seq<char>>::empty());
    }
    say(&mut out, concat2("Data source: clickhouse ", url));
    say(&mut out, concat2("  delta rows  : ", u64_text(total).as_str()));
    say(&mut out, concat2("  instruments : ", u64_text(n as u64).as_str()));
    say(&mut out, concat2("  time span   : ", fmt_span(first, last).as_str()));
    say(&mut out, "".to_owned());
    say(&mut out, "Per instrument (delta rows):".to_owned());
    let w: usize = rows_width(rows);
    say_rows(&mut out, rows, w);
    Some(out)
}

// ---- venues ---------------------------------------------------------------------------------

/// An event carries the tag of a venue.
pub open spec fn tagged_by<N>(e: MarketEvent<N>, tag: Seq<char>) -> bool {
    split_once_at(e.inst(), ':') matches Some((t, _)) && t == tag
}

/// Some event carries the tag of a venue.
pub open spec fn has_venue<N>(events: Seq<MarketEvent<N>>, tag: Seq<char>) -> bool {
    exists|i: int| 0 <= i < events.len() && tagged_by(#[trigger] events[i], tag)
}

/// The tags of the venues of some events, each once, in the order of texts.
pub fn venue_tags<N>(events: &[MarketEvent<N>]) -> (r: Vec<String>)
    ensures
        ascending(texts(r@)),
        forall|tag: Seq<char>| #[trigger] texts(r@).contains(tag) <==> has_venue(events@, tag),
{
    let mut seen: StrMap<bool> = StrMap::new();
    let n: usize = events.len();
    let mut i: usize = 0;
    while i < n
        invariant
            i <= n,
            n == events@.len(),
            forall|tag: Seq<char>| #[trigger]
                seen@.contains_key(tag) <==> has_venue(events@.take(i as int), tag),
        decreases n - i,
    {
        let ghost before = seen@;
        proof {
            assert(events@.take(i + 1)[i as int] == events@[i as int]);
        }
        if let Some((tag, _)) = split_once(events[i].instrument(), ':') {
            seen.insert(tag, true);
        }
        proof {
            assert forall|tag: Seq<char>| #[trigger] seen@.contains_key(tag) <==> has_venue(
                events@.take(i + 1),
                tag,
            ) by {
                if before.contains_key(tag) {
                    let j = choose|j: int|
                        0 <= j < i && tagged_by(#[trigger] events@.take(i as int)[j], tag);
                    assert(tagged_by(events@.take(i + 1)[j], tag));
                }
                if has_venue(events@.take(i + 1), tag) && !tagged_by(events@[i as int], tag) {
                    let j = choose|j: int|
                        0 <= j < i + 1 && tagged_by(#[trigger] events@.take(i + 1)[j], tag);
                    assert(tagged_by(events@.take(i as int)[j], tag));
                }
                if tagged_by(events@[i as int], tag) {
                    assert(tagged_by(events@.take(i + 1)[i as int], tag));
                }
            }
        }
        i += 1;
    }
    proof {
        assert(events@.take(n as int) =~= events@);
    }
    let mut out: Vec<String> = Vec::new();
    let m: usize = seen.len();
    let mut i: usize = 0;
    while i < m
        invariant
            i <= m,
            m == seen.keys().len(),
            out@.len() == i,
            forall|j: int| 0 <= j < i ==> (#[trigger] out@[j])@ == seen.keys()[j],
        decreases m - i,
    {
        out.push(seen.key_at(i).clone());
        i += 1;
    }
    proof {
        assert(texts(out@) =~= seen.keys());
        assert forall|tag: Seq<char>| #[trigger] texts(out@).contains(tag) <==> has_venue(
            events@,
            tag,
        ) by {
            assert(seen@.contains_key(tag) <==> seen.keys().contains(tag));
        }
    }
    out
}

// ---- validation -----------------------------------------------------------------------------

/// The lines on how much there is.
pub open spec fn validation_head(label: Seq<char>, sum: DataSummary) -> Seq<Seq<char>> {
    let head = Seq::<Seq<char>>::empty().push("Validation of "@ + label).push(
        "  total events : "@ + int_text(sum.total_events as int),
    ).push("  deltas       : "@ + int_text(sum.total_deltas as int)).push(
        "  trades       : "@ + int_text(sum.total_trades as int),
    ).push("  snapshot rows: "@ + int_text(sum.total_snapshots as int)).push(
        "  instruments  : "@ + decimal(sum.instruments@.len()),
    );
    let named = if sum.instruments@.len() > 0 {
        head.push("    first ids  : "@ + some_names(names(sum.instruments@), 5))
    } else {
        head
    };
    let spanned = named.push("  time span    : "@ + span_text(sum.first_ns, sum.last_ns));
    if sum.instruments@.len() > 0 {
        spanned.push(""@).push("Per instrument:"@) + instrument_table(sum.instruments@)
    } else {
        spanned
    }
}

fn name_all(list: &Vec<InstrumentSummary>) -> (r: Vec<String>)
    ensures
        texts(r@) == names(list@),
{
    let mut out: Vec<String> = Vec::new();
    let n: usize = list.len();
    let mut i: usize = 0;
    while i < n
        invariant
            i <= n,
            n == list@.len(),
            out@.len() == i,
            forall|j: int| 0 <= j < i ==> (#[trigger] out@[j])@ == list@[j].instrument@,
        decreases n - i,
    {
        out.push(list[i].instrument.clone());
        i += 1;
    }
    proof {
        assert(texts(out@) =~= names(list@));
    }
    out
}

fn validate_head(label: &str, sum: &DataSummary) -> (r: Vec<String>)
    ensures
        texts(r@) == validation_head(label@, *sum),
{
    let mut out: Vec<String> = Vec::new();
    proof {
        assert(texts(out@) =~= Seq::<Seq<char>>::empty());
    }
    say(&mut out, concat2("Validation of ", label));
    say(&mut out, concat2("  total events : ", fmt_count(sum.total_events).as_str()));
    say(&mut out, concat2("  deltas       : ", fmt_count(sum.total_deltas).as_str()));
    say(&mut out, concat2("  trades       : ", fmt_count(sum.total_trades).as_str()));
    say(&mut out, concat2("  snapshot rows: ", fmt_count(sum.total_snapshots).as_str()));
    say(&mut out, concat2("  instruments  : ", u64_text(sum.instruments.len() as u64).as_str()));
    if sum.instruments.len() > 0 {
        let all = name_all(&sum.instruments);
        say(&mut out, concat2("    first ids  : ", name_some(&all, 5).as_str()));
    }
    say(&mut out, concat2("  time span    : ", fmt_span(sum.first_ns, sum.last_ns).as_str()));
    if sum.instruments.len() > 0 {
        say(&mut out, "".to_owned());
        say(&mut out, "Per instrument:".to_owned());
        print_instrument_table(&mut out, &sum.instruments);
    }
    out
}

/// The first of some events.
pub open spec fn previewed<N>(events: Seq<MarketEvent<N>>, preview: nat) -> Seq<MarketEvent<N>> {
    if preview < events.len() {
        events.take(preview as int)
    } else {
        events
    }
}

/// The lines on the first of some events.
pub open spec fn preview_lines<N: Number>(events: Seq<MarketEvent<N>>, preview: nat) -> Seq<
    Seq<char>,
> {
    let shown = previewed(events, preview);
    let head = Seq::<Seq<char>>::empty().push(""@).push(
        "First "@ + decimal(shown.len()) + " parsed event(s):"@,
    );
    let told = if events.len() == 0 {
        head.push("  (none — the source produced zero events)"@)
    } else {
        head
    };
    told + shown.map_values(|e: MarketEvent<N>| "  "@ + event_text(e))
}

fn say_preview<N: Number>(out: &mut Vec<String>, events: &[MarketEvent<N>], preview: usize)
    ensures
        texts(final(out)@) == texts(old(out)@) + preview_lines(events@, preview as nat),
{
    let ghost shown = previewed(events@, preview as nat);
    let n: usize = if preview < events.len() {
        preview
    } else {
        events.len()
    };
    let ghost start = texts(out@);
    say(out, "".to_owned());
    say(out, concat3("First ", u64_text(n as u64).as_str(), " parsed event(s):"));
    if events.len() == 0 {
        say(out, "  (none — the source produced zero events)".to_owned());
    }
    let ghost head = texts(out@);
    let ghost due = shown.map_values(|e: MarketEvent<N>| "  "@ + event_text(e));
    let mut i: usize = 0;
    while i < n
        invariant
            i <= n,
            n == shown.len(),
            n <= events@.len(),
            forall|j: int| 0 <= j < n ==> #[trigger] shown[j] == events@[j],
            due == shown.map_values(|e: MarketEvent<N>| "  "@ + event_text(e)),
            texts(out@) =~= head + due.take(i as int),
        decreases n - i,
    {
        proof {
            assert(shown[i as int] == events@[i as int]);
        }
        say(out, concat2("  ", describe_event(&events[i]).as_str()));
        proof {
            assert(due.take(i + 1) =~= due.take(i as int).push(due[i as int]));
        }
        i += 1;
    }
    proof {
        assert(due.take(n as int) =~= due);
        assert(texts(out@) =~= start + preview_lines(events@, preview as nat));
    }
}

/// The lines on the warnings.
pub open spec fn warning_lines(warnings: Seq<Seq<char>>) -> Seq<Seq<char>> {
    let head = Seq::<Seq<char>>::empty().push(""@);
    if warnings.len() == 0 {
        head.push("Data-quality checks: OK (no warnings)."@)
    } else {
        head.push("Data-quality WARNINGS ("@ + decimal(warnings.len()) + "):"@)
            + warnings.map_values(|w: Seq<char>| "  ! "@ + w).push(""@).push(
            "(These are warnings, not failures — the source still loaded. Fix your mapping/"@,
        ).push(" profile if any look wrong, then re-run `validate --preview`.)"@)
    }
}

fn say_warnings(out: &mut Vec<String>, warnings: &Vec<String>)
    ensures
        texts(final(out)@) == texts(old(out)@) + warning_lines(texts(warnings@)),
{
    let ghost start = texts(out@);
    let n: usize = warnings.len();
    say(out, "".to_owned());
    if n == 0 {
        say(out, "Data-quality checks: OK (no warnings).".to_owned());
        proof {
            assert(texts(out@) =~= start + warning_lines(texts(warnings@)));
        }
        return;
    }
    say(out, concat3("Data-quality WARNINGS (", u64_text(n as u64).as_str(), "):"));
    let ghost head = texts(out@);
    let ghost due = texts(warnings@).map_values(|w: Seq<char>| "  ! "@ + w);
    let mut i: usize = 0;
    while i < n
        invariant
            i <= n,
            n == warnings@.len(),
            due == texts(warnings@).map_values(|w: Seq<char>| "  ! "@ + w),
            texts(out@) =~= head + due.take(i as int),
        decreases n - i,
    {
        say(out, concat2("  ! ", warnings[i].as_str()));
        proof {
            assert(due[i as int] == "  ! "@ + warnings@[i as int]@);
            assert(due.take(i + 1) =~= due.take(i as int).push(due[i as int]));
        }
        i += 1;
    }
    say(out, "".to_owned());
    say(
        out,
        "(These are warnings, not failures — the source still loaded. Fix your mapping/".to_owned(),
    );
    say(out, " profile if any look wrong, then re-run `validate --preview`.)".to_owned());
    proof {
        assert(due.take(n as int) =~= due);
        assert(texts(out@) =~= start + warning_lines(texts(warnings@)));
    }
}

/// What validating a source says.
pub open spec fn validation_lines<N: Number>(
    label: Seq<char>,
    hint: Seq<char>,
    sum: DataSummary,
    events: Seq<MarketEvent<N>>,
    preview: nat,
) -> Seq<Seq<char>> {
    (validation_head(label, sum) + preview_lines(events, preview) + warning_lines(
        warnings_of(events, sum.instruments@),
    )).push(""@).push(
        "Looks right? Run it:  kalshi-backtest backtest "@ + hint + " --strategy <name>"@,
    )
}

/// Tells how a source looks: how much there is, its first events, what seems wrong with it, and
/// how to run it.
pub fn validation_report<N: Number>(
    label: &str,
    hint: &str,
    sum: &DataSummary,
    events: &[MarketEvent<N>],
    preview: usize,
) -> (r: Vec<String>)
    ensures
        texts(r@) == validation_lines(label@, hint@, *sum, events@, preview as nat),
{
    let mut out = validate_head(label, sum);
    say_preview(&mut out, events, preview);
    let warnings = data_quality_warnings(events, sum);
    say_warnings(&mut out, &warnings);
    say(&mut out, "".to_owned());
    say(
        &mut out,
        concat3(
            "Looks right? Run it:  kalshi-backtest backtest ",
            hint,
            " --strategy <name>",
        ),
    );
    out
}

} // verus!
