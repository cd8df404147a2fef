//! Where a ClickHouse database keeps deltas and trades, the queries for them, and the shapes in
//! which their values come.
use crate::foreign::{date_nanos, datetime_nanos, parse_date, parse_datetime, Json, JsonView};
use crate::number::Number;
use crate::text::{
    ascii_upper, chars_of, int_value, int_within, parse_i64, replace_char, same_text, to_ascii_upper, trim,
    trim_end_char, trimmed, with_replaced, without_trailing,
};
use crate::types::{Action, Side};
use vstd::prelude::*;

verus! {

/// The columns of the table of deltas.
#[derive(Debug, Clone, PartialEq)]
pub struct DeltaColumns {
    pub timestamp: String,
    pub instrument_id: String,
    pub venue: String,
    pub action: String,
    pub side: String,
    pub price: String,
    pub size: String,
    pub market_alias: String,
    pub sequence: String,
    pub is_snapshot: String,
}

impl Default for DeltaColumns {
    fn default() -> (r: DeltaColumns)
        ensures
            r.timestamp@ == "timestamp"@,
            r.instrument_id@ == "instrument_id"@,
            r.venue@ == "venue"@,
            r.action@ == "action"@,
            r.side@ == "side"@,
            r.price@ == "price"@,
            r.size@ == "size"@,
            r.market_alias@ == "market_alias"@,
            r.sequence@ == "sequence"@,
            r.is_snapshot@ == "is_snapshot"@,
    {
        DeltaColumns {
            timestamp: "timestamp".to_owned(),
            instrument_id: "instrument_id".to_owned(),
            venue: "venue".to_owned(),
            action: "action".to_owned(),
            side: "side".to_owned(),
            price: "price".to_owned(),
            size: "size".to_owned(),
            market_alias: "market_alias".to_owned(),
            sequence: "sequence".to_owned(),
            is_snapshot: "is_snapshot".to_owned(),
        }
    }
}

/// The columns of the table of trades.
#[derive(Debug, Clone, PartialEq)]
pub struct TradeColumns {
    pub ts_event: String,
    pub instrument_id: String,
    pub venue: String,
    pub aggressor_side: String,
    pub price: String,
    pub size: String,
    pub market_alias: String,
    pub trade_id: String,
}

impl Default for TradeColumns {
    fn default() -> (r: TradeColumns)
        ensures
            r.ts_event@ == "ts_event"@,
            r.instrument_id@ == "instrument_id"@,
            r.venue@ == "venue"@,
            r.aggressor_side@ == "aggressor_side"@,
            r.price@ == "price"@,
            r.size@ == "size"@,
            r.market_alias@ == "market_alias"@,
            r.trade_id@ == "trade_id"@,
    {
        TradeColumns {
            ts_event: "ts_event".to_owned(),
            instrument_id: "instrument_id".to_owned(),
            venue: "venue".to_owned(),
            aggressor_side: "aggressor_side".to_owned(),
            price: "price".to_owned(),
            size: "size".to_owned(),
            market_alias: "market_alias".to_owned(),
            trade_id: "trade_id".to_owned(),
        }
    }
}

/// The database, its two tables and their columns.
#[derive(Debug, Clone, PartialEq)]
pub struct ClickHouseSchema {
    pub database: String,
    pub deltas_table: String,
    pub trades_table: String,
    pub deltas: DeltaColumns,
    pub trades: TradeColumns,
}

impl Default for ClickHouseSchema {
    fn default() -> (r: ClickHouseSchema)
        ensures
            r.database@ == "kalshi"@,
            r.deltas_table@ == "orderbook_deltas"@,
            r.trades_table@ == "trades"@,
            call_ensures(<DeltaColumns as Default>::default, (), r.deltas),
            call_ensures(<TradeColumns as Default>::default, (), r.trades),
    {
        ClickHouseSchema {
            database: "kalshi".to_owned(),
            deltas_table: "orderbook_deltas".to_owned(),
            trades_table: "trades".to_owned(),
            deltas: DeltaColumns::default(),
            trades: TradeColumns::default(),
        }
    }
}

/// The text with each quote doubled.
pub open spec fn escaped(s: Seq<char>) -> Seq<char>
    decreases s.len(),
{
    if s.len() == 0 {
        Seq::empty()
    } else if s.last() == '\'' {
        escaped(s.drop_last()).push('\'').push('\'')
    } else {
        escaped(s.drop_last()).push(s.last())
    }
}

/// Doubles the quotes of a string, so that it can stand between quotes in a query.
pub fn esc(s: &str) -> (r: String)
    ensures
        r@ == escaped(s@),
{
    let v = chars_of(s);
    let mut out = String::new();
    let mut i: usize = 0;
    assert(v@.take(0) =~= Seq::<char>::empty());
    while i < v.len()
        invariant
            i <= v@.len(),
            out@ == escaped(v@.take(i as int)),
        decreases v@.len() - i,
    {
        proof {
            assert(v@.take(i + 1).drop_last() =~= v@.take(i as int));
            assert(v@.take(i + 1).last() == v@[i as int]);
        }
        let c: char = v[i];
        if c == '\'' {
            out.push('\'');
            out.push('\'');
        } else {
            out.push(c);
        }
        i += 1;
    }
    assert(v@.take(v@.len() as int) =~= v@);
    out
}

/// The text that a quotation stands for: each pair of quotes is one.
pub open spec fn unescaped(s: Seq<char>) -> Seq<char>
    decreases s.len(),
{
    if s.len() == 0 {
        Seq::empty()
    } else if s.last() == '\'' && s.len() >= 2 {
        unescaped(s.take(s.len() - 2)).push('\'')
    } else {
        unescaped(s.drop_last()).push(s.last())
    }
}

/// What was made fit for a query stands for the text that it was made of.
pub proof fn law_escaped_reads_back(s: Seq<char>)
    ensures
        unescaped(escaped(s)) == s,
    decreases s.len(),
{
    if s.len() > 0 {
        law_escaped_reads_back(s.drop_last());
        let e = escaped(s.drop_last());
        let q = e.push('\'').push('\'');
        assert(q.take(q.len() - 2) =~= e);
        assert(e.push(s.last()).drop_last() =~= e);
        assert(s.drop_last().push(s.last()) =~= s);
    }
}

/// How many quotes a text holds.
pub open spec fn quotes(s: Seq<char>) -> nat
    decreases s.len(),
{
    if s.len() == 0 {
        0
    } else {
        quotes(s.drop_last()) + if s.last() == '\'' {
            1nat
        } else {
            0
        }
    }
}

/// How many quotes a text ends with.
pub open spec fn closing_quotes(s: Seq<char>) -> nat
    decreases s.len(),
{
    if s.len() == 0 || s.last() != '\'' {
        0
    } else {
        closing_quotes(s.drop_last()) + 1
    }
}

/// A text is longer by one for each of its quotes once it was made fit for a query.
pub proof fn law_escaping_adds_quotes(s: Seq<char>)
    ensures
        escaped(s).len() == s.len() + quotes(s),
    decreases s.len(),
{
    if s.len() > 0 {
        law_escaping_adds_quotes(s.drop_last());
    }
}

/// To make two texts fit for a query one by one is to make them fit together.
pub proof fn law_escaping_goes_piece_by_piece(a: Seq<char>, b: Seq<char>)
    ensures
        escaped(a + b) == escaped(a) + escaped(b),
    decreases b.len(),
{
    if b.len() == 0 {
        assert(a + b =~= a);
        assert(escaped(a) + escaped(b) =~= escaped(a));
    } else {
        let whole = a + b;
        assert(whole.drop_last() =~= a + b.drop_last());
        assert(whole.last() == b.last());
        law_escaping_goes_piece_by_piece(a, b.drop_last());
        assert(escaped(whole) =~= escaped(a) + escaped(b));
    }
}

proof fn lemma_closing_quotes_even(s: Seq<char>)
    ensures
        closing_quotes(escaped(s)) % 2 == 0,
    decreases s.len(),
{
    if s.len() > 0 {
        let e = escaped(s.drop_last());
        lemma_closing_quotes_even(s.drop_last());
        if s.last() == '\'' {
            let once = e.push('\'');
            let twice = once.push('\'');
            assert(once.drop_last() =~= e);
            assert(twice.drop_last() =~= once);
            assert(closing_quotes(once) == closing_quotes(e) + 1);
            assert(closing_quotes(twice) == closing_quotes(e) + 2);
        }
    }
}

/// Quotes stand in pairs in a text that was made fit for a query: wherever a run of them ends,
/// before another character or at the end of the text, their number is even. So no quote in it can
/// close the quotation that it is put into.
pub proof fn law_quotes_stand_in_pairs(s: Seq<char>, i: int)
    requires
        0 <= i <= escaped(s).len(),
        i < escaped(s).len() ==> escaped(s)[i] != '\'',
    ensures
        closing_quotes(escaped(s).take(i)) % 2 == 0,
    decreases s.len(),
{
    let e = escaped(s);
    if i == e.len() {
        assert(e.take(i) =~= e);
        lemma_closing_quotes_even(s);
    } else {
        let before = escaped(s.drop_last());
        if s.last() == '\'' {
            assert(e.len() == before.len() + 2);
            assert(e[before.len() as int] == '\'');
            assert(e[(before.len() + 1) as int] == '\'');
            assert(i < before.len());
            assert(before[i] == e[i]);
        } else {
            assert(e.len() == before.len() + 1);
            if i < before.len() {
                assert(before[i] == e[i]);
            }
        }
        assert(e.take(i) =~= before.take(i));
        law_quotes_stand_in_pairs(s.drop_last(), i);
    }
}

impl ClickHouseSchema {
    /// The full name of the table of deltas.
    pub open spec fn deltas_name(self) -> Seq<char> {
        self.database@ + "."@ + self.deltas_table@
    }

    /// The full name of the table of trades.
    pub open spec fn trades_name(self) -> Seq<char> {
        self.database@ + "."@ + self.trades_table@
    }

    /// The full name of the table of deltas.
    pub fn deltas_fqtn(&self) -> (r: String)
        ensures
            r@ == self.deltas_name(),
    {
        let mut s = self.database.clone();
        s.append(".");
        s.append(self.deltas_table.as_str());
        s
    }

    /// The full name of the table of trades.
    pub fn trades_fqtn(&self) -> (r: String)
        ensures
            r@ == self.trades_name(),
    {
        let mut s = self.database.clone();
        s.append(".");
        s.append(self.trades_table.as_str());
        s
    }

    /// The query for the deltas of the instruments like a pattern, from one day up to another.
    pub open spec fn deltas_query(self, like: Seq<char>, start: Seq<char>, end: Seq<char>) -> Seq<
        char,
    > {
        let c = self.deltas;
        "SELECT toUnixTimestamp64Nano("@ + c.timestamp@ + ") AS ts_ns, "@ + c.instrument_id@
            + " AS instrument_id, "@ + c.action@ + " AS action, "@ + c.side@ + " AS side, "@
            + c.price@ + " AS price, "@ + c.size@ + " AS size, "@ + c.sequence@
            + " AS sequence, "@ + c.is_snapshot@ + " AS is_snapshot FROM "@ + self.deltas_name()
            + " WHERE "@ + c.instrument_id@ + " LIKE '"@ + escaped(like) + "' AND "@ + c.timestamp@
            + " >= '"@ + escaped(start) + "' AND "@ + c.timestamp@ + " < '"@ + escaped(end)
            + "' ORDER BY "@ + c.timestamp@ + ", "@ + c.sequence@ + " FORMAT JSONEachRow"@
    }

    /// The query for deltas. Its columns are named as the rows are read.
    pub fn deltas_sql(&self, instrument_like: &str, start: &str, end: &str) -> (r: String)
        ensures
            r@ == self.deltas_query(instrument_like@, start@, end@),
    {
        let c = &self.deltas;
        let table = self.deltas_fqtn();
        let like = esc(instrument_like);
        let from = esc(start);
        let to = esc(end);
        let mut s = "SELECT toUnixTimestamp64Nano(".to_owned();
        s.append(c.timestamp.as_str());
        s.append(") AS ts_ns, ");
        s.append(c.instrument_id.as_str());
        s.append(" AS instrument_id, ");
        s.append(c.action.as_str());
        s.append(" AS action, ");
        s.append(c.side.as_str());
        s.append(" AS side, ");
        s.append(c.price.as_str());
        s.append(" AS price, ");
        s.append(c.size.as_str());
        s.append(" AS size, ");
        s.append(c.sequence.as_str());
        s.append(" AS sequence, ");
        s.append(c.is_snapshot.as_str());
        s.append(" AS is_snapshot FROM ");
        s.append(table.as_str());
        s.append(" WHERE ");
        s.append(c.instrument_id.as_str());
        s.append(" LIKE '");
        s.append(like.as_str());
        s.append("' AND ");
        s.append(c.timestamp.as_str());
        s.append(" >= '");
        s.append(from.as_str());
        s.append("' AND ");
        s.append(c.timestamp.as_str());
        s.append(" < '");
        s.append(to.as_str());
        s.append("' ORDER BY ");
        s.append(c.timestamp.as_str());
        s.append(", ");
        s.append(c.sequence.as_str());
        s.append(" FORMAT JSONEachRow");
        s
    }

    /// The query for the trades of the instruments like a pattern, from one day up to another.
    pub open spec fn trades_query(self, like: Seq<char>, start: Seq<char>, end: Seq<char>) -> Seq<
        char,
    > {
        let c = self.trades;
        "SELECT toUnixTimestamp64Nano("@ + c.ts_event@ + ") AS ts_ns, "@ + c.instrument_id@
            + " AS instrument_id, "@ + c.aggressor_side@ + " AS aggressor_side, "@ + c.price@
            + " AS price, "@ + c.size@ + " AS size, "@ + c.trade_id@ + " AS trade_id FROM "@
            + self.trades_name() + " WHERE "@ + c.instrument_id@ + " LIKE '"@ + escaped(like)
            + "' AND "@ + c.ts_event@ + " >= '"@ + escaped(start) + "' AND "@ + c.ts_event@
            + " < '"@ + escaped(end) + "' ORDER BY "@ + c.ts_event@ + " FORMAT JSONEachRow"@
    }

    /// The query for trades. Its columns are named as the rows are read.
    pub fn trades_sql(&self, instrument_like: &str, start: &str, end: &str) -> (r: String)
        ensures
            r@ == self.trades_query(instrument_like@, start@, end@),
    {
        let c = &self.trades;
        let table = self.trades_fqtn();
        let like = esc(instrument_like);
        let from = esc(start);
        let to = esc(end);
        let mut s = "SELECT toUnixTimestamp64Nano(".to_owned();
        s.append(c.ts_event.as_str());
        s.append(") AS ts_ns, ");
        s.append(c.instrument_id.as_str());
        s.append(" AS instrument_id, ");
        s.append(c.aggressor_side.as_str());
        s.append(" AS aggressor_side, ");
        s.append(c.price.as_str());
        s.append(" AS price, ");
        s.append(c.size.as_str());
        s.append(" AS size, ");
        s.append(c.trade_id.as_str());
        s.append(" AS trade_id FROM ");
        s.append(table.as_str());
        s.append(" WHERE ");
        s.append(c.instrument_id.as_str());
        s.append(" LIKE '");
        s.append(like.as_str());
        s.append("' AND ");
        s.append(c.ts_event.as_str());
        s.append(" >= '");
        s.append(from.as_str());
        s.append("' AND ");
        s.append(c.ts_event.as_str());
        s.append(" < '");
        s.append(to.as_str());
        s.append("' ORDER BY ");
        s.append(c.ts_event.as_str());
        s.append(" FORMAT JSONEachRow");
        s
    }

    /// The query for the instruments like a pattern, with how many deltas each has and from when
    /// to when.
    pub open spec fn instruments_query(
        self,
        like: Seq<char>,
        start: Seq<char>,
        end: Seq<char>,
    ) -> Seq<char> {
        let c = self.deltas;
        "SELECT "@ + c.instrument_id@
            + " AS instrument_id, count() AS rows, toUnixTimestamp64Nano(min("@ + c.timestamp@
            + ")) AS first_ns, toUnixTimestamp64Nano(max("@ + c.timestamp@
            + ")) AS last_ns FROM "@ + self.deltas_name() + " WHERE "@ + c.instrument_id@
            + " LIKE '"@ + escaped(like) + "' AND "@ + c.timestamp@ + " >= '"@ + escaped(start)
            + "' AND "@ + c.timestamp@ + " < '"@ + escaped(end) + "' GROUP BY "@
            + c.instrument_id@ + " ORDER BY "@ + c.instrument_id@ + " FORMAT JSONEachRow"@
    }

    /// The query for instruments.
    pub fn instruments_sql(&self, instrument_like: &str, start: &str, end: &str) -> (r: String)
        ensures
            r@ == self.instruments_query(instrument_like@, start@, end@),
    {
        let c = &self.deltas;
        let table = self.deltas_fqtn();
        let like = esc(instrument_like);
        let from = esc(start);
        let to = esc(end);
        let mut s = "SELECT ".to_owned();
        s.append(c.instrument_id.as_str());
        s.append(" AS instrument_id, count() AS rows, toUnixTimestamp64Nano(min(");
        s.append(c.timestamp.as_str());
        s.append(")) AS first_ns, toUnixTimestamp64Nano(max(");
        s.append(c.timestamp.as_str());
        s.append(")) AS last_ns FROM ");
        s.append(table.as_str());
        s.append(" WHERE ");
        s.append(c.instrument_id.as_str());
        s.append(" LIKE '");
        s.append(like.as_str());
        s.append("' AND ");
        s.append(c.timestamp.as_str());
        s.append(" >= '");
        s.append(from.as_str());
        s.append("' AND ");
        s.append(c.timestamp.as_str());
        s.append(" < '");
        s.append(to.as_str());
        s.append("' GROUP BY ");
        s.append(c.instrument_id.as_str());
        s.append(" ORDER BY ");
        s.append(c.instrument_id.as_str());
        s.append(" FORMAT JSONEachRow");
        s
    }
}

// ---- values ---------------------------------------------------------------------------------

/// The action with a number.
pub open spec fn action_numbered(i: int) -> Option<Action> {
    if i == 1 {
        Some(Action::Add)
    } else if i == 2 {
        Some(Action::Update)
    } else if i == 3 {
        Some(Action::Delete)
    } else {
        None
    }
}

/// The action that a text names, by number or by word.
pub open spec fn action_of_text(s: Seq<char>) -> Option<Action> {
    let t = trimmed(s);
    match int_within(t, i64::MIN as int, i64::MAX as int) {
        Some(i) => action_numbered(i),
        None => {
            let u = ascii_upper(t);
            if u == "ADD"@ || u == "A"@ || u == "INSERT"@ {
                Some(Action::Add)
            } else if u == "UPDATE"@ || u == "U"@ || u == "MODIFY"@ || u == "CHANGE"@ {
                Some(Action::Update)
            } else if u == "DELETE"@ || u == "D"@ || u == "REMOVE"@ {
                Some(Action::Delete)
            } else {
                None
            }
        },
    }
}

/// The action that a value names.
pub open spec fn action_of(v: JsonView) -> Option<Action> {
    match v {
        JsonView::Text(s) => action_of_text(s),
        JsonView::Number(whole, _) => match whole {
            Some(i) => action_numbered(i as int),
            None => None,
        },
        _ => None,
    }
}

fn parse_action_int(i: i64) -> (r: Option<Action>)
    ensures
        r == action_numbered(i as int),
{
    if i == 1 {
        Some(Action::Add)
    } else if i == 2 {
        Some(Action::Update)
    } else if i == 3 {
        Some(Action::Delete)
    } else {
        None
    }
}

fn parse_action_str(s: &str) -> (r: Option<Action>)
    ensures
        r == action_of_text(s@),
{
    let t = trim(s);
    match parse_i64(t.as_str()) {
        Some(i) => parse_action_int(i),
        None => {
            let up = to_ascii_upper(t.as_str());
            let u = up.as_str();
            if same_text(u, "ADD") || same_text(u, "A") || same_text(u, "INSERT") {
                Some(Action::Add)
            } else if same_text(u, "UPDATE") || same_text(u, "U") || same_text(u, "MODIFY")
                || same_text(u, "CHANGE") {
                Some(Action::Update)
            } else if same_text(u, "DELETE") || same_text(u, "D") || same_text(u, "REMOVE") {
                Some(Action::Delete)
            } else {
                None
            }
        },
    }
}

/// The action that a value names: a word in any case, or a number from 1 to 3.
pub fn parse_action(v: &Json) -> (r: Option<Action>)
    ensures
        r == action_of(v@),
{
    match v {
        Json::Text(s) => parse_action_str(s.as_str()),
        Json::Number(n) => match n.int {
            Some(i) => parse_action_int(i),
            None => None,
        },
        _ => None,
    }
}

/// The side with a number.
pub open spec fn side_numbered(i: int) -> Option<Side> {
    if i == 1 {
        Some(Side::Bid)
    } else if i == 2 {
        Some(Side::Ask)
    } else {
        None
    }
}

/// The side that a text names, by number or by word.
pub open spec fn side_of_text(s: Seq<char>) -> Option<Side> {
    let t = trimmed(s);
    match int_within(t, i64::MIN as int, i64::MAX as int) {
        Some(i) => side_numbered(i),
        None => {
            let u = ascii_upper(t);
            if u == "BUY"@ || u == "BID"@ || u == "B"@ || u == "YES"@ {
                Some(Side::Bid)
            } else if u == "SELL"@ || u == "ASK"@ || u == "S"@ || u == "A"@ || u == "NO"@ {
                Some(Side::Ask)
            } else {
                None
            }
        },
    }
}

/// The side that a value names.
pub open spec fn side_of(v: JsonView) -> Option<Side> {
    match v {
        JsonView::Text(s) => side_of_text(s),
        JsonView::Number(whole, _) => match whole {
            Some(i) => side_numbered(i as int),
            None => None,
        },
        _ => None,
    }
}

fn parse_side_int(i: i64) -> (r: Option<Side>)
    ensures
        r == side_numbered(i as int),
{
    if i == 1 {
        Some(Side::Bid)
    } else if i == 2 {
        Some(Side::Ask)
    } else {
        None
    }
}

fn parse_side_str(s: &str) -> (r: Option<Side>)
    ensures
        r == side_of_text(s@),
{
    let t = trim(s);
    match parse_i64(t.as_str()) {
        Some(i) => parse_side_int(i),
        None => {
            let up = to_ascii_upper(t.as_str());
            let u = up.as_str();
            if same_text(u, "BUY") || same_text(u, "BID") || same_text(u, "B") || same_text(
                u,
                "YES",
            ) {
                Some(Side::Bid)
            } else if same_text(u, "SELL") || same_text(u, "ASK") || same_text(u, "S")
                || same_text(u, "A") || same_text(u, "NO") {
                Some(Side::Ask)
            } else {
                None
            }
        },
    }
}

/// The side that a value names: a word in any case, or 1 or 2. Prices are of YES already and stay
/// as they are.
pub fn parse_side(v: &Json) -> (r: Option<Side>)
    ensures
        r == side_of(v@),
{
    match v {
        Json::Text(s) => parse_side_str(s.as_str()),
        Json::Number(n) => match n.int {
            Some(i) => parse_side_int(i),
            None => None,
        },
        _ => None,
    }
}

/// Whether a value says that the side that took liquidity bought YES; an unknown value does.
pub open spec fn yes_taker(v: JsonView) -> bool {
    match v {
        JsonView::Text(s) => {
            let u = ascii_upper(trimmed(s));
            u == "YES"@ || u == "BUY"@ || u == "BID"@ || u == "1"@
        },
        JsonView::Number(whole, _) => whole == Some(1i64),
        JsonView::Bool(b) => b,
        _ => true,
    }
}

/// Whether a value says that the side that took liquidity bought YES.
pub fn aggressor_is_yes(v: &Json) -> (r: bool)
    ensures
        r == yes_taker(v@),
{
    match v {
        Json::Text(s) => {
            let t = trim(s.as_str());
            let up = to_ascii_upper(t.as_str());
            let u = up.as_str();
            same_text(u, "YES") || same_text(u, "BUY") || same_text(u, "BID") || same_text(u, "1")
        },
        Json::Number(n) => match n.int {
            Some(i) => i == 1,
            None => false,
        },
        Json::Bool(b) => *b,
        _ => true,
    }
}

/// The time that a date and a time of day write, in the first format that they fit.
pub open spec fn calendar_ts(norm: Seq<char>) -> Option<i64> {
    match datetime_nanos(norm, "%Y-%m-%d %H:%M:%S%.f"@) {
        Some(ns) => ns,
        None => match datetime_nanos(norm, "%Y-%m-%d %H:%M:%S"@) {
            Some(ns) => ns,
            None => match datetime_nanos(norm, "%Y-%m-%d"@) {
                Some(ns) => ns,
                None => match date_nanos(norm) {
                    Ok(ns) => ns,
                    Err(_) => None,
                },
            },
        },
    }
}

/// A date and a time of day with a space between them and no `Z` behind.
pub open spec fn normal_form(s: Seq<char>) -> Seq<char> {
    trimmed(without_trailing(with_replaced(s, 'T', ' '), 'Z'))
}

/// The time that a text writes: nanoseconds since the epoch, or a date and a time of day.
pub open spec fn ts_of_text(s: Seq<char>) -> Option<i64> {
    let t = trimmed(s);
    match int_within(t, i64::MIN as int, i64::MAX as int) {
        Some(i) => Some(i as i64),
        None => calendar_ts(normal_form(t)),
    }
}

/// The time that a value stands for.
pub open spec fn ts_of<N: Number>(v: JsonView) -> Option<i64> {
    match v {
        JsonView::Number(whole, text) => match whole {
            Some(i) => Some(i),
            None => match N::written(text) {
                Some(x) => Some(x.truncated()),
                None => None,
            },
        },
        JsonView::Text(s) => ts_of_text(s),
        _ => None,
    }
}

fn parse_ts_str(s: &str) -> (r: Option<i64>)
    ensures
        r == ts_of_text(s@),
{
    let t = trim(s);
    match parse_i64(t.as_str()) {
        Some(i) => Some(i),
        None => {
            let spaced = replace_char(t.as_str(), 'T', ' ');
            let bare = trim_end_char(spaced.as_str(), 'Z');
            let norm = trim(bare.as_str());
            let n = norm.as_str();
            match parse_datetime(n, "%Y-%m-%d %H:%M:%S%.f") {
                Some(ns) => ns,
                None => match parse_datetime(n, "%Y-%m-%d %H:%M:%S") {
                    Some(ns) => ns,
                    None => match parse_datetime(n, "%Y-%m-%d") {
                        Some(ns) => ns,
                        None => match parse_date(n) {
                            Ok(ns) => ns,
                            Err(_) => None,
                        },
                    },
                },
            }
        },
    }
}

/// The time that a value stands for, in nanoseconds since the epoch: a number, the text of one, or
/// a date and a time of day.
pub fn parse_ts_ns<N: Number>(v: &Json) -> (r: Option<i64>)
    ensures
        r == ts_of::<N>(v@),
{
    match v {
        Json::Number(n) => match n.int {
            Some(i) => Some(i),
            None => match N::parse(n.text.as_str()) {
                Some(x) => Some(x.to_int()),
                None => None,
            },
        },
        Json::Text(s) => parse_ts_str(s.as_str()),
        _ => None,
    }
}

// ---- what values stand for ---------------------------------------------------------------------

/// Actions and sides are numbered from 1 on: to add, to update, to delete; a bid, an ask. No other
/// number stands for one. A truth value or a 1 says whether the taker bought YES.
pub proof fn law_numbers_stand_for_actions_and_sides(i: i64, text: Seq<char>, b: bool)
    ensures
        action_of(JsonView::Number(Some(i), text)) == match i {
            1 => Some(Action::Add),
            2 => Some(Action::Update),
            3 => Some(Action::Delete),
            _ => None,
        },
        side_of(JsonView::Number(Some(i), text)) == match i {
            1 => Some(Side::Bid),
            2 => Some(Side::Ask),
            _ => None,
        },
        yes_taker(JsonView::Number(Some(i), text)) <==> i == 1,
        yes_taker(JsonView::Bool(b)) <==> b,
        yes_taker(JsonView::Null),
{
}

/// A number that is written as a text stands for what it stands for as a number.
pub proof fn law_written_numbers_stand_for_the_same(s: Seq<char>, i: i64, text: Seq<char>)
    requires
        trimmed(s) == s,
        int_value(s) == Some(i as int),
    ensures
        action_of(JsonView::Text(s)) == action_of(JsonView::Number(Some(i), text)),
        side_of(JsonView::Text(s)) == side_of(JsonView::Number(Some(i), text)),
        ts_of_text(s) == Some(i),
{
}

/// What a word in upper case, without spaces around it, stands for.
pub proof fn law_words_stand_for_actions_and_sides(s: Seq<char>)
    requires
        trimmed(s) == s,
        ascii_upper(s) == s,
        int_value(s) is None,
    ensures
        action_of(JsonView::Text(s)) == Some(Action::Add) <==> s == seq!['A', 'D', 'D'] || s == seq!['A'] || s == seq!['I', 'N', 'S', 'E', 'R', 'T'],
        action_of(JsonView::Text(s)) == Some(Action::Update) <==> s == seq!['U', 'P', 'D', 'A', 'T', 'E'] || s == seq!['U'] || s == seq!['M', 'O', 'D', 'I', 'F', 'Y'] || s == seq!['C', 'H', 'A', 'N', 'G', 'E'],
        action_of(JsonView::Text(s)) == Some(Action::Delete) <==> s == seq!['D', 'E', 'L', 'E', 'T', 'E'] || s == seq!['D'] || s == seq!['R', 'E', 'M', 'O', 'V', 'E'],
        side_of(JsonView::Text(s)) == Some(Side::Bid) <==> s == seq!['B', 'U', 'Y'] || s == seq!['B', 'I', 'D'] || s == seq!['B'] || s == seq!['Y', 'E', 'S'],
        side_of(JsonView::Text(s)) == Some(Side::Ask) <==> s == seq!['S', 'E', 'L', 'L'] || s == seq!['A', 'S', 'K'] || s == seq!['S'] || s == seq!['A'] || s == seq!['N', 'O'],
{
    reveal_strlit("ADD");
    reveal_strlit("A");
    reveal_strlit("INSERT");
    reveal_strlit("UPDATE");
    reveal_strlit("U");
    reveal_strlit("MODIFY");
    reveal_strlit("CHANGE");
    reveal_strlit("DELETE");
    reveal_strlit("D");
    reveal_strlit("REMOVE");
    reveal_strlit("BUY");
    reveal_strlit("BID");
    reveal_strlit("B");
    reveal_strlit("YES");
    reveal_strlit("SELL");
    reveal_strlit("ASK");
    reveal_strlit("S");
    reveal_strlit("NO");
    assert("ADD"@ =~= seq!['A', 'D', 'D']);
    assert("A"@ =~= seq!['A']);
    assert("INSERT"@ =~= seq!['I', 'N', 'S', 'E', 'R', 'T']);
    assert("UPDATE"@ =~= seq!['U', 'P', 'D', 'A', 'T', 'E']);
    assert("U"@ =~= seq!['U']);
    assert("MODIFY"@ =~= seq!['M', 'O', 'D', 'I', 'F', 'Y']);
    assert("CHANGE"@ =~= seq!['C', 'H', 'A', 'N', 'G', 'E']);
    assert("DELETE"@ =~= seq!['D', 'E', 'L', 'E', 'T', 'E']);
    assert("D"@ =~= seq!['D']);
    assert("REMOVE"@ =~= seq!['R', 'E', 'M', 'O', 'V', 'E']);
    assert("BUY"@ =~= seq!['B', 'U', 'Y']);
    assert("BID"@ =~= seq!['B', 'I', 'D']);
    assert("B"@ =~= seq!['B']);
    assert("YES"@ =~= seq!['Y', 'E', 'S']);
    assert("SELL"@ =~= seq!['S', 'E', 'L', 'L']);
    assert("ASK"@ =~= seq!['A', 'S', 'K']);
    assert("S"@ =~= seq!['S']);
    assert("NO"@ =~= seq!['N', 'O']);
    assert("ADD"@[0] == 'A' && "A"@[0] == 'A' && "INSERT"@[0] == 'I');
    assert("UPDATE"@[0] == 'U' && "U"@[0] == 'U' && "MODIFY"@[0] == 'M' && "CHANGE"@[0] == 'C');
    assert("DELETE"@[0] == 'D' && "D"@[0] == 'D' && "REMOVE"@[0] == 'R');
    assert("BUY"@[0] == 'B' && "BID"@[0] == 'B' && "B"@[0] == 'B' && "YES"@[0] == 'Y');
    assert("SELL"@[0] == 'S' && "ASK"@[0] == 'A' && "S"@[0] == 'S' && "NO"@[0] == 'N');
}

} // verus!
