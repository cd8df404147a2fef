//! The tables that a dashboard reads.
use crate::fixed::{lemma_cut_multiple, Fixed, LARGEST};
use crate::number::Number;
use crate::portfolio::RoundTrip;
use crate::text::{
    chars_of, decimal, decimal_int, i64_text, joined, trim_end_char, u64_text, without_trailing,
};
use crate::types::{EquityPoint, Fill, InstrumentBreakdown, Liquidity, Side, TradeEvent};
use vstd::prelude::*;

verus! {

/// A number as the tables show it: whole numbers without a point, others with up to six decimals,
/// of which those at the end that are 0 are left out.
pub open spec fn table_number<N: Number>(x: N) -> Seq<char> {
    if x.fraction().equals(N::integer(0)) && x.magnitude().below(
        N::integer(1_000_000_000_000_000),
    ) {
        decimal_int(x.truncated() as int)
    } else {
        without_trailing(without_trailing(x.shown_fixed(6), '0'), '.')
    }
}

/// Writes a number as the tables show it.
pub fn fmt<N: Number>(x: N) -> (r: String)
    ensures
        r@ == table_number(x),
{
    if x.fract().is_equal(N::from_int(0)) && x.abs().is_below(
        N::from_int(1_000_000_000_000_000),
    ) {
        i64_text(x.to_int())
    } else {
        let s = x.fixed(6);
        let t = trim_end_char(s.as_str(), '0');
        trim_end_char(t.as_str(), '.')
    }
}

/// Whether a field has to be quoted.
pub open spec fn needs_quotes(s: Seq<char>) -> bool {
    s.contains(',') || s.contains('"') || s.contains('\n') || s.contains('\r')
}

/// The text with its quotes doubled.
pub open spec fn doubled(s: Seq<char>) -> Seq<char>
    decreases s.len(),
{
    if s.len() == 0 {
        s
    } else if s.last() == '"' {
        doubled(s.drop_last()).push('"').push('"')
    } else {
        doubled(s.drop_last()).push(s.last())
    }
}

/// A text as a field of a table.
pub open spec fn field(s: Seq<char>) -> Seq<char> {
    if needs_quotes(s) {
        "\""@ + doubled(s) + "\""@
    } else {
        s
    }
}

/// Writes a text as a field of a table: quoted where it holds a comma, a quote or a line break.
pub fn csv_field(s: &str) -> (r: String)
    ensures
        r@ == field(s@),
{
    let v = chars_of(s);
    let n: usize = v.len();
    let mut inner = String::new();
    let mut special = false;
    let mut i: usize = 0;
    proof {
        assert(inner@ =~= v@.take(0));
    }
    while i < n
        invariant
            i <= n,
            n == v@.len(),
            inner@ == doubled(v@.take(i as int)),
            special == needs_quotes(v@.take(i as int)),
        decreases n - i,
    {
        let c: char = v[i];
        let ghost head = v@.take(i as int);
        proof {
            assert(v@.take(i + 1).drop_last() =~= head);
            assert(v@.take(i + 1) =~= head.push(c));
            assert forall|q: char| head.push(c).contains(q) <==> head.contains(q) || q == c by {
                if head.contains(q) {
                    let j = choose|j: int| 0 <= j < head.len() && head[j] == q;
                    assert(head.push(c)[j] == q);
                }
                assert(head.push(c)[head.len() as int] == c);
                if head.push(c).contains(q) {
                    let j = choose|j: int| 0 <= j < head.push(c).len() && head.push(c)[j] == q;
                    if j < head.len() {
                        assert(head[j] == q);
                    }
                }
            }
        }
        if c == '"' {
            inner.push('"');
        }
        inner.push(c);
        if c == ',' || c == '"' || c == '\n' || c == '\r' {
            special = true;
        }
        i += 1;
    }
    proof {
        assert(v@.take(n as int) =~= v@);
    }
    if special {
        let mut r = "\"".to_owned();
        r.append(inner.as_str());
        r.append("\"");
        r
    } else {
        s.to_owned()
    }
}

/// What is left of a quoted field without its doubled quotes.
pub open spec fn halved(s: Seq<char>) -> Seq<char>
    decreases s.len(),
{
    if s.len() == 0 {
        s
    } else if s.len() >= 2 && s.last() == '"' && s[s.len() - 2] == '"' {
        halved(s.drop_last().drop_last()).push('"')
    } else {
        halved(s.drop_last()).push(s.last())
    }
}

proof fn lemma_doubled_reads_back(s: Seq<char>)
    ensures
        halved(doubled(s)) == s,
    decreases s.len(),
{
    if s.len() > 0 {
        let head = s.drop_last();
        lemma_doubled_reads_back(head);
        let d = doubled(head);
        assert(s =~= head.push(s.last()));
        if s.last() == '"' {
            let t = d.push('"').push('"');
            assert(t.drop_last().drop_last() =~= d);
        } else {
            let t = d.push(s.last());
            assert(t.drop_last() =~= d);
        }
    }
}

/// The text that a field of a table holds.
pub open spec fn field_value(f: Seq<char>) -> Seq<char> {
    if f.len() >= 2 && f[0] == '"' && f.last() == '"' {
        halved(f.subrange(1, f.len() - 1))
    } else {
        f
    }
}

/// A text is read back from its field.
pub proof fn law_field_reads_back(s: Seq<char>)
    ensures
        field_value(field(s)) == s,
{
    reveal_strlit("\"");
    if needs_quotes(s) {
        let f = field(s);
        assert(f.subrange(1, f.len() - 1) =~= doubled(s));
        lemma_doubled_reads_back(s);
    } else if s.len() > 0 && s[0] == '"' {
        assert(s.contains('"'));
    }
}

/// The side of a fill, as the tables show it.
pub open spec fn side_text(side: Side) -> Seq<char> {
    match side {
        Side::Bid => "BUY"@,
        Side::Ask => "SELL"@,
    }
}

/// The kind of a fill, as the tables show it.
pub open spec fn liquidity_text(liquidity: Liquidity) -> Seq<char> {
    match liquidity {
        Liquidity::Maker => "Maker"@,
        Liquidity::Taker => "Taker"@,
        Liquidity::Settle => "Settle"@,
    }
}

/// The line of a fill.
pub open spec fn fill_line<N: Number>(f: Fill<N>) -> Seq<char> {
    decimal_int(f.ts_ns as int) + ","@ + field(f.instrument@) + ","@ + decimal(f.order_id as nat)
        + ","@ + side_text(f.side) + ","@ + table_number(f.price.dollars::<N>()) + ","@
        + table_number(f.qty) + ","@ + liquidity_text(f.liquidity) + ","@ + table_number(f.fee)
        + "\n"@
}

/// The table of the fills.
pub open spec fn fills_table<N: Number>(fills: Seq<Fill<N>>) -> Seq<char>
    decreases fills.len(),
{
    if fills.len() == 0 {
        "ts_ns,instrument,order_id,side,price,qty,liquidity,fee\n"@
    } else {
        fills_table(fills.drop_last()) + fill_line(fills.last())
    }
}

/// The line of a trade.
pub open spec fn trade_line<N: Number>(t: TradeEvent<N>) -> Seq<char> {
    decimal_int(t.ts_ns as int) + ","@ + field(t.instrument@) + ","@ + if t.aggressor_yes {
        "yes"@
    } else {
        "no"@
    } + ","@ + table_number(t.price.dollars::<N>()) + ","@ + table_number(t.size) + "\n"@
}

/// The table of the trades.
pub open spec fn trades_table<N: Number>(trades: Seq<TradeEvent<N>>) -> Seq<char>
    decreases trades.len(),
{
    if trades.len() == 0 {
        "ts_ns,instrument,aggressor_side,price,size\n"@
    } else {
        trades_table(trades.drop_last()) + trade_line(trades.last())
    }
}

/// The line of a round trip.
pub open spec fn trip_line<N: Number>(t: RoundTrip<N>) -> Seq<char> {
    field(t.instrument@) + ","@ + decimal_int(t.entry_ts as int) + ","@ + decimal_int(
        t.exit_ts as int,
    ) + ","@ + table_number(t.qty) + ","@ + table_number(t.entry_price) + ","@ + table_number(
        t.exit_price,
    ) + ","@ + table_number(t.pnl) + "\n"@
}

/// The table of the round trips.
pub open spec fn trips_table<N: Number>(trips: Seq<RoundTrip<N>>) -> Seq<char>
    decreases trips.len(),
{
    if trips.len() == 0 {
        "instrument,entry_ts_ns,exit_ts_ns,qty,entry_price,exit_price,pnl\n"@
    } else {
        trips_table(trips.drop_last()) + trip_line(trips.last())
    }
}

/// The line of an instrument.
pub open spec fn stats_line<N: Number>(b: InstrumentBreakdown<N>) -> Seq<char> {
    field(b.instrument@) + ","@ + table_number(b.pnl) + ","@ + decimal_int(b.num_fills as int)
        + ","@ + decimal_int(b.num_round_trips as int) + ","@ + table_number(b.net_position) + ","@
        + table_number(b.volume) + "\n"@
}

/// The table of the instruments.
pub open spec fn stats_table<N: Number>(rows: Seq<InstrumentBreakdown<N>>) -> Seq<char>
    decreases rows.len(),
{
    if rows.len() == 0 {
        "instrument,pnl,num_fills,num_round_trips,net_position,volume\n"@
    } else {
        stats_table(rows.drop_last()) + stats_line(rows.last())
    }
}

/// The table of the equity curve, and its peak so far. Each line has the fall from the peak.
pub open spec fn equity_table<N: Number>(curve: Seq<EquityPoint<N>>) -> (Seq<char>, N)
    decreases curve.len(),
{
    if curve.len() == 0 {
        ("ts_ns,total,currency,drawdown\n"@, N::unbounded().negated())
    } else {
        let (before, was) = equity_table(curve.drop_last());
        let p = curve.last();
        let peak = if was.below(p.total) {
            p.total
        } else {
            was
        };
        (
            before + (decimal_int(p.ts_ns as int) + ","@ + table_number(p.total) + ","@ + field(
                p.currency@,
            ) + ","@ + table_number(peak.difference(p.total)) + "\n"@),
            peak,
        )
    }
}

/// Writes the table of the equity curve.
pub fn equity_csv<N: Number>(curve: &[EquityPoint<N>]) -> (r: String)
    ensures
        r@ == equity_table(curve@).0,
{
    let mut out = "ts_ns,total,currency,drawdown\n".to_owned();
    let mut peak = N::infinity().neg();
    let n: usize = curve.len();
    let mut i: usize = 0;
    while i < n
        invariant
            i <= n,
            n == curve@.len(),
            (out@, peak) == equity_table(curve@.take(i as int)),
        decreases n - i,
    {
        let p = &curve[i];
        proof {
            assert(curve@.take(i + 1).drop_last() =~= curve@.take(i as int));
        }
        if peak.is_below(p.total) {
            peak = p.total;
        }
        let mut s = i64_text(p.ts_ns);
        s.append(",");
        s.append(fmt(p.total).as_str());
        s.append(",");
        s.append(csv_field(p.currency.as_str()).as_str());
        s.append(",");
        s.append(fmt(peak.minus(p.total)).as_str());
        s.append("\n");
        out.append(s.as_str());
        i += 1;
    }
    proof {
        assert(curve@.take(n as int) =~= curve@);
    }
    out
}

/// Writes the table of the fills.
pub fn fills_csv<N: Number>(fills: &[Fill<N>]) -> (r: String)
    ensures
        r@ == fills_table(fills@),
{
    let mut out = "ts_ns,instrument,order_id,side,price,qty,liquidity,fee\n".to_owned();
    let n: usize = fills.len();
    let mut i: usize = 0;
    while i < n
        invariant
            i <= n,
            n == fills@.len(),
            out@ == fills_table(fills@.take(i as int)),
        decreases n - i,
    {
        let f = &fills[i];
        proof {
            assert(fills@.take(i + 1).drop_last() =~= fills@.take(i as int));
        }
        let mut s = i64_text(f.ts_ns);
        s.append(",");
        s.append(csv_field(f.instrument.as_str()).as_str());
        s.append(",");
        s.append(u64_text(f.order_id).as_str());
        s.append(",");
        match f.side {
            Side::Bid => s.append("BUY"),
            Side::Ask => s.append("SELL"),
        }
        s.append(",");
        s.append(fmt(f.price.to_dollars::<N>()).as_str());
        s.append(",");
        s.append(fmt(f.qty).as_str());
        s.append(",");
        match f.liquidity {
            Liquidity::Maker => s.append("Maker"),
            Liquidity::Taker => s.append("Taker"),
            Liquidity::Settle => s.append("Settle"),
        }
        s.append(",");
        s.append(fmt(f.fee).as_str());
        s.append("\n");
        out.append(s.as_str());
        i += 1;
    }
    proof {
        assert(fills@.take(n as int) =~= fills@);
    }
    out
}

/// Writes the table of the trades.
pub fn trades_csv<N: Number>(trades: &[TradeEvent<N>]) -> (r: String)
    ensures
        r@ == trades_table(trades@),
{
    let mut out = "ts_ns,instrument,aggressor_side,price,size\n".to_owned();
    let n: usize = trades.len();
    let mut i: usize = 0;
    while i < n
        invariant
            i <= n,
            n == trades@.len(),
            out@ == trades_table(trades@.take(i as int)),
        decreases n - i,
    {
        let t = &trades[i];
        proof {
            assert(trades@.take(i + 1).drop_last() =~= trades@.take(i as int));
        }
        let mut s = i64_text(t.ts_ns);
        s.append(",");
        s.append(csv_field(t.instrument.as_str()).as_str());
        s.append(",");
        if t.aggressor_yes {
            s.append("yes");
        } else {
            s.append("no");
        }
        s.append(",");
        s.append(fmt(t.price.to_dollars::<N>()).as_str());
        s.append(",");
        s.append(fmt(t.size).as_str());
        s.append("\n");
        out.append(s.as_str());
        i += 1;
    }
    proof {
        assert(trades@.take(n as int) =~= trades@);
    }
    out
}

/// Writes the table of the round trips.
pub fn round_trips_csv<N: Number>(trips: &[RoundTrip<N>]) -> (r: String)
    ensures
        r@ == trips_table(trips@),
{
    let mut out = "instrument,entry_ts_ns,exit_ts_ns,qty,entry_price,exit_price,pnl\n".to_owned();
    let n: usize = trips.len();
    let mut i: usize = 0;
    while i < n
        invariant
            i <= n,
            n == trips@.len(),
            out@ == trips_table(trips@.take(i as int)),
        decreases n - i,
    {
        let t = &trips[i];
        proof {
            assert(trips@.take(i + 1).drop_last() =~= trips@.take(i as int));
        }
        let mut s = csv_field(t.instrument.as_str());
        s.append(",");
        s.append(i64_text(t.entry_ts).as_str());
        s.append(",");
        s.append(i64_text(t.exit_ts).as_str());
        s.append(",");
        s.append(fmt(t.qty).as_str());
        s.append(",");
        s.append(fmt(t.entry_price).as_str());
        s.append(",");
        s.append(fmt(t.exit_price).as_str());
        s.append(",");
        s.append(fmt(t.pnl).as_str());
        s.append("\n");
        out.append(s.as_str());
        i += 1;
    }
    proof {
        assert(trips@.take(n as int) =~= trips@);
    }
    out
}

/// Writes the table of the instruments.
pub fn instrument_stats_csv<N: Number>(rows: &[InstrumentBreakdown<N>]) -> (r: String)
    ensures
        r@ == stats_table(rows@),
{
    let mut out = "instrument,pnl,num_fills,num_round_trips,net_position,volume\n".to_owned();
    let n: usize = rows.len();
    let mut i: usize = 0;
    while i < n
        invariant
            i <= n,
            n == rows@.len(),
            out@ == stats_table(rows@.take(i as int)),
        decreases n - i,
    {
        let b = &rows[i];
        proof {
            assert(rows@.take(i + 1).drop_last() =~= rows@.take(i as int));
        }
        let mut s = csv_field(b.instrument.as_str());
        s.append(",");
        s.append(fmt(b.pnl).as_str());
        s.append(",");
        s.append(i64_text(b.num_fills).as_str());
        s.append(",");
        s.append(i64_text(b.num_round_trips).as_str());
        s.append(",");
        s.append(fmt(b.net_position).as_str());
        s.append(",");
        s.append(fmt(b.volume).as_str());
        s.append("\n");
        out.append(s.as_str());
        i += 1;
    }
    proof {
        assert(rows@.take(n as int) =~= rows@);
    }
    out
}

/// What is known of a run beside its report.
#[derive(Debug, Clone, PartialEq)]
pub struct ExportMeta<N> {
    pub strategy: String,
    pub source: String,
    pub instrument_filter: Option<String>,
    pub start: Option<String>,
    pub end: Option<String>,
    pub starting_balance: N,
    pub currency: String,
    /// 0 until the tables are stamped.
    pub generated_unix_ns: i64,
}

// ---- what the tables hold ----------------------------------------------------------------------

/// A line of a table: its fields with commas between them.
pub open spec fn line_of(fields: Seq<Seq<char>>) -> Seq<char> {
    joined(fields, ","@) + "\n"@
}

proof fn lemma_joined_push(fields: Seq<Seq<char>>, f: Seq<char>)
    ensures
        fields.len() == 0 ==> joined(fields.push(f), ","@) == f,
        fields.len() > 0 ==> joined(fields.push(f), ","@) == joined(fields, ","@) + ","@ + f,
{
    assert(fields.push(f).drop_last() =~= fields);
    assert(fields.push(f).last() == f);
}

/// The tables of fills, trades, round trips and instruments have a line for each, in their order,
/// behind the line of headings. A line has a field for each heading, and what it holds is what the
/// heading names.
pub proof fn law_tables_have_a_line_for_each<N: Number>(
    fills: Seq<Fill<N>>,
    f: Fill<N>,
    trades: Seq<TradeEvent<N>>,
    t: TradeEvent<N>,
    trips: Seq<RoundTrip<N>>,
    r: RoundTrip<N>,
    rows: Seq<InstrumentBreakdown<N>>,
    b: InstrumentBreakdown<N>,
)
    ensures
        fills_table(fills.push(f)) == fills_table(fills) + line_of(
            Seq::empty().push(decimal_int(f.ts_ns as int)).push(field(f.instrument@)).push(
                decimal(f.order_id as nat),
            ).push(side_text(f.side)).push(table_number(f.price.dollars::<N>())).push(
                table_number(f.qty),
            ).push(liquidity_text(f.liquidity)).push(table_number(f.fee)),
        ),
        trades_table(trades.push(t)) == trades_table(trades) + line_of(
            Seq::empty().push(decimal_int(t.ts_ns as int)).push(field(t.instrument@)).push(
                if t.aggressor_yes {
                    "yes"@
                } else {
                    "no"@
                },
            ).push(table_number(t.price.dollars::<N>())).push(table_number(t.size)),
        ),
        trips_table(trips.push(r)) == trips_table(trips) + line_of(
            Seq::empty().push(field(r.instrument@)).push(decimal_int(r.entry_ts as int)).push(
                decimal_int(r.exit_ts as int),
            ).push(table_number(r.qty)).push(table_number(r.entry_price)).push(
                table_number(r.exit_price),
            ).push(table_number(r.pnl)),
        ),
        stats_table(rows.push(b)) == stats_table(rows) + line_of(
            Seq::empty().push(field(b.instrument@)).push(table_number(b.pnl)).push(
                decimal_int(b.num_fills as int),
            ).push(decimal_int(b.num_round_trips as int)).push(table_number(b.net_position)).push(
                table_number(b.volume),
            ),
        ),
{
    assert(fills.push(f).drop_last() =~= fills);
    assert(trades.push(t).drop_last() =~= trades);
    assert(trips.push(r).drop_last() =~= trips);
    assert(rows.push(b).drop_last() =~= rows);
    let e = Seq::<Seq<char>>::empty();
    let f1 = e.push(decimal_int(f.ts_ns as int));
    let f2 = f1.push(field(f.instrument@));
    let f3 = f2.push(decimal(f.order_id as nat));
    let f4 = f3.push(side_text(f.side));
    let f5 = f4.push(table_number(f.price.dollars::<N>()));
    let f6 = f5.push(table_number(f.qty));
    let f7 = f6.push(liquidity_text(f.liquidity));
    lemma_joined_push(e, decimal_int(f.ts_ns as int));
    lemma_joined_push(f1, field(f.instrument@));
    lemma_joined_push(f2, decimal(f.order_id as nat));
    lemma_joined_push(f3, side_text(f.side));
    lemma_joined_push(f4, table_number(f.price.dollars::<N>()));
    lemma_joined_push(f5, table_number(f.qty));
    lemma_joined_push(f6, liquidity_text(f.liquidity));
    lemma_joined_push(f7, table_number(f.fee));
    let taker = if t.aggressor_yes {
        "yes"@
    } else {
        "no"@
    };
    let t1 = e.push(decimal_int(t.ts_ns as int));
    let t2 = t1.push(field(t.instrument@));
    let t3 = t2.push(taker);
    let t4 = t3.push(table_number(t.price.dollars::<N>()));
    lemma_joined_push(e, decimal_int(t.ts_ns as int));
    lemma_joined_push(t1, field(t.instrument@));
    lemma_joined_push(t2, taker);
    lemma_joined_push(t3, table_number(t.price.dollars::<N>()));
    lemma_joined_push(t4, table_number(t.size));
    let r1 = e.push(field(r.instrument@));
    let r2 = r1.push(decimal_int(r.entry_ts as int));
    let r3 = r2.push(decimal_int(r.exit_ts as int));
    let r4 = r3.push(table_number(r.qty));
    let r5 = r4.push(table_number(r.entry_price));
    let r6 = r5.push(table_number(r.exit_price));
    lemma_joined_push(e, field(r.instrument@));
    lemma_joined_push(r1, decimal_int(r.entry_ts as int));
    lemma_joined_push(r2, decimal_int(r.exit_ts as int));
    lemma_joined_push(r3, table_number(r.qty));
    lemma_joined_push(r4, table_number(r.entry_price));
    lemma_joined_push(r5, table_number(r.exit_price));
    lemma_joined_push(r6, table_number(r.pnl));
    let b1 = e.push(field(b.instrument@));
    let b2 = b1.push(table_number(b.pnl));
    let b3 = b2.push(decimal_int(b.num_fills as int));
    let b4 = b3.push(decimal_int(b.num_round_trips as int));
    let b5 = b4.push(table_number(b.net_position));
    lemma_joined_push(e, field(b.instrument@));
    lemma_joined_push(b1, table_number(b.pnl));
    lemma_joined_push(b2, decimal_int(b.num_fills as int));
    lemma_joined_push(b3, decimal_int(b.num_round_trips as int));
    lemma_joined_push(b4, table_number(b.net_position));
    lemma_joined_push(b5, table_number(b.volume));
}

/// A bid is shown as a purchase and an ask as a sale; a fill is shown as the kind that it is.
pub proof fn law_words_show_sides_and_kinds()
    ensures
        side_text(Side::Bid) == seq!['B', 'U', 'Y'],
        side_text(Side::Ask) == seq!['S', 'E', 'L', 'L'],
        liquidity_text(Liquidity::Maker) == seq!['M', 'a', 'k', 'e', 'r'],
        liquidity_text(Liquidity::Taker) == seq!['T', 'a', 'k', 'e', 'r'],
        liquidity_text(Liquidity::Settle) == seq!['S', 'e', 't', 't', 'l', 'e'],
{
    reveal_strlit("BUY");
    reveal_strlit("SELL");
    reveal_strlit("Maker");
    reveal_strlit("Taker");
    reveal_strlit("Settle");
    assert("BUY"@ =~= seq!['B', 'U', 'Y']);
    assert("SELL"@ =~= seq!['S', 'E', 'L', 'L']);
    assert("Maker"@ =~= seq!['M', 'a', 'k', 'e', 'r']);
    assert("Taker"@ =~= seq!['T', 'a', 'k', 'e', 'r']);
    assert("Settle"@ =~= seq!['S', 'e', 't', 't', 'l', 'e']);
}

/// A whole number is shown as the integer that it is.
pub proof fn law_whole_numbers_are_shown_whole(k: int)
    requires
        -9_000_000_000_000 <= k <= 9_000_000_000_000,
    ensures
        table_number(Fixed { units: (k * 1_000_000) as i64 }) == decimal_int(k),
{
    let x = Fixed { units: (k * 1_000_000) as i64 };
    assert(x.units == k * 1_000_000);
    lemma_cut_multiple(k, 1_000_000);
    assert(Fixed::integer(0).units == 0);
    assert(Fixed::integer(1_000_000_000_000_000).units == LARGEST);
    assert(x.fraction().units == 0);
    assert(x.truncated() == k);
}

/// Each point of the equity curve has a line: its time, its level, its currency, and how far its level
/// lies below the highest so far.
pub proof fn law_equity_lines_show_the_fall(curve: Seq<EquityPoint<Fixed>>, p: EquityPoint<Fixed>)
    requires
        forall|i: int|
            0 <= i < curve.len() ==> -1_000_000_000_000_000_000 <= (
            #[trigger] curve[i]).total.units <= 1_000_000_000_000_000_000,
        -1_000_000_000_000_000_000 <= p.total.units <= 1_000_000_000_000_000_000,
    ensures
        ({
            let peak = equity_table(curve.push(p)).1.units;
            let fall = Fixed { units: (peak - p.total.units) as i64 };
            &&& p.total.units <= peak
            &&& forall|i: int| 0 <= i < curve.len() ==> (#[trigger] curve[i]).total.units <= peak
            &&& peak == p.total.units || exists|i: int|
                0 <= i < curve.len() && (#[trigger] curve[i]).total.units == peak
            &&& fall.units == peak - p.total.units
            &&& equity_table(curve.push(p)).0 == equity_table(curve).0 + line_of(
                Seq::empty().push(decimal_int(p.ts_ns as int)).push(table_number(p.total)).push(
                    field(p.currency@),
                ).push(table_number(fall)),
            )
        }),
{
    let all = curve.push(p);
    assert(all.drop_last() =~= curve);
    assert(all.last() == p);
    lemma_peak(curve);
    let peak = equity_table(all).1;
    let e = Seq::<Seq<char>>::empty();
    let f1 = e.push(decimal_int(p.ts_ns as int));
    let f2 = f1.push(table_number(p.total));
    let f3 = f2.push(field(p.currency@));
    let fall = peak.difference(p.total);
    lemma_joined_push(e, decimal_int(p.ts_ns as int));
    lemma_joined_push(f1, table_number(p.total));
    lemma_joined_push(f2, field(p.currency@));
    lemma_joined_push(f3, table_number(fall));
}

proof fn lemma_peak(curve: Seq<EquityPoint<Fixed>>)
    requires
        forall|i: int|
            0 <= i < curve.len() ==> -1_000_000_000_000_000_000 <= (
            #[trigger] curve[i]).total.units <= 1_000_000_000_000_000_000,
    ensures
        ({
            let peak = equity_table(curve).1.units;
            &&& forall|i: int| 0 <= i < curve.len() ==> (#[trigger] curve[i]).total.units <= peak
            &&& curve.len() > 0 ==> exists|i: int|
                0 <= i < curve.len() && (#[trigger] curve[i]).total.units == peak
            &&& curve.len() == 0 ==> peak < -1_000_000_000_000_000_000
        }),
    decreases curve.len(),
{
    if curve.len() > 0 {
        let rest = curve.drop_last();
        let n = curve.len() - 1;
        assert forall|i: int| 0 <= i < rest.len() implies -1_000_000_000_000_000_000 <= (
        #[trigger] rest[i]).total.units <= 1_000_000_000_000_000_000 by {
            assert(rest[i] == curve[i]);
        }
        lemma_peak(rest);
        let peak = equity_table(curve).1.units;
        let was = equity_table(rest).1.units;
        assert(curve.last() == curve[n]);
        assert forall|i: int| 0 <= i < curve.len() implies (#[trigger] curve[i]).total.units
            <= peak by {
            if i < n {
                assert(rest[i] == curve[i]);
            }
        }
        if peak == was && rest.len() > 0 {
            let i = choose|i: int| 0 <= i < rest.len() && (#[trigger] rest[i]).total.units == was;
            assert(curve[i] == rest[i]);
        } else {
            assert(curve[n].total.units == peak);
        }
    }
}

} // verus!
