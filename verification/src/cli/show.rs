//! How numbers, times and events are shown.
use crate::config::{LatencyConfig, LatencyDist};
use crate::foreign::{minute_text, second_text, show_minute, show_second};
use crate::number::Number;
use crate::text::{
    chars_of, decimal, decimal_int, digit, digit_char, i64_text, same_text, string_of,
    trim_end_char, u64_text, without_trailing,
};
use crate::types::{Action, MarketEvent, Side};
use vstd::prelude::*;

verus! {

/// Digits with a comma between every three, from the right.
pub open spec fn grouped(s: Seq<char>) -> Seq<char>
    decreases s.len(),
{
    if s.len() <= 3 {
        s
    } else {
        grouped(s.take(s.len() - 3)) + ","@ + s.skip(s.len() - 3)
    }
}

/// A whole number with commas.
pub open spec fn int_text(n: int) -> Seq<char> {
    if n < 0 {
        "-"@ + grouped(decimal((-n) as nat))
    } else {
        grouped(decimal(n as nat))
    }
}

proof fn lemma_three_digits(n: nat)
    ensures
        n < 1000 ==> decimal(n).len() <= 3,
        n >= 1000 ==> decimal(n) == decimal(n / 1000).push(digit_char((n / 100 % 10) as int)).push(
            digit_char((n / 10 % 10) as int),
        ).push(digit_char((n % 10) as int)) && decimal(n / 1000).len() >= 1,
{
    reveal_with_fuel(decimal, 4);
}

fn group(n: u64) -> (r: String)
    ensures
        r@ == grouped(decimal(n as nat)),
    decreases n,
{
    proof {
        lemma_three_digits(n as nat);
    }
    if n < 1000 {
        return u64_text(n);
    }
    let mut s = group(n / 1000);
    let ghost head = s@;
    s.append(",");
    let ghost before = s@;
    s.push(digit(n / 100 % 10));
    s.push(digit(n / 10 % 10));
    s.push(digit(n % 10));
    proof {
        let d = decimal(n as nat);
        assert(d.take(d.len() - 3) =~= decimal((n / 1000) as nat));
        assert(s@ =~= before + d.skip(d.len() - 3));
    }
    s
}

/// Writes a whole number with commas between every three digits.
pub fn fmt_int(n: i64) -> (r: String)
    ensures
        r@ == int_text(n as int),
{
    if n < 0 {
        let m: u64 = (-(n as i128)) as u64;
        let mut s = "-".to_owned();
        s.append(group(m).as_str());
        s
    } else {
        group(n as u64)
    }
}

/// Writes a count with commas between every three digits.
pub fn fmt_count(n: u64) -> (r: String)
    ensures
        r@ == int_text(n as int),
{
    group(n)
}

/// Writes an amount of money: two decimals, and a sign only below 0.
pub fn money<N: Number>(x: N) -> (r: String)
    ensures
        r@ == x.shown_fixed(2),
{
    x.fixed(2)
}

/// A number with two decimals and its sign.
pub open spec fn signed_text<N: Number>(x: N) -> Seq<char> {
    let s = x.shown_fixed(2);
    if s.len() > 0 && s[0] == '-' || s == "NaN"@ {
        s
    } else {
        "+"@ + s
    }
}

/// Writes a number with two decimals and its sign.
pub fn signed<N: Number>(x: N) -> (r: String)
    ensures
        r@ == signed_text(x),
{
    let s = x.fixed(2);
    let v = chars_of(s.as_str());
    if v.len() > 0 && v[0] == '-' || same_text(s.as_str(), "NaN") {
        s
    } else {
        let mut t = "+".to_owned();
        t.append(s.as_str());
        t
    }
}

/// A number as the tables of a sweep show it.
pub open spec fn metric_text<N: Number>(v: N) -> Seq<char> {
    let s = without_trailing(without_trailing(v.shown_fixed(4), '0'), '.');
    if !v.finite() {
        "n/a"@
    } else if s.len() == 0 || s == "-"@ {
        "0"@
    } else {
        s
    }
}

/// Writes a number for the tables of a sweep: four decimals, without those at the end that are 0.
pub fn fmt_metric<N: Number>(v: N) -> (r: String)
    ensures
        r@ == metric_text(v),
{
    if !v.is_finite() {
        return "n/a".to_owned();
    }
    let s = v.fixed(4);
    let t = trim_end_char(s.as_str(), '0');
    let u = trim_end_char(t.as_str(), '.');
    if u.as_str().unicode_len() == 0 || same_text(u.as_str(), "-") {
        "0".to_owned()
    } else {
        u
    }
}

/// A number as a cell of a table: empty where it is not finite.
pub open spec fn cell_text<N: Number>(v: N) -> Seq<char> {
    if v.finite() {
        v.shown()
    } else {
        Seq::empty()
    }
}

/// Writes a number as a cell of a table.
pub fn fmt_csv<N: Number>(v: N) -> (r: String)
    ensures
        r@ == cell_text(v),
{
    if v.is_finite() {
        v.text()
    } else {
        let s = String::new();
        assert(s@ =~= Seq::<char>::empty());
        s
    }
}

/// A text cut to a length, with a sign that it was.
pub open spec fn cut(s: Seq<char>, max: nat) -> Seq<char> {
    if s.len() <= max {
        s
    } else {
        s.take(if max == 0 {
            0
        } else {
            max - 1
        }).push('\u{2026}')
    }
}

/// Cuts a text to a length.
pub fn truncate(s: &str, max: usize) -> (r: String)
    ensures
        r@ == cut(s@, max as nat),
{
    let v = chars_of(s);
    if v.len() <= max {
        s.to_owned()
    } else {
        let keep: usize = if max == 0 {
            0
        } else {
            max - 1
        };
        let mut out = string_of(&v, 0, keep);
        proof {
            assert(v@.subrange(0, keep as int) =~= v@.take(keep as int));
        }
        out.push('\u{2026}');
        out
    }
}

/// A number as a preview shows it.
pub open spec fn plain_text<N: Number>(x: N) -> Seq<char> {
    if x.fraction().equals(N::integer(0)) {
        decimal_int(x.truncated() as int)
    } else {
        x.shown()
    }
}

/// Writes a number for a preview: whole numbers without a point.
pub fn trim_f<N: Number>(x: N) -> (r: String)
    ensures
        r@ == plain_text(x),
{
    if x.fract().is_equal(N::from_int(0)) {
        i64_text(x.to_int())
    } else {
        x.text()
    }
}

/// The whole part of a quotient by a number above 0.
pub open spec fn whole_quotient(a: int, d: int) -> int {
    if a >= 0 {
        a / d
    } else {
        -((-a) / d)
    }
}

/// The whole seconds of a time.
pub open spec fn seconds_of(ts_ns: i64) -> int {
    whole_quotient(ts_ns as int, 1_000_000_000)
}

fn whole_seconds(ts_ns: i64) -> (r: i64)
    ensures
        r == seconds_of(ts_ns),
        -9_223_372_037 < r < 9_223_372_037,
{
    if ts_ns >= 0 {
        ts_ns / 1_000_000_000
    } else {
        let m: u64 = (-(ts_ns as i128)) as u64;
        let q: u64 = m / 1_000_000_000;
        -(q as i64)
    }
}

/// The part of a second of a time, as it is handed on with the whole seconds: before 1970 it is
/// no part of a second at all.
pub open spec fn second_part(ns: i64) -> u32 {
    let rem = ns - seconds_of(ns) * 1_000_000_000;
    if rem < 0 {
        (rem + 0x1_0000_0000) as u32
    } else {
        rem as u32
    }
}

fn part_of_second(ns: i64) -> (r: u32)
    ensures
        r == second_part(ns),
{
    let secs: i64 = whole_seconds(ns);
    let rem: i128 = ns as i128 - secs as i128 * 1_000_000_000;
    proof {
        assert(-1_000_000_000 < rem < 1_000_000_000);
    }
    if rem < 0 {
        (rem + 0x1_0000_0000) as u32
    } else {
        rem as u32
    }
}

/// A time down to the minute, in UTC; its number where no date has it.
pub open spec fn ts_text(ns: i64) -> Seq<char> {
    match minute_text(seconds_of(ns) as i64, second_part(ns)) {
        Some(s) => s,
        None => decimal_int(ns as int),
    }
}

/// A time down to the second, in UTC; its number where no date has it.
pub open spec fn ts_full_text(ns: i64) -> Seq<char> {
    match second_text(seconds_of(ns) as i64, second_part(ns)) {
        Some(s) => s,
        None => decimal_int(ns as int),
    }
}

/// Writes a time down to the minute.
pub fn fmt_ts(ns: i64) -> (r: String)
    ensures
        r@ == ts_text(ns),
{
    match show_minute(whole_seconds(ns), part_of_second(ns)) {
        Some(s) => s,
        None => i64_text(ns),
    }
}

/// Writes a time down to the second.
pub fn fmt_ts_full(ns: i64) -> (r: String)
    ensures
        r@ == ts_full_text(ns),
{
    match show_second(whole_seconds(ns), part_of_second(ns)) {
        Some(s) => s,
        None => i64_text(ns),
    }
}

/// A span of time.
pub open spec fn span_text(first_ns: i64, last_ns: i64) -> Seq<char> {
    if first_ns == 0 && last_ns == 0 {
        "(empty)"@
    } else {
        ts_text(first_ns) + " .. "@ + ts_text(last_ns)
    }
}

/// Writes a span of time.
pub fn fmt_span(first_ns: i64, last_ns: i64) -> (r: String)
    ensures
        r@ == span_text(first_ns, last_ns),
{
    if first_ns == 0 && last_ns == 0 {
        return "(empty)".to_owned();
    }
    let mut s = fmt_ts(first_ns);
    s.append(" .. ");
    s.append(fmt_ts(last_ns).as_str());
    s
}

/// As many spaces as are missing to a width.
pub open spec fn gap(len: nat, width: nat) -> Seq<char> {
    if len < width {
        Seq::new((width - len) as nat, |i: int| ' ')
    } else {
        Seq::empty()
    }
}

/// A text brought to a width from the right.
pub open spec fn left(s: Seq<char>, width: nat) -> Seq<char> {
    s + gap(s.len(), width)
}

/// A text brought to a width from the left.
pub open spec fn right(s: Seq<char>, width: nat) -> Seq<char> {
    gap(s.len(), width) + s
}

/// A text brought to a width from both sides; an odd space goes behind it.
pub open spec fn centered(s: Seq<char>, width: nat) -> Seq<char> {
    if s.len() < width {
        let missing = (width - s.len()) as nat;
        gap(0, missing / 2) + s + gap(0, (missing - missing / 2) as nat)
    } else {
        s
    }
}

/// Writes spaces.
fn spaces(n: usize) -> (r: String)
    ensures
        r@ == gap(0, n as nat),
{
    let mut s = String::new();
    let mut i: usize = 0;
    proof {
        assert(s@ =~= gap(0, 0));
    }
    while i < n
        invariant
            i <= n,
            s@ == gap(0, i as nat),
        decreases n - i,
    {
        let ghost before = s@;
        s.push(' ');
        proof {
            assert(s@ =~= gap(0, (i + 1) as nat));
        }
        i += 1;
    }
    s
}

/// Brings a text to a width from the right.
pub fn pad_right(s: &str, width: usize) -> (r: String)
    ensures
        r@ == left(s@, width as nat),
{
    let n: usize = s.unicode_len();
    let mut r = s.to_owned();
    if n < width {
        r.append(spaces(width - n).as_str());
        proof {
            assert(gap(0, (width - n) as nat) =~= gap(n as nat, width as nat));
        }
    } else {
        proof {
            assert(r@ =~= s@ + gap(n as nat, width as nat));
        }
    }
    r
}

/// Brings a text to a width from the left.
pub fn pad_left(s: &str, width: usize) -> (r: String)
    ensures
        r@ == right(s@, width as nat),
{
    let n: usize = s.unicode_len();
    if n < width {
        let mut r = spaces(width - n);
        r.append(s);
        proof {
            assert(gap(0, (width - n) as nat) =~= gap(n as nat, width as nat));
        }
        r
    } else {
        let r = s.to_owned();
        proof {
            assert(r@ =~= gap(n as nat, width as nat) + s@);
        }
        r
    }
}

/// Brings a text to a width from both sides.
pub fn center(s: &str, width: usize) -> (r: String)
    ensures
        r@ == centered(s@, width as nat),
{
    let n: usize = s.unicode_len();
    if n < width {
        let missing: usize = width - n;
        let mut r = spaces(missing / 2);
        r.append(s);
        r.append(spaces(missing - missing / 2).as_str());
        r
    } else {
        s.to_owned()
    }
}

/// How many bytes a character takes.
pub open spec fn char_bytes(c: char) -> nat {
    let n = c as int;
    if n < 0x80 {
        1
    } else if n < 0x800 {
        2
    } else if n < 0x10000 {
        3
    } else {
        4
    }
}

/// How many bytes a text takes.
pub open spec fn byte_len(s: Seq<char>) -> nat
    decreases s.len(),
{
    if s.len() == 0 {
        0
    } else {
        byte_len(s.drop_last()) + char_bytes(s.last())
    }
}

/// How many bytes a text takes, up to a limit.
pub fn bytes_in(s: &str, limit: usize) -> (r: usize)
    ensures
        r == if byte_len(s@) > limit {
            limit as nat
        } else {
            byte_len(s@)
        },
{
    let v = chars_of(s);
    let n: usize = v.len();
    let mut total: usize = 0;
    let mut i: usize = 0;
    while i < n
        invariant
            i <= n,
            n == v@.len(),
            v@ == s@,
            total <= limit,
            total == byte_len(v@.take(i as int)),
        decreases n - i,
    {
        let ch: char = v[i];
        let two: char = '\u{80}';
        let three: char = '\u{800}';
        let four: char = '\u{10000}';
        let b: usize = if ch < two {
            1
        } else if ch < three {
            2
        } else if ch < four {
            3
        } else {
            4
        };
        proof {
            assert(v@.take(i + 1).drop_last() =~= v@.take(i as int));
            assert(byte_len(v@.take(i + 1)) == total + b);
            lemma_bytes_grow(v@, i + 1);
        }
        if limit - total < b {
            return limit;
        }
        total += b;
        i += 1;
    }
    proof {
        assert(v@.take(n as int) =~= v@);
    }
    total
}

proof fn lemma_bytes_grow(s: Seq<char>, i: int)
    requires
        0 <= i <= s.len(),
    ensures
        byte_len(s.take(i)) <= byte_len(s),
    decreases s.len() - i,
{
    if i == s.len() {
        assert(s.take(i) =~= s);
    } else {
        assert(s.take(i + 1).drop_last() =~= s.take(i));
        lemma_bytes_grow(s, i + 1);
    }
}

/// A price in cents and in dollars.
pub open spec fn price_text<N: Number>(cents: i32, dollars: N) -> Seq<char> {
    right(decimal_int(cents as int) + "c"@, 5) + " ("@ + dollars.shown_fixed(2) + ")"@
}

fn show_price<N: Number>(cents: i32, dollars: N) -> (r: String)
    ensures
        r@ == price_text(cents, dollars),
{
    let mut c = i64_text(cents as i64);
    c.append("c");
    let mut s = pad_left(c.as_str(), 5);
    s.append(" (");
    s.append(dollars.fixed(2).as_str());
    s.append(")");
    s
}

/// An event in one line.
pub open spec fn event_text<N: Number>(ev: MarketEvent<N>) -> Seq<char> {
    match ev {
        MarketEvent::Delta(d) => {
            let side = match d.side {
                Side::Bid => "BID"@,
                Side::Ask => "ASK"@,
            };
            let action = match d.action {
                Action::Add => "ADD"@,
                Action::Update => "UPD"@,
                Action::Delete => "DEL"@,
            };
            let mark = if d.is_snapshot {
                "  [SNAPSHOT]"@
            } else {
                ""@
            };
            ts_full_text(d.ts_ns) + "  DELTA  "@ + left(d.instrument@, 24) + "  "@ + action + " "@
                + side + " @ "@ + price_text(d.price.0, d.price.dollars::<N>()) + "  size="@
                + plain_text(d.size) + "  seq="@ + decimal_int(d.sequence as int) + mark
        },
        MarketEvent::Trade(t) => {
            let head = ts_full_text(t.ts_ns) + "  TRADE  "@ + left(t.instrument@, 24) + "  X @ "@
                + price_text(t.price.0, t.price.dollars::<N>()) + "  size="@ + plain_text(t.size)
                + "  aggressor="@ + if t.aggressor_yes {
                "YES"@
            } else {
                "NO"@
            };
            if t.trade_id@.len() == 0 {
                head
            } else {
                head + "  id="@ + t.trade_id@
            }
        },
    }
}

/// Writes an event in one line.
pub fn describe_event<N: Number>(ev: &MarketEvent<N>) -> (r: String)
    ensures
        r@ == event_text(*ev),
{
    match ev {
        MarketEvent::Delta(d) => {
            let mut s = fmt_ts_full(d.ts_ns);
            s.append("  DELTA  ");
            s.append(pad_right(d.instrument.as_str(), 24).as_str());
            s.append("  ");
            match d.action {
                Action::Add => s.append("ADD"),
                Action::Update => s.append("UPD"),
                Action::Delete => s.append("DEL"),
            }
            s.append(" ");
            match d.side {
                Side::Bid => s.append("BID"),
                Side::Ask => s.append("ASK"),
            }
            s.append(" @ ");
            s.append(show_price(d.price.0, d.price.to_dollars::<N>()).as_str());
            s.append("  size=");
            s.append(trim_f(d.size).as_str());
            s.append("  seq=");
            s.append(i64_text(d.sequence).as_str());
            if d.is_snapshot {
                s.append("  [SNAPSHOT]");
            } else {
                s.append("");
            }
            s
        },
        MarketEvent::Trade(t) => {
            let mut s = fmt_ts_full(t.ts_ns);
            s.append("  TRADE  ");
            s.append(pad_right(t.instrument.as_str(), 24).as_str());
            s.append("  X @ ");
            s.append(show_price(t.price.0, t.price.to_dollars::<N>()).as_str());
            s.append("  size=");
            s.append(trim_f(t.size).as_str());
            s.append("  aggressor=");
            if t.aggressor_yes {
                s.append("YES");
            } else {
                s.append("NO");
            }
            if t.trade_id.as_str().unicode_len() > 0 {
                s.append("  id=");
                s.append(t.trade_id.as_str());
            }
            s
        },
    }
}

/// The distribution of delays in one line.
pub open spec fn dist_text(cfg: LatencyConfig) -> Seq<char> {
    match cfg.dist {
        LatencyDist::Fixed => "fixed(order="@ + decimal_int(cfg.order_latency_ns as int)
            + "ns, jitter=\u{b1}"@ + decimal_int(cfg.jitter_ns as int) + "ns)"@,
        LatencyDist::Uniform { min_ns, max_ns } => "uniform["@ + decimal_int(min_ns as int) + ", "@
            + decimal_int(max_ns as int) + "]ns"@,
        LatencyDist::Normal { mean_ns, std_ns } => "normal(mean="@ + decimal_int(mean_ns as int)
            + "ns, std="@ + decimal_int(std_ns as int) + "ns)"@,
        LatencyDist::Exponential { mean_ns } => "exponential(mean="@ + decimal_int(mean_ns as int)
            + "ns)"@,
        LatencyDist::Empirical { path } => "empirical("@ + path@ + ")"@,
    }
}

/// The delays in one line. The seed stands only with those that are drawn.
pub open spec fn latency_text(cfg: LatencyConfig) -> Seq<char> {
    let head = dist_text(cfg) + ", md="@ + decimal_int(cfg.market_data_latency_ns as int)
        + "ns, cancel="@ + decimal_int(cfg.cancel_latency_ns as int) + "ns"@;
    if cfg.dist is Fixed {
        head
    } else {
        head + ", seed="@ + decimal(cfg.seed as nat)
    }
}

/// Writes the delays in one line.
pub fn describe_latency(cfg: &LatencyConfig) -> (r: String)
    ensures
        r@ == latency_text(*cfg),
{
    let mut fixed = false;
    let mut s = match &cfg.dist {
        LatencyDist::Fixed => {
            fixed = true;
            let mut d = "fixed(order=".to_owned();
            d.append(i64_text(cfg.order_latency_ns).as_str());
            d.append("ns, jitter=\u{b1}");
            d.append(i64_text(cfg.jitter_ns).as_str());
            d.append("ns)");
            d
        },
        LatencyDist::Uniform { min_ns, max_ns } => {
            let mut d = "uniform[".to_owned();
            d.append(i64_text(*min_ns).as_str());
            d.append(", ");
            d.append(i64_text(*max_ns).as_str());
            d.append("]ns");
            d
        },
        LatencyDist::Normal { mean_ns, std_ns } => {
            let mut d = "normal(mean=".to_owned();
            d.append(i64_text(*mean_ns).as_str());
            d.append("ns, std=");
            d.append(i64_text(*std_ns).as_str());
            d.append("ns)");
            d
        },
        LatencyDist::Exponential { mean_ns } => {
            let mut d = "exponential(mean=".to_owned();
            d.append(i64_text(*mean_ns).as_str());
            d.append("ns)");
            d
        },
        LatencyDist::Empirical { path } => {
            let mut d = "empirical(".to_owned();
            d.append(path.as_str());
            d.append(")");
            d
        },
    };
    s.append(", md=");
    s.append(i64_text(cfg.market_data_latency_ns).as_str());
    s.append("ns, cancel=");
    s.append(i64_text(cfg.cancel_latency_ns).as_str());
    s.append("ns");
    if !fixed {
        s.append(", seed=");
        s.append(u64_text(cfg.seed).as_str());
    }
    s
}

} // verus!
