//! The books: what rests at each price, rebuilt from deltas.
//!
//! A snapshot starts a book anew; a gap in the sequence does not. Sequences may run across all
//! instruments of a venue, so that gaps within one of them are to be expected.
use crate::fixed::{cut_quotient, lemma_cut, lemma_cut_multiple, Fixed};
use crate::intmap::{
    climbing, law_removal_keeps_order, law_remove_then_read, law_set_then_read,
    law_values_stand_among_the_entries, value_at, with_value, without_key, IntMap,
};
use crate::number::Number;
use crate::strmap::{
    entry, law_put_then_find, lemma_map_entry, lemma_map_put, lemma_put_twice, map_list, ordered,
    put_entry, StrMap,
};
use crate::types::{law_cents_are_hundredths, Action, BookDelta, Cents, DeltaView, Side};
use vstd::prelude::*;

verus! {

/// The book of one instrument: sizes by price, in cents.
#[derive(Debug, PartialEq)]
pub struct OrderBook<N> {
    /// Those who buy YES.
    pub bids: IntMap<N>,
    /// Those who sell YES.
    pub asks: IntMap<N>,
    /// The sequence of the last delta; 0 before the first.
    pub last_seq: i64,
}

/// What a book says: its levels, from the lowest price to the highest.
#[verifier::ext_equal]
pub struct BookView<N> {
    pub bids: Seq<(i64, N)>,
    pub asks: Seq<(i64, N)>,
    pub last_seq: i64,
}

impl<N> View for OrderBook<N> {
    type V = BookView<N>;

    open spec fn view(&self) -> BookView<N> {
        BookView { bids: self.bids@, asks: self.asks@, last_seq: self.last_seq }
    }
}

/// The price of a level.
pub open spec fn level_price(k: i64) -> Cents {
    Cents(k as i32)
}

/// A side's levels once a delta was applied to them.
pub open spec fn level_set<N: Number>(
    levels: Seq<(i64, N)>,
    action: Action,
    price: Cents,
    size: N,
) -> Seq<(i64, N)> {
    if action == Action::Delete || size.at_most(N::integer(0)) {
        without_key(levels, price.0 as i64)
    } else {
        with_value(levels, price.0 as i64, size)
    }
}

impl<N: Number> BookView<N> {
    /// A book without levels.
    pub open spec fn empty() -> BookView<N> {
        BookView { bids: Seq::empty(), asks: Seq::empty(), last_seq: 0 }
    }

    /// The levels of a side.
    pub open spec fn levels(self, side: Side) -> Seq<(i64, N)> {
        match side {
            Side::Bid => self.bids,
            Side::Ask => self.asks,
        }
    }

    /// The book once a delta was applied to it. The first row of a snapshot empties it before.
    pub open spec fn after(self, d: DeltaView<N>) -> BookView<N> {
        let bids = if d.is_snapshot {
            Seq::empty()
        } else {
            self.bids
        };
        let asks = if d.is_snapshot {
            Seq::empty()
        } else {
            self.asks
        };
        match d.side {
            Side::Bid => BookView {
                bids: level_set(bids, d.action, d.price, d.size),
                asks,
                last_seq: d.sequence,
            },
            Side::Ask => BookView {
                bids,
                asks: level_set(asks, d.action, d.price, d.size),
                last_seq: d.sequence,
            },
        }
    }

    /// The highest bid.
    pub open spec fn top_bid(self) -> Option<(Cents, N)> {
        if self.bids.len() == 0 {
            None
        } else {
            Some((level_price(self.bids.last().0), self.bids.last().1))
        }
    }

    /// The lowest ask.
    pub open spec fn top_ask(self) -> Option<(Cents, N)> {
        if self.asks.len() == 0 {
            None
        } else {
            Some((level_price(self.asks[0].0), self.asks[0].1))
        }
    }

    /// The middle between the highest bid and the lowest ask, in dollars.
    pub open spec fn middle(self) -> Option<N> {
        match (self.top_bid(), self.top_ask()) {
            (Some((b, _)), Some((a, _))) => Some(
                b.dollars::<N>().sum(a.dollars::<N>()).quotient(N::integer(2)),
            ),
            _ => None,
        }
    }

    /// The distance from the highest bid to the lowest ask, in dollars.
    pub open spec fn width(self) -> Option<N> {
        match (self.top_bid(), self.top_ask()) {
            (Some((b, _)), Some((a, _))) => Some(a.dollars::<N>().difference(b.dollars::<N>())),
            _ => None,
        }
    }

    /// How much more is bid than asked at the top, as a part of both.
    pub open spec fn lean(self) -> Option<N> {
        match (self.top_bid(), self.top_ask()) {
            (Some((_, bs)), Some((_, az))) => if N::integer(0).below(bs.sum(az)) {
                Some(bs.difference(az).quotient(bs.sum(az)))
            } else {
                None
            },
            _ => None,
        }
    }

    /// The middle, drawn toward the price whose other side is the heavier.
    pub open spec fn weighted_middle(self) -> Option<N> {
        match (self.top_bid(), self.top_ask()) {
            (Some((b, bs)), Some((a, az))) => if N::integer(0).below(bs.sum(az)) {
                Some(
                    b.dollars::<N>().product(az).sum(a.dollars::<N>().product(bs)).quotient(
                        bs.sum(az),
                    ),
                )
            } else {
                None
            },
            _ => None,
        }
    }
}

fn set_level<N: Number>(levels: &mut IntMap<N>, action: Action, price: Cents, size: N)
    ensures
        final(levels)@ == level_set(old(levels)@, action, price, size),
{
    if action == Action::Delete || size.is_at_most(N::from_int(0)) {
        let _ = levels.remove(price.0 as i64);
    } else {
        levels.insert(price.0 as i64, size);
    }
}

impl<N: Number> OrderBook<N> {
    /// A book without levels.
    pub fn new() -> (r: OrderBook<N>)
        ensures
            r@ == BookView::<N>::empty(),
    {
        OrderBook { bids: IntMap::new(), asks: IntMap::new(), last_seq: 0 }
    }

    /// Applies a delta. One that begins a snapshot empties the book before.
    pub fn apply(&mut self, d: &BookDelta<N>)
        ensures
            final(self)@ == old(self)@.after(d@),
    {
        if d.is_snapshot {
            self.bids.clear();
            self.asks.clear();
        }
        match d.side {
            Side::Bid => set_level(&mut self.bids, d.action, d.price, d.size),
            Side::Ask => set_level(&mut self.asks, d.action, d.price, d.size),
        }
        self.last_seq = d.sequence;
    }

    /// Whether a sequence does not follow the last one. It is for looking at: books are never
    /// started anew for a gap.
    pub fn seq_gap(&self, incoming: i64) -> (r: bool)
        ensures
            r == (self.last_seq != 0 && incoming != self.last_seq.wrapping_add(1)),
    {
        self.last_seq != 0 && incoming != self.last_seq.wrapping_add(1)
    }

    /// The highest bid and its size.
    pub fn best_bid(&self) -> (r: Option<(Cents, N)>)
        ensures
            r == self@.top_bid(),
    {
        let n: usize = self.bids.len();
        if n == 0 {
            None
        } else {
            Some((Cents(self.bids.key_at(n - 1) as i32), *self.bids.value_ref(n - 1)))
        }
    }

    /// The lowest ask and its size.
    pub fn best_ask(&self) -> (r: Option<(Cents, N)>)
        ensures
            r == self@.top_ask(),
    {
        if self.asks.len() == 0 {
            None
        } else {
            Some((Cents(self.asks.key_at(0) as i32), *self.asks.value_ref(0)))
        }
    }

    /// The size that rests at a price; 0 where none does.
    pub fn size_at(&self, side: Side, price: Cents) -> (r: N)
        ensures
            r == size_of(self@.levels(side), price),
    {
        let found = match side {
            Side::Bid => self.bids.get(price.0 as i64),
            Side::Ask => self.asks.get(price.0 as i64),
        };
        match found {
            Some(s) => *s,
            None => N::from_int(0),
        }
    }

    /// The middle between the highest bid and the lowest ask, in dollars.
    pub fn mid(&self) -> (r: Option<N>)
        ensures
            r == self@.middle(),
    {
        match (self.best_bid(), self.best_ask()) {
            (Some((b, _)), Some((a, _))) => Some(
                b.to_dollars::<N>().plus(a.to_dollars::<N>()).over(N::from_int(2)),
            ),
            _ => None,
        }
    }

    /// The distance from the highest bid to the lowest ask, in dollars.
    pub fn spread(&self) -> (r: Option<N>)
        ensures
            r == self@.width(),
    {
        match (self.best_bid(), self.best_ask()) {
            (Some((b, _)), Some((a, _))) => Some(
                a.to_dollars::<N>().minus(b.to_dollars::<N>()),
            ),
            _ => None,
        }
    }

    /// How much more is bid than asked at the top, as a part of both.
    pub fn imbalance(&self) -> (r: Option<N>)
        ensures
            r == self@.lean(),
    {
        match (self.best_bid(), self.best_ask()) {
            (Some((_, bs)), Some((_, az))) => {
                if N::from_int(0).is_below(bs.plus(az)) {
                    Some(bs.minus(az).over(bs.plus(az)))
                } else {
                    None
                }
            },
            _ => None,
        }
    }

    /// The middle, drawn toward the price whose other side is the heavier.
    pub fn microprice(&self) -> (r: Option<N>)
        ensures
            r == self@.weighted_middle(),
    {
        match (self.best_bid(), self.best_ask()) {
            (Some((b, bs)), Some((a, az))) => {
                if N::from_int(0).is_below(bs.plus(az)) {
                    Some(
                        b.to_dollars::<N>().times(az).plus(a.to_dollars::<N>().times(bs)).over(
                            bs.plus(az),
                        ),
                    )
                } else {
                    None
                }
            },
            _ => None,
        }
    }
}

impl<N: Number> Default for OrderBook<N> {
    fn default() -> (r: OrderBook<N>)
        ensures
            r@ == BookView::<N>::empty(),
    {
        OrderBook::new()
    }
}

/// The size at a price among levels; 0 where none rests.
pub open spec fn size_of<N: Number>(levels: Seq<(i64, N)>, price: Cents) -> N {
    match value_at(levels, price.0 as i64) {
        Some(s) => s,
        None => N::integer(0),
    }
}

/// No bid is above the best bid, and no ask below the best ask.
pub proof fn law_best_prices<N: Number>(b: BookView<N>, i: int)
    requires
        climbing(b.bids),
        climbing(b.asks),
    ensures
        0 <= i < b.bids.len() ==> b.bids[i].0 <= b.bids.last().0,
        0 <= i < b.asks.len() ==> b.asks[0].0 <= b.asks[i].0,
{
}

/// A book that began anew with a snapshot holds what the snapshot's first row says and no more.
pub proof fn law_snapshot_forgets<N: Number>(a: BookView<N>, b: BookView<N>, d: DeltaView<N>)
    requires
        d.is_snapshot,
    ensures
        a.after(d) == b.after(d),
{
}

/// What books say, each under its instrument.
pub open spec fn book_list<N: Number>(books: Seq<(Seq<char>, OrderBook<N>)>) -> Seq<
    (Seq<char>, BookView<N>),
> {
    map_list(books, |b: OrderBook<N>| b@)
}

/// The books of all instruments.
#[derive(Debug)]
pub struct BookSet<N> {
    pub books: StrMap<OrderBook<N>>,
}

impl<N: Number> View for BookSet<N> {
    type V = Seq<(Seq<char>, BookView<N>)>;

    open spec fn view(&self) -> Seq<(Seq<char>, BookView<N>)> {
        book_list(self.books.listing())
    }
}

/// The book of an instrument; an empty one where there is none yet.
pub open spec fn book_or_empty<N: Number>(
    books: Seq<(Seq<char>, BookView<N>)>,
    instrument: Seq<char>,
) -> BookView<N> {
    match entry(books, instrument) {
        Some(b) => b,
        None => BookView::empty(),
    }
}

/// The books once a delta was applied to the one of its instrument.
pub open spec fn books_after<N: Number>(
    books: Seq<(Seq<char>, BookView<N>)>,
    d: DeltaView<N>,
) -> Seq<(Seq<char>, BookView<N>)> {
    put_entry(books, d.instrument, book_or_empty(books, d.instrument).after(d))
}

/// The middle of the book of an instrument.
pub open spec fn middle_of<N: Number>(
    books: Seq<(Seq<char>, BookView<N>)>,
    instrument: Seq<char>,
) -> Option<N> {
    match entry(books, instrument) {
        Some(b) => b.middle(),
        None => None,
    }
}

impl<N: Number> BookSet<N> {
    /// No book yet.
    pub fn new() -> (r: BookSet<N>)
        ensures
            r@ == Seq::<(Seq<char>, BookView<N>)>::empty(),
    {
        let r = BookSet { books: StrMap::new() };
        assert(r@ =~= Seq::<(Seq<char>, BookView<N>)>::empty());
        r
    }

    /// Applies a delta to the book of its instrument.
    pub fn apply(&mut self, d: &BookDelta<N>)
        ensures
            final(self)@ == books_after(old(self)@, d@),
    {
        let ghost f = |b: OrderBook<N>| b@;
        let ghost before = self.books.listing();
        proof {
            lemma_map_entry(before, f, d.instrument@);
        }
        match self.books.position(d.instrument.as_str()) {
            Some(i) => {
                let mut b = OrderBook::new();
                let ghost blank = b;
                self.books.swap_at(i, &mut b);
                b.apply(d);
                let ghost done = b;
                self.books.swap_at(i, &mut b);
                proof {
                    lemma_put_twice(before, d.instrument@, blank, done);
                    lemma_map_put(before, f, d.instrument@, done);
                }
            },
            None => {
                let mut b = OrderBook::new();
                b.apply(d);
                proof {
                    lemma_map_put(before, f, d.instrument@, b);
                }
                self.books.insert(d.instrument.clone(), b);
            },
        }
    }

    /// The book of an instrument.
    pub fn get(&self, instrument: &str) -> (r: Option<&OrderBook<N>>)
        ensures
            match r {
                Some(b) => entry(self@, instrument@) == Some(b@),
                None => entry(self@, instrument@) is None,
            },
    {
        proof {
            lemma_map_entry(self.books.listing(), |b: OrderBook<N>| b@, instrument@);
        }
        self.books.get(instrument)
    }

    /// The highest bid of an instrument.
    pub fn best_bid(&self, instrument: &str) -> (r: Option<(Cents, N)>)
        ensures
            r == (match entry(self@, instrument@) {
                Some(b) => b.top_bid(),
                None => None,
            }),
    {
        match self.get(instrument) {
            Some(b) => b.best_bid(),
            None => None,
        }
    }

    /// The lowest ask of an instrument.
    pub fn best_ask(&self, instrument: &str) -> (r: Option<(Cents, N)>)
        ensures
            r == (match entry(self@, instrument@) {
                Some(b) => b.top_ask(),
                None => None,
            }),
    {
        match self.get(instrument) {
            Some(b) => b.best_ask(),
            None => None,
        }
    }

    /// The middle of the book of an instrument.
    pub fn mid(&self, instrument: &str) -> (r: Option<N>)
        ensures
            r == middle_of(self@, instrument@),
    {
        match self.get(instrument) {
            Some(b) => b.mid(),
            None => None,
        }
    }
}

impl<N: Number> Default for BookSet<N> {
    fn default() -> (r: BookSet<N>)
        ensures
            r@ == Seq::<(Seq<char>, BookView<N>)>::empty(),
    {
        BookSet::new()
    }
}

impl<N: Number> Clone for OrderBook<N> {
    fn clone(&self) -> (r: OrderBook<N>)
        ensures
            r@ == self@,
    {
        OrderBook { bids: self.bids.clone(), asks: self.asks.clone(), last_seq: self.last_seq }
    }
}

impl<N: Number> Clone for BookSet<N> {
    fn clone(&self) -> (r: BookSet<N>)
        ensures
            r@ == self@,
    {
        let r = BookSet { books: self.books.clone() };
        proof {
            assert forall|i: int| 0 <= i < self@.len() implies r@[i] == self@[i] by {
                assert(r.books.listing()[i].0 == self.books.listing()[i].0);
            }
            assert(r@ =~= self@);
        }
        r
    }
}

/// What a delta does to a book. At its price and on its side there rests its size afterwards, or
/// nothing where it deletes the level or its size is not above 0. Every other level stays what it
/// was, but a snapshot leaves none of them.
pub proof fn law_deltas_rebuild_the_book<N: Number>(
    b: BookView<N>,
    d: DeltaView<N>,
    side: Side,
    price: i64,
    size: N,
)
    requires
        climbing(b.bids),
        climbing(b.asks),
    ensures
        ({
            let after = b.after(d);
            let rests = if side == Side::Bid {
                after.bids.contains((price, size))
            } else {
                after.asks.contains((price, size))
            };
            let rested = if side == Side::Bid {
                b.bids.contains((price, size))
            } else {
                b.asks.contains((price, size))
            };
            &&& side == d.side && price == d.price.0 ==> (rests <==> d.action != Action::Delete
                && !d.size.at_most(N::integer(0)) && size == d.size)
            &&& !(side == d.side && price == d.price.0) && d.is_snapshot ==> !rests
            &&& !(side == d.side && price == d.price.0) && !d.is_snapshot ==> (rests <==> rested)
            &&& after.last_seq == d.sequence
            &&& climbing(after.bids)
            &&& climbing(after.asks)
        }),
{
    let empty = Seq::<(i64, N)>::empty();
    let (bids, asks) = if d.is_snapshot {
        (empty, empty)
    } else {
        (b.bids, b.asks)
    };
    let k = d.price.0 as i64;
    let side_before = if d.side == Side::Bid {
        bids
    } else {
        asks
    };
    law_set_then_read(side_before, k, d.size, price);
    law_remove_then_read(side_before, k, price);
    law_removal_keeps_order(side_before, k);
    let after = b.after(d);
    law_values_stand_among_the_entries(after.bids, price, size);
    law_values_stand_among_the_entries(after.asks, price, size);
    law_values_stand_among_the_entries(bids, price, size);
    law_values_stand_among_the_entries(asks, price, size);
}

/// A delta changes the book of its own instrument and no other.
pub proof fn law_deltas_touch_one_book<N: Number>(
    books: Seq<(Seq<char>, BookView<N>)>,
    d: DeltaView<N>,
    other: Seq<char>,
)
    requires
        ordered(books),
    ensures
        other != d.instrument ==> entry(books_after(books, d), other) == entry(books, other),
        entry(books_after(books, d), d.instrument) == Some(
            match entry(books, d.instrument) {
                Some(b) => b.after(d),
                None => (BookView {
                    bids: Seq::empty(),
                    asks: Seq::empty(),
                    last_seq: 0,
                }).after(d),
            },
        ),
{
    law_put_then_find(
        books,
        d.instrument,
        book_or_empty(books, d.instrument).after(d),
        other,
    );
    law_put_then_find(
        books,
        d.instrument,
        book_or_empty(books, d.instrument).after(d),
        d.instrument,
    );
}

/// The best bid is a level of the book, and no bid is higher; the best ask is a level, and no ask is
/// lower. There is none exactly where the side is empty.
pub proof fn law_best_levels_are_the_extremes<N: Number>(b: BookView<N>)
    requires
        climbing(b.bids),
        climbing(b.asks),
        forall|i: int|
            0 <= i < b.bids.len() ==> i32::MIN <= (#[trigger] b.bids[i]).0 <= i32::MAX,
        forall|i: int|
            0 <= i < b.asks.len() ==> i32::MIN <= (#[trigger] b.asks[i]).0 <= i32::MAX,
    ensures
        b.top_bid() is None <==> b.bids.len() == 0,
        b.top_ask() is None <==> b.asks.len() == 0,
        b.top_bid() matches Some((p, s)) ==> b.bids.contains((p.0 as i64, s)) && forall|i: int|
            0 <= i < b.bids.len() ==> (#[trigger] b.bids[i]).0 <= p.0,
        b.top_ask() matches Some((p, s)) ==> b.asks.contains((p.0 as i64, s)) && forall|i: int|
            0 <= i < b.asks.len() ==> (#[trigger] b.asks[i]).0 >= p.0,
{
    if b.bids.len() > 0 {
        let n = b.bids.len() - 1;
        assert(b.bids[n] == (level_price(b.bids[n].0).0 as i64, b.bids[n].1));
    }
    if b.asks.len() > 0 {
        assert(b.asks[0] == (level_price(b.asks[0].0).0 as i64, b.asks[0].1));
    }
}

/// The middle of a book lies halfway between its best bid and its best ask, and its width is the
/// distance between them; both need both sides. With numbers of six decimals both are exact.
pub proof fn law_middle_is_halfway(b: BookView<Fixed>)
    ensures
        match (b.top_bid(), b.top_ask()) {
            (Some((bid, _)), Some((ask, _))) => {
                &&& b.middle() matches Some(m) && m.units == (bid.0 + ask.0) * 5_000
                &&& b.width() matches Some(w) && w.units == (ask.0 - bid.0) * 10_000
            },
            _ => b.middle() is None && b.width() is None,
        },
{
    if let (Some((bid, _)), Some((ask, _))) = (b.top_bid(), b.top_ask()) {
        law_cents_are_hundredths(bid);
        law_cents_are_hundredths(ask);
        let x = (bid.0 + ask.0) * 10_000;
        assert(Fixed::integer(2).units == 2_000_000);
        assert(x * 1_000_000 == ((bid.0 + ask.0) * 5_000) * 2_000_000);
        lemma_cut_multiple((bid.0 + ask.0) * 5_000, 2_000_000);
    }
}

/// The lean of a book is how much more is bid than asked at the top, over both together. With numbers
/// of six decimals it misses by less than a millionth.
pub proof fn law_lean_is_the_surplus_of_bids(b: BookView<Fixed>, bid: Fixed, ask: Fixed)
    requires
        b.top_bid() matches Some((_, s)) && s == bid,
        b.top_ask() matches Some((_, s)) && s == ask,
        0 <= bid.units <= 1_000_000_000_000_000_000,
        0 <= ask.units <= 1_000_000_000_000_000_000,
        bid.units + ask.units > 0,
    ensures
        b.lean() matches Some(x) && {
            let t = bid.units + ask.units;
            let exact = (bid.units - ask.units) * 1_000_000;
            &&& exact >= 0 ==> 0 <= x.units * t <= exact < x.units * t + t
            &&& exact <= 0 ==> x.units * t - t < exact <= x.units * t <= 0
        },
{
    let t = bid.sum(ask);
    let d = bid.difference(ask);
    lemma_cut(d.units * 1_000_000, t.units as int);
    let (q, a, n) = (
        cut_quotient(d.units * 1_000_000, t.units as int),
        d.units * 1_000_000,
        t.units as int,
    );
    assert(-1_000_000 <= q <= 1_000_000) by (nonlinear_arith)
        requires
            a >= 0 ==> 0 <= q * n <= a,
            a <= 0 ==> a <= q * n <= 0,
            -n * 1_000_000 <= a <= n * 1_000_000,
            n > 0,
    ;
}

/// The weighted middle weighs the price of each side by the size on the other one. With numbers of
/// six decimals it misses by less than the quotient and the two products are cut by.
pub proof fn law_weighted_middle_weighs_crosswise(
    b: BookView<Fixed>,
    pb: Cents,
    bid: Fixed,
    pa: Cents,
    ask: Fixed,
)
    requires
        b.top_bid() == Some((pb, bid)),
        b.top_ask() == Some((pa, ask)),
        0 <= pb.0 <= 100,
        0 <= pa.0 <= 100,
        0 <= bid.units <= 1_000_000_000_000_000_000,
        0 <= ask.units <= 1_000_000_000_000_000_000,
        bid.units + ask.units > 0,
    ensures
        b.weighted_middle() matches Some(x) && {
            let t = bid.units + ask.units;
            let exact = (pb.0 * ask.units + pa.0 * bid.units) * 10_000;
            x.units * t <= exact < x.units * t + t + 2_000_000
        },
{
    law_cents_are_hundredths(pb);
    law_cents_are_hundredths(pa);
    let (cb, ca, u, v) = (pb.0 as int, pa.0 as int, bid.units as int, ask.units as int);
    assert(0 <= (cb * 10_000) * v <= v * 1_000_000 && 0 <= (ca * 10_000) * u <= u * 1_000_000)
        by (nonlinear_arith)
        requires
            0 <= cb <= 100,
            0 <= ca <= 100,
            0 <= u,
            0 <= v,
    ;
    lemma_cut((cb * 10_000) * v, 1_000_000);
    lemma_cut((ca * 10_000) * u, 1_000_000);
    let (x, y) = (
        cut_quotient((cb * 10_000) * v, 1_000_000),
        cut_quotient((ca * 10_000) * u, 1_000_000),
    );
    assert(0 <= x <= v && 0 <= y <= u);
    assert(pb.dollars::<Fixed>().product(ask).units == x);
    assert(pa.dollars::<Fixed>().product(bid).units == y);
    let t = bid.sum(ask);
    assert(t.units == u + v);
    lemma_cut((x + y) * 1_000_000, u + v);
    let q = cut_quotient((x + y) * 1_000_000, u + v);
    assert(0 <= q <= 1_000_000) by (nonlinear_arith)
        requires
            0 <= q * (u + v) <= (x + y) * 1_000_000,
            0 <= x + y <= u + v,
            u + v > 0,
    ;
    assert((cb * v + ca * u) * 10_000 == (cb * 10_000) * v + (ca * 10_000) * u) by (nonlinear_arith);
}

} // verus!
