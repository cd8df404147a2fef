//! What a strategy sees and what it can ask for.
//!
//! A strategy reads books, positions and its own orders, and asks for orders and cancels. What it
//! asks for is written down and carried out once it has returned.
use crate::event_curves::{
    curve_of, ladders_with_fit, EventCurves, LadderView,
};
use crate::execution::{resting_views, RestingOrder, RestingView};
use crate::fit_logistic::{event_strike, parse_event_strike, survival, deviation_factor, LogisticFit};
use crate::number::Analytic;
use crate::orderbook::{middle_of, BookSet, BookView};
use crate::portfolio::{held, Portfolio, PortfolioView};
use crate::strmap::{entry, ordered, put_entry};
use crate::text::{lemma_text_less_irreflexive, lemma_text_less_transitive, same_text, text_less};
use crate::types::{Cents, EventView, MarketEvent, OrderView, Side, Tif};
use vstd::prelude::*;

verus! {

/// Something that a strategy asks for.
#[derive(Debug, Clone, PartialEq)]
pub enum EngineAction<N> {
    PlaceLimit { instrument: String, side: Side, price: Cents, qty: N, tif: Tif, post_only: bool },
    PlaceMarket { instrument: String, side: Side, qty: N },
    Cancel { order_id: u64 },
}

/// What an action says.
#[verifier::ext_equal]
pub enum ActionView<N> {
    PlaceLimit {
        instrument: Seq<char>,
        side: Side,
        price: Cents,
        qty: N,
        tif: Tif,
        post_only: bool,
    },
    PlaceMarket { instrument: Seq<char>, side: Side, qty: N },
    Cancel { order_id: u64 },
}

impl<N> View for EngineAction<N> {
    type V = ActionView<N>;

    open spec fn view(&self) -> ActionView<N> {
        match *self {
            EngineAction::PlaceLimit { instrument, side, price, qty, tif, post_only } => {
                ActionView::PlaceLimit { instrument: instrument@, side, price, qty, tif, post_only }
            },
            EngineAction::PlaceMarket { instrument, side, qty } => ActionView::PlaceMarket {
                instrument: instrument@,
                side,
                qty,
            },
            EngineAction::Cancel { order_id } => ActionView::Cancel { order_id },
        }
    }
}

/// What each of some actions says.
pub open spec fn action_views<N>(actions: Seq<EngineAction<N>>) -> Seq<ActionView<N>> {
    actions.map_values(|a: EngineAction<N>| a@)
}

/// The state of the market and the account, as a strategy sees it.
#[derive(Debug)]
pub struct Ctx<N> {
    pub books: BookSet<N>,
    pub portfolio: Portfolio<N>,
    pub resting: Vec<RestingOrder<N>>,
    /// What the strategy has asked for.
    pub pending: Vec<EngineAction<N>>,
    pub cur_ts: i64,
    pub curves: EventCurves<N>,
}

/// What the state of the market and the account says.
#[verifier::ext_equal]
pub struct CtxView<N> {
    pub books: Seq<(Seq<char>, BookView<N>)>,
    pub portfolio: PortfolioView<N>,
    pub resting: Seq<RestingView<N>>,
    pub pending: Seq<ActionView<N>>,
    pub cur_ts: i64,
    pub curves: Seq<(Seq<char>, LadderView<N>)>,
}

impl<N: Analytic> View for Ctx<N> {
    type V = CtxView<N>;

    open spec fn view(&self) -> CtxView<N> {
        CtxView {
            books: self.books@,
            portfolio: self.portfolio@,
            resting: resting_views(self.resting@),
            pending: action_views(self.pending@),
            cur_ts: self.cur_ts,
            curves: self.curves@,
        }
    }
}

/// The same ladders: curves may have been fitted, and nothing else.
pub open spec fn same_ladders<N: Analytic>(
    a: Seq<(Seq<char>, LadderView<N>)>,
    b: Seq<(Seq<char>, LadderView<N>)>,
) -> bool {
    &&& a.len() == b.len()
    &&& forall|i: int|
        0 <= i < a.len() ==> (#[trigger] a[i]).0 == b[i].0 && a[i].1.mids == b[i].1.mids && (
        a[i].1.current() ==> b[i].1.current())
}

/// The curve of the event that an instrument belongs to.
pub open spec fn curve_for<N: Analytic>(
    ladders: Seq<(Seq<char>, LadderView<N>)>,
    instrument: Seq<char>,
) -> Option<LogisticFit<N>> {
    match event_strike::<N>(instrument) {
        Some((event, _)) => curve_of(ladders, event),
        None => None,
    }
}

/// The orders that rest in an instrument.
pub open spec fn orders_in<N>(resting: Seq<RestingView<N>>, instrument: Seq<char>) -> Seq<
    OrderView<N>,
>
    decreases resting.len(),
{
    if resting.len() == 0 {
        Seq::empty()
    } else {
        let before = orders_in(resting.drop_last(), instrument);
        let o = resting.last();
        if o.instrument == instrument {
            before.push(
                OrderView { id: o.id, side: o.side, price: o.price, remaining: o.remaining },
            )
        } else {
            before
        }
    }
}

impl<N: Analytic> CtxView<N> {
    /// What a strategy may make of the state: it asks for more, and has curves fitted. Nothing
    /// else changes.
    pub open spec fn asked(self, later: CtxView<N>) -> bool {
        &&& later.books == self.books
        &&& later.portfolio == self.portfolio
        &&& later.resting == self.resting
        &&& later.cur_ts == self.cur_ts
        &&& self.pending.is_prefix_of(later.pending)
        &&& same_ladders(self.curves, later.curves)
    }

    /// The state with one more action asked for.
    pub open spec fn with_action(self, a: ActionView<N>) -> CtxView<N> {
        CtxView { pending: self.pending.push(a), ..self }
    }

    /// The state with the curve of an instrument's event fitted.
    pub open spec fn with_fit(self, instrument: Seq<char>) -> CtxView<N> {
        match event_strike::<N>(instrument) {
            Some((event, _)) => CtxView { curves: ladders_with_fit(self.curves, event), ..self },
            None => self,
        }
    }
}

/// What a strategy does, step after step, is one thing that it may do.
pub proof fn law_asking_adds_up<N: Analytic>(a: CtxView<N>, b: CtxView<N>, c: CtxView<N>)
    requires
        a.asked(b),
        b.asked(c),
    ensures
        a.asked(a),
        a.asked(c),
{
    assert forall|i: int| 0 <= i < a.curves.len() implies (#[trigger] a.curves[i]).0
        == c.curves[i].0 && a.curves[i].1.mids == c.curves[i].1.mids && (a.curves[i].1.current()
        ==> c.curves[i].1.current()) by {
        assert(b.curves[i].0 == c.curves[i].0);
    }
}

/// To ask for an action is something that a strategy may do.
pub proof fn law_actions_are_asked<N: Analytic>(c: CtxView<N>, a: ActionView<N>)
    ensures
        c.asked(c.with_action(a)),
{
}

proof fn lemma_put_over<V>(s: Seq<(Seq<char>, V)>, k: Seq<char>, v: V)
    requires
        ordered(s),
        entry(s, k) is Some,
    ensures
        put_entry(s, k, v).len() == s.len(),
        forall|i: int|
            #![trigger put_entry(s, k, v)[i]]
            0 <= i < s.len() ==> put_entry(s, k, v)[i] == if s[i].0 == k {
                (k, v)
            } else {
                s[i]
            },
        forall|i: int| 0 <= i < s.len() && (#[trigger] s[i]).0 == k ==> entry(s, k) == Some(s[i].1),
    decreases s.len(),
{
    let rest = s.drop_last();
    let last = s.last();
    lemma_text_less_irreflexive(k);
    assert forall|i: int, j: int| 0 <= i < j < rest.len() implies text_less(
        (#[trigger] rest[i]).0,
        (#[trigger] rest[j]).0,
    ) by {
        assert(text_less(s[i].0, s[j].0));
    }
    if last.0 == k {
        assert forall|i: int| 0 <= i < rest.len() implies (#[trigger] s[i]).0 != k by {
            assert(text_less(s[i].0, s[s.len() - 1].0));
        }
    } else {
        lemma_put_over(rest, k, v);
        lemma_found_below(rest, k);
        let i = choose|i: int| 0 <= i < rest.len() && (#[trigger] rest[i]).0 == k;
        assert(text_less(s[i].0, s[s.len() - 1].0));
        if text_less(last.0, k) {
            lemma_text_less_transitive(k, last.0, k);
        }
        assert forall|j: int| 0 <= j < s.len() && (#[trigger] s[j]).0 == k implies entry(s, k)
            == Some(s[j].1) by {
            assert(rest[j] == s[j]);
        }
        let t = put_entry(rest, k, v);
        assert forall|j: int| 0 <= j < s.len() implies #[trigger] put_entry(s, k, v)[j]
            == if s[j].0 == k {
            (k, v)
        } else {
            s[j]
        } by {
            if j < rest.len() {
                assert(t[j] == if rest[j].0 == k {
                    (k, v)
                } else {
                    rest[j]
                });
            }
        }
    }
}

proof fn lemma_found_below<V>(s: Seq<(Seq<char>, V)>, k: Seq<char>)
    requires
        entry(s, k) is Some,
    ensures
        exists|i: int| 0 <= i < s.len() && (#[trigger] s[i]).0 == k,
    decreases s.len(),
{
    if s.last().0 == k {
        assert(s[s.len() - 1].0 == k);
    } else {
        lemma_found_below(s.drop_last(), k);
        let i = choose|i: int|
            0 <= i < s.drop_last().len() && (#[trigger] s.drop_last()[i]).0 == k;
        assert(s[i].0 == k);
    }
}

/// To have a curve fitted is something that a strategy may do.
pub proof fn law_fits_are_asked<N: Analytic>(c: CtxView<N>, instrument: Seq<char>)
    requires
        ordered(c.curves),
    ensures
        c.asked(c.with_fit(instrument)),
{
    if let Some((event, _)) = event_strike::<N>(instrument) {
        if let Some(l) = entry(c.curves, event) {
            lemma_put_over(c.curves, event, l.fitted());
            let after = ladders_with_fit(c.curves, event);
            assert forall|i: int| 0 <= i < c.curves.len() implies (#[trigger] c.curves[i]).0
                == after[i].0 && c.curves[i].1.mids == after[i].1.mids && (
            c.curves[i].1.current() ==> after[i].1.current()) by {
                assert(after[i] == if c.curves[i].0 == event {
                    (event, l.fitted())
                } else {
                    c.curves[i]
                });
            }
        }
    }
}

impl<N: Analytic> Ctx<N> {
    /// The time.
    pub fn ts_ns(&self) -> (r: i64)
        ensures
            r == self@.cur_ts,
    {
        self.cur_ts
    }

    /// The highest bid of an instrument.
    pub fn best_bid(&self, instrument: &str) -> (r: Option<(Cents, N)>)
        ensures
            r == (match entry(self@.books, instrument@) {
                Some(b) => b.top_bid(),
                None => None,
            }),
    {
        self.books.best_bid(instrument)
    }

    /// The lowest ask of an instrument.
    pub fn best_ask(&self, instrument: &str) -> (r: Option<(Cents, N)>)
        ensures
            r == (match entry(self@.books, instrument@) {
                Some(b) => b.top_ask(),
                None => None,
            }),
    {
        self.books.best_ask(instrument)
    }

    /// The middle of the book of an instrument.
    pub fn mid(&self, instrument: &str) -> (r: Option<N>)
        ensures
            r == middle_of(self@.books, instrument@),
    {
        self.books.mid(instrument)
    }

    /// How much more is bid than asked at the top of the book of an instrument.
    pub fn imbalance(&self, instrument: &str) -> (r: Option<N>)
        ensures
            r == (match entry(self@.books, instrument@) {
                Some(b) => b.lean(),
                None => None,
            }),
    {
        match self.books.get(instrument) {
            Some(b) => b.imbalance(),
            None => None,
        }
    }

    /// The weighted middle of the book of an instrument.
    pub fn microprice(&self, instrument: &str) -> (r: Option<N>)
        ensures
            r == (match entry(self@.books, instrument@) {
                Some(b) => b.weighted_middle(),
                None => None,
            }),
    {
        match self.books.get(instrument) {
            Some(b) => b.microprice(),
            None => None,
        }
    }

    fn curve(&mut self, instrument: &str) -> (r: Option<LogisticFit<N>>)
        ensures
            final(self)@ == old(self)@.with_fit(instrument@),
            r == curve_for(old(self)@.curves, instrument@),
    {
        self.curves.fit_for_instrument(instrument)
    }

    /// The median of the settlement of an instrument's event.
    pub fn implied_fair_value(&mut self, instrument: &str) -> (r: Option<N>)
        ensures
            final(self)@ == old(self)@.with_fit(instrument@),
            r == (match curve_for(old(self)@.curves, instrument@) {
                Some(f) => Some(f.mu),
                None => None,
            }),
    {
        match self.curve(instrument) {
            Some(f) => Some(f.fair_value()),
            None => None,
        }
    }

    /// The standard deviation of the settlement of an instrument's event.
    pub fn implied_vol(&mut self, instrument: &str) -> (r: Option<N>)
        ensures
            final(self)@ == old(self)@.with_fit(instrument@),
            r == (match curve_for(old(self)@.curves, instrument@) {
                Some(f) => Some(f.s.product(deviation_factor::<N>())),
                None => None,
            }),
    {
        match self.curve(instrument) {
            Some(f) => Some(f.implied_vol()),
            None => None,
        }
    }

    /// What the curve says that an instrument ought to cost.
    pub fn fitted_price(&mut self, instrument: &str) -> (r: Option<N>)
        ensures
            final(self)@ == old(self)@.with_fit(instrument@),
            r == (match (event_strike::<N>(instrument@), curve_for(
                old(self)@.curves,
                instrument@,
            )) {
                (Some((_, k)), Some(f)) => Some(survival(k, f.mu, f.s)),
                _ => None,
            }),
    {
        match parse_event_strike::<N>(instrument) {
            Some((_, k)) => match self.curve(instrument) {
                Some(f) => Some(f.fitted(k)),
                None => None,
            },
            None => None,
        }
    }

    /// How much more the market asks for an instrument than the curve. Without a middle no curve
    /// is fitted.
    pub fn fit_edge(&mut self, instrument: &str) -> (r: Option<N>)
        ensures
            final(self)@ == if middle_of(old(self)@.books, instrument@) is Some {
                old(self)@.with_fit(instrument@)
            } else {
                old(self)@
            },
            r == (match (
                middle_of(old(self)@.books, instrument@),
                event_strike::<N>(instrument@),
                curve_for(old(self)@.curves, instrument@),
            ) {
                (Some(mid), Some((_, k)), Some(f)) => Some(
                    mid.difference(survival(k, f.mu, f.s)),
                ),
                _ => None,
            }),
    {
        match self.mid(instrument) {
            Some(mid) => match parse_event_strike::<N>(instrument) {
                Some((_, k)) => match self.curve(instrument) {
                    Some(f) => Some(f.edge(k, mid)),
                    None => None,
                },
                None => None,
            },
            None => None,
        }
    }

    /// By how much the curve of an instrument's event misses.
    pub fn fit_quality(&mut self, instrument: &str) -> (r: Option<N>)
        ensures
            final(self)@ == old(self)@.with_fit(instrument@),
            r == (match curve_for(old(self)@.curves, instrument@) {
                Some(f) => Some(f.rmse),
                None => None,
            }),
    {
        match self.curve(instrument) {
            Some(f) => Some(f.rmse),
            None => None,
        }
    }

    /// The contracts that are held of an instrument.
    pub fn position(&self, instrument: &str) -> (r: N)
        ensures
            r == held(self@.portfolio.positions, instrument@).net_qty,
    {
        self.portfolio.position(instrument).net_qty
    }

    /// The cash.
    pub fn cash(&self) -> (r: N)
        ensures
            r == self@.portfolio.cash,
    {
        self.portfolio.cash
    }

    /// The instruments that have a book, in the order of their ids.
    pub fn instruments(&self) -> (r: Vec<String>)
        ensures
            r@.len() == self@.books.len(),
            forall|i: int| 0 <= i < r@.len() ==> (#[trigger] r@[i])@ == self@.books[i].0,
    {
        let mut r: Vec<String> = Vec::new();
        let n: usize = self.books.books.len();
        let mut i: usize = 0;
        while i < n
            invariant
                i <= n,
                n == self.books.books.keys().len(),
                n == self.books.books.listing().len(),
                r@.len() == i,
                forall|j: int| 0 <= j < i ==> (#[trigger] r@[j])@ == self@.books[j].0,
            decreases n - i,
        {
            let key = self.books.books.key_at(i);
            r.push(key.clone());
            i += 1;
        }
        r
    }

    /// The orders that rest in an instrument.
    pub fn open_orders(&self, instrument: &str) -> (r: Vec<OrderView<N>>)
        ensures
            r@ == orders_in(self@.resting, instrument@),
    {
        let ghost all = resting_views(self.resting@);
        let mut r: Vec<OrderView<N>> = Vec::new();
        let n: usize = self.resting.len();
        let mut i: usize = 0;
        while i < n
            invariant
                i <= n,
                n == self.resting@.len(),
                all == resting_views(self.resting@),
                r@ == orders_in(all.take(i as int), instrument@),
            decreases n - i,
        {
            let o = &self.resting[i];
            proof {
                assert(all.take(i + 1).drop_last() =~= all.take(i as int));
                assert(all[i as int] == o@);
            }
            if same_text(o.instrument.as_str(), instrument) {
                r.push(OrderView { id: o.id, side: o.side, price: o.price, remaining: o.remaining });
            }
            i += 1;
        }
        proof {
            assert(all.take(n as int) =~= all);
        }
        r
    }

    fn ask(&mut self, a: EngineAction<N>)
        ensures
            final(self)@ == old(self)@.with_action(a@),
    {
        let ghost before = self.pending@;
        self.pending.push(a);
        proof {
            assert(action_views(self.pending@) =~= action_views(before).push(a@));
        }
    }

    /// Asks for a limit order that rests until it is filled or cancelled.
    pub fn place_limit(&mut self, instrument: &str, side: Side, price: Cents, qty: N)
        ensures
            final(self)@ == old(self)@.with_action(
                ActionView::PlaceLimit {
                    instrument: instrument@,
                    side,
                    price,
                    qty,
                    tif: Tif::Gtc,
                    post_only: false,
                },
            ),
    {
        self.place_limit_ex(instrument, side, price, qty, Tif::Gtc, false);
    }

    /// Asks for a limit order. One that is only to rest is refused where it would take.
    pub fn place_limit_ex(
        &mut self,
        instrument: &str,
        side: Side,
        price: Cents,
        qty: N,
        tif: Tif,
        post_only: bool,
    )
        ensures
            final(self)@ == old(self)@.with_action(
                ActionView::PlaceLimit { instrument: instrument@, side, price, qty, tif, post_only },
            ),
    {
        self.ask(
            EngineAction::PlaceLimit {
                instrument: instrument.to_owned(),
                side,
                price,
                qty,
                tif,
                post_only,
            },
        );
    }

    /// Asks for an order that takes at any price.
    pub fn place_market(&mut self, instrument: &str, side: Side, qty: N)
        ensures
            final(self)@ == old(self)@.with_action(
                ActionView::PlaceMarket { instrument: instrument@, side, qty },
            ),
    {
        self.ask(EngineAction::PlaceMarket { instrument: instrument.to_owned(), side, qty });
    }

    /// Asks for an order to be cancelled.
    pub fn cancel(&mut self, order_id: u64)
        ensures
            final(self)@ == old(self)@.with_action(ActionView::Cancel { order_id }),
    {
        self.ask(EngineAction::Cancel { order_id });
    }
}

/// A strategy. It is called for every event, after the book and its own orders have been brought
/// up to date, and once at the end.
pub trait Strategy<N: Analytic>: Sized {
    /// Its name.
    open spec fn label(&self) -> Seq<char> {
        arbitrary()
    }

    /// Whether the strategy, called for an event with what it sees, can become `next` and leave
    /// `left`. Of a strategy that does not say so, anything is possible.
    open spec fn can_react(
        self,
        ev: EventView<N>,
        seen: CtxView<N>,
        next: Self,
        left: CtxView<N>,
    ) -> bool {
        true
    }

    /// Whether the strategy, called at the end with what it sees, can become `next` and leave
    /// `left`.
    open spec fn can_close(self, seen: CtxView<N>, next: Self, left: CtxView<N>) -> bool {
        true
    }

    /// Its name.
    fn name(&self) -> (r: String)
        ensures
            r@ == self.label(),
    ;

    /// Something has happened.
    fn on_event(&mut self, ev: &MarketEvent<N>, ctx: &mut Ctx<N>)
        ensures
            old(self).can_react(ev@, old(ctx)@, *final(self), final(ctx)@),
            old(ctx)@.asked(final(ctx)@),
    ;

    /// There are no more events.
    fn on_finish(&mut self, ctx: &mut Ctx<N>)
        ensures
            old(self).can_close(old(ctx)@, *final(self), final(ctx)@),
            old(ctx)@.asked(final(ctx)@),
    ;
}

/// A strategy that does nothing.
#[derive(Debug, Clone, Copy, PartialEq, Eq)]
pub struct Noop;

impl Default for Noop {
    fn default() -> (r: Noop)
        ensures
            r == Noop,
    {
        Noop
    }
}

impl<N: Analytic> Strategy<N> for Noop {
    open spec fn label(&self) -> Seq<char> {
        "noop"@
    }

    open spec fn can_react(
        self,
        ev: EventView<N>,
        seen: CtxView<N>,
        next: Noop,
        left: CtxView<N>,
    ) -> bool {
        next == self && left == seen
    }

    open spec fn can_close(self, seen: CtxView<N>, next: Noop, left: CtxView<N>) -> bool {
        next == self && left == seen
    }

    fn name(&self) -> (r: String) {
        "noop".to_owned()
    }

    fn on_event(&mut self, ev: &MarketEvent<N>, ctx: &mut Ctx<N>) {
    }

    fn on_finish(&mut self, ctx: &mut Ctx<N>) {
    }
}

/// A strategy sees the orders that rest in an instrument, in their order: the number, the side, the
/// price and what is left of each, and no order of another instrument.
pub proof fn law_resting_orders_are_seen<N>(
    resting: Seq<RestingView<N>>,
    o: RestingView<N>,
    instrument: Seq<char>,
)
    ensures
        ({
            let before = orders_in(resting, instrument);
            let after = orders_in(resting.push(o), instrument);
            &&& o.instrument != instrument ==> after == before
            &&& o.instrument == instrument ==> {
                &&& after.len() == before.len() + 1
                &&& after.drop_last() == before
                &&& after.last().id == o.id
                &&& after.last().side == o.side
                &&& after.last().price == o.price
                &&& after.last().remaining == o.remaining
            }
        }),
        orders_in(Seq::<RestingView<N>>::empty(), instrument).len() == 0,
{
    assert(resting.push(o).drop_last() =~= resting);
    assert(orders_in(resting.push(o), instrument).drop_last() =~= orders_in(resting, instrument)
        || o.instrument != instrument);
}

} // verus!
