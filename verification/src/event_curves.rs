//! The ladders of all events, each with its curve.
//!
//! A new middle price is only written down. The curve is fitted when it is asked for and the
//! ladder has changed since, so that it always speaks of the last price seen and costs nothing
//! where nobody asks.
use crate::fit_logistic::{best_fit, event_strike, fit, parse_event_strike, LogisticFit};
use crate::fixed::{law_whole_products_are_exact, lemma_cut_multiple, Fixed};
use crate::intmap::{
    climbing, law_removal_keeps_order, law_remove_then_read, law_set_then_read, value_at, with_value,
    without_key, IntMap,
};
use crate::number::{Analytic, Number};
use crate::strmap::{
    entry, law_put_then_find, lemma_map_entry, lemma_map_put, lemma_put_twice, map_list, put_entry, StrMap,
};
use vstd::prelude::*;

verus! {

/// A strike in ten-thousandths of a dollar.
pub open spec fn strike_key_of<N: Number>(k: N) -> i64 {
    k.product(N::integer(10_000)).nearest().truncated()
}

fn strike_key<N: Number>(k: N) -> (r: i64)
    ensures
        r == strike_key_of(k),
{
    k.times(N::from_int(10_000)).round().to_int()
}

/// The ladder of one event: the middle price at each strike, and its curve.
#[derive(Debug)]
pub struct StrikeLadder<N> {
    /// Middles by strike, in ten-thousandths of a dollar.
    pub mids: IntMap<N>,
    /// Whether a middle has changed since the curve was fitted.
    pub dirty: bool,
    pub cached: Option<LogisticFit<N>>,
}

/// What a ladder says.
#[verifier::ext_equal]
pub struct LadderView<N> {
    pub mids: Seq<(i64, N)>,
    pub dirty: bool,
    pub cached: Option<LogisticFit<N>>,
}

impl<N> View for StrikeLadder<N> {
    type V = LadderView<N>;

    open spec fn view(&self) -> LadderView<N> {
        LadderView { mids: self.mids@, dirty: self.dirty, cached: self.cached }
    }
}

/// The points of a ladder: strikes in dollars, and the middles at them.
pub open spec fn ladder_points<N: Number>(mids: Seq<(i64, N)>) -> Seq<(N, N)> {
    mids.map_values(|e: (i64, N)| (N::integer(e.0 as int).quotient(N::integer(10_000)), e.1))
}

/// Whether a middle says something of the curve.
pub open spec fn tells<N: Number>(mid: Option<N>) -> bool {
    mid is Some && N::integer(0).below(mid.unwrap()) && mid.unwrap().below(N::integer(1))
}

impl<N: Analytic> LadderView<N> {
    /// A ladder without strikes.
    pub open spec fn empty() -> LadderView<N> {
        LadderView { mids: Seq::empty(), dirty: false, cached: None }
    }

    /// The ladder with the middle at a strike. One that tells nothing, or none, takes the strike
    /// off. Only what changes the ladder makes its curve stale.
    pub open spec fn with_mid(self, strike: N, mid: Option<N>) -> LadderView<N> {
        let key = strike_key_of(strike);
        let old_mid = value_at(self.mids, key);
        if tells(mid) {
            if old_mid is Some && old_mid.unwrap().equals(mid.unwrap()) {
                self
            } else {
                LadderView { mids: with_value(self.mids, key, mid.unwrap()), dirty: true, ..self }
            }
        } else if old_mid is Some {
            LadderView { mids: without_key(self.mids, key), dirty: true, ..self }
        } else {
            self
        }
    }

    /// The ladder with its curve fitted.
    pub open spec fn fitted(self) -> LadderView<N> {
        if self.dirty {
            LadderView { dirty: false, cached: best_fit(ladder_points(self.mids)), ..self }
        } else {
            self
        }
    }

    /// A curve that is not stale is the curve of the ladder.
    pub open spec fn current(self) -> bool {
        self.dirty || self.cached == best_fit(ladder_points(self.mids))
    }
}

/// A ladder without strikes has no curve, and that is what it says; a new middle and a fit keep
/// what a ladder says of its curve true; and the curve that is asked for is the curve of the
/// ladder as it stands.
pub proof fn law_curves_are_current<N: Analytic>(l: LadderView<N>, strike: N, mid: Option<N>)
    requires
        l.current(),
    ensures
        LadderView::<N>::empty().current(),
        l.with_mid(strike, mid).current(),
        l.fitted().current(),
        l.fitted().mids == l.mids,
        l.fitted().cached == best_fit(ladder_points(l.mids)),
{
    crate::fit_logistic::law_few_points_do_not_fit(ladder_points(Seq::<(i64, N)>::empty()));
}

impl<N: Analytic> StrikeLadder<N> {
    /// A ladder without strikes.
    pub fn new() -> (r: StrikeLadder<N>)
        ensures
            r@ == LadderView::<N>::empty(),
    {
        StrikeLadder { mids: IntMap::new(), dirty: false, cached: None }
    }

    /// Sets the middle at a strike. One that is not strictly between 0 and 1, or none, takes the
    /// strike off.
    pub fn set(&mut self, strike: N, mid: Option<N>)
        ensures
            final(self)@ == old(self)@.with_mid(strike, mid),
    {
        let key: i64 = strike_key(strike);
        let telling: Option<N> = match mid {
            Some(m) => if N::from_int(0).is_below(m) && m.is_below(N::from_int(1)) {
                Some(m)
            } else {
                None
            },
            None => None,
        };
        let changed: bool = match telling {
            Some(m) => {
                let same: bool = match self.mids.get(key) {
                    Some(was) => was.is_equal(m),
                    None => false,
                };
                if !same {
                    self.mids.insert(key, m);
                }
                !same
            },
            None => self.mids.remove(key),
        };
        if changed {
            self.dirty = true;
        }
    }

    /// The points of the ladder, strikes ascending.
    pub fn points(&self) -> (r: Vec<(N, N)>)
        ensures
            r@ == ladder_points(self@.mids),
    {
        let mut r: Vec<(N, N)> = Vec::new();
        let n: usize = self.mids.len();
        let mut i: usize = 0;
        while i < n
            invariant
                i <= n,
                n == self.mids@.len(),
                r@ == ladder_points(self.mids@.take(i as int)),
            decreases n - i,
        {
            let p = (
                N::from_int(self.mids.key_at(i)).over(N::from_int(10_000)),
                *self.mids.value_ref(i),
            );
            r.push(p);
            proof {
                assert(ladder_points(self.mids@.take(i + 1)) =~= ladder_points(
                    self.mids@.take(i as int),
                ).push(p));
            }
            i += 1;
        }
        proof {
            assert(self.mids@.take(n as int) =~= self.mids@);
        }
        r
    }

    /// The curve of the ladder, fitted anew if a middle has changed.
    pub fn fit(&mut self) -> (r: Option<LogisticFit<N>>)
        ensures
            final(self)@ == old(self)@.fitted(),
            r == old(self)@.fitted().cached,
    {
        if self.dirty {
            let points = self.points();
            self.cached = fit(points.as_slice());
            self.dirty = false;
        }
        self.cached
    }
}

impl<N: Analytic> Default for StrikeLadder<N> {
    fn default() -> (r: StrikeLadder<N>)
        ensures
            r@ == LadderView::<N>::empty(),
    {
        StrikeLadder::new()
    }
}

/// The ladders of all events.
#[derive(Debug)]
pub struct EventCurves<N> {
    pub events: StrMap<StrikeLadder<N>>,
}

impl<N: Analytic> View for EventCurves<N> {
    type V = Seq<(Seq<char>, LadderView<N>)>;

    open spec fn view(&self) -> Seq<(Seq<char>, LadderView<N>)> {
        map_list(self.events.listing(), |l: StrikeLadder<N>| l@)
    }
}

/// The ladder of an event; an empty one where there is none yet.
pub open spec fn ladder_or_empty<N: Analytic>(
    ladders: Seq<(Seq<char>, LadderView<N>)>,
    event: Seq<char>,
) -> LadderView<N> {
    match entry(ladders, event) {
        Some(l) => l,
        None => LadderView::empty(),
    }
}

/// The ladders with a new middle for an instrument. One without a strike changes nothing.
pub open spec fn ladders_with_mid<N: Analytic>(
    ladders: Seq<(Seq<char>, LadderView<N>)>,
    instrument: Seq<char>,
    mid: Option<N>,
) -> Seq<(Seq<char>, LadderView<N>)> {
    match event_strike::<N>(instrument) {
        None => ladders,
        Some((event, strike)) => put_entry(
            ladders,
            event,
            ladder_or_empty(ladders, event).with_mid(strike, mid),
        ),
    }
}

/// The ladders with the curve of one event fitted.
pub open spec fn ladders_with_fit<N: Analytic>(
    ladders: Seq<(Seq<char>, LadderView<N>)>,
    event: Seq<char>,
) -> Seq<(Seq<char>, LadderView<N>)> {
    match entry(ladders, event) {
        None => ladders,
        Some(l) => put_entry(ladders, event, l.fitted()),
    }
}

/// The curve of an event.
pub open spec fn curve_of<N: Analytic>(
    ladders: Seq<(Seq<char>, LadderView<N>)>,
    event: Seq<char>,
) -> Option<LogisticFit<N>> {
    match entry(ladders, event) {
        None => None,
        Some(l) => l.fitted().cached,
    }
}

impl<N: Analytic> EventCurves<N> {
    /// No ladder yet.
    pub fn new() -> (r: EventCurves<N>)
        ensures
            r@ == Seq::<(Seq<char>, LadderView<N>)>::empty(),
    {
        let r = EventCurves { events: StrMap::new() };
        assert(r@ =~= Seq::<(Seq<char>, LadderView<N>)>::empty());
        r
    }

    /// Writes down the middle price of an instrument. One without a strike is left alone.
    pub fn update(&mut self, instrument: &str, mid: Option<N>)
        ensures
            final(self)@ == ladders_with_mid(old(self)@, instrument@, mid),
    {
        let (event, strike): (String, N) = match parse_event_strike::<N>(instrument) {
            Some(es) => es,
            None => {
                return;
            },
        };
        let ghost f = |l: StrikeLadder<N>| l@;
        let ghost before = self.events.listing();
        proof {
            lemma_map_entry(before, f, event@);
        }
        match self.events.position(event.as_str()) {
            Some(i) => {
                let mut l = StrikeLadder::new();
                let ghost blank = l;
                self.events.swap_at(i, &mut l);
                l.set(strike, mid);
                let ghost done = l;
                self.events.swap_at(i, &mut l);
                proof {
                    lemma_put_twice(before, event@, blank, done);
                    lemma_map_put(before, f, event@, done);
                }
            },
            None => {
                let mut l = StrikeLadder::new();
                l.set(strike, mid);
                proof {
                    lemma_map_put(before, f, event@, l);
                }
                self.events.insert(event, l);
            },
        }
    }

    /// The curve of an event, fitted anew if its ladder has changed.
    pub fn fit(&mut self, event: &str) -> (r: Option<LogisticFit<N>>)
        ensures
            final(self)@ == ladders_with_fit(old(self)@, event@),
            r == curve_of(old(self)@, event@),
    {
        let ghost f = |l: StrikeLadder<N>| l@;
        let ghost before = self.events.listing();
        proof {
            lemma_map_entry(before, f, event@);
        }
        match self.events.position(event) {
            Some(i) => {
                let mut l = StrikeLadder::new();
                let ghost blank = l;
                self.events.swap_at(i, &mut l);
                let r = l.fit();
                let ghost done = l;
                self.events.swap_at(i, &mut l);
                proof {
                    lemma_put_twice(before, event@, blank, done);
                    lemma_map_put(before, f, event@, done);
                }
                r
            },
            None => None,
        }
    }

    /// The curve of the event that an instrument belongs to.
    pub fn fit_for_instrument(&mut self, instrument: &str) -> (r: Option<LogisticFit<N>>)
        ensures
            match event_strike::<N>(instrument@) {
                Some((event, _)) => final(self)@ == ladders_with_fit(old(self)@, event) && r
                    == curve_of(old(self)@, event),
                None => final(self)@ == old(self)@ && r is None,
            },
    {
        match parse_event_strike::<N>(instrument) {
            Some((event, _)) => self.fit(event.as_str()),
            None => None,
        }
    }
}

impl<N: Analytic> Default for EventCurves<N> {
    fn default() -> (r: EventCurves<N>)
        ensures
            r@ == Seq::<(Seq<char>, LadderView<N>)>::empty(),
    {
        EventCurves::new()
    }
}

impl<N: Analytic> Clone for StrikeLadder<N> {
    fn clone(&self) -> (r: StrikeLadder<N>)
        ensures
            r@ == self@,
    {
        StrikeLadder { mids: self.mids.clone(), dirty: self.dirty, cached: self.cached }
    }
}

impl<N: Analytic> Clone for EventCurves<N> {
    fn clone(&self) -> (r: EventCurves<N>)
        ensures
            r@ == self@,
    {
        let r = EventCurves { events: self.events.clone() };
        proof {
            assert forall|i: int| 0 <= i < self@.len() implies r@[i] == self@[i] by {
                assert(r.events.listing()[i].0 == self.events.listing()[i].0);
            }
            assert(r@ =~= self@);
        }
        r
    }
}

/// A strike is kept to the ten-thousandth of a dollar: one that so many ten-thousandths write is kept
/// exactly, and read back from the ladder as it was.
pub proof fn law_strikes_are_kept(k: Fixed, n: int, mid: Fixed)
    requires
        k.units == n * 100,
        -9_000_000_000_000 <= n <= 9_000_000_000_000,
    ensures
        strike_key_of(k) == n,
        ladder_points(seq![(n as i64, mid)])[0].0 == k,
        ladder_points(seq![(n as i64, mid)])[0].1 == mid,
{
    let t = Fixed::integer(10_000);
    assert(t.units == 10_000 * 1_000_000);
    law_whole_products_are_exact(t, k, 10_000);
    let x = k.product(t);
    assert(x.units == n * 1_000_000);
    assert(x.nearest() == x);
    lemma_cut_multiple(n, 1_000_000);
    let a = Fixed::integer(n);
    assert(a.units == n * 1_000_000);
    assert((n * 1_000_000) * 1_000_000 == (n * 100) * 10_000_000_000);
    lemma_cut_multiple(n * 100, 10_000_000_000);
    assert(a.quotient(t).units == n * 100);
}

/// A ladder holds the last middle seen at each strike. A middle between 0 and one dollar is kept; any
/// other one, or none, takes the strike off the ladder. Other strikes stay as they are.
pub proof fn law_ladders_hold_the_last_middle(
    l: LadderView<Fixed>,
    strike: Fixed,
    mid: Option<Fixed>,
    other: i64,
)
    requires
        climbing(l.mids),
    ensures
        ({
            let r = l.with_mid(strike, mid);
            let key = strike_key_of(strike);
            &&& (mid matches Some(m) && 0 < m.units < 1_000_000) ==> value_at(r.mids, key) == mid
            &&& !(mid matches Some(m) && 0 < m.units < 1_000_000) ==> value_at(r.mids, key) is None
            &&& other != key ==> value_at(r.mids, other) == value_at(l.mids, other)
            &&& r.mids != l.mids ==> r.dirty
            &&& climbing(r.mids)
        }),
{
    let key = strike_key_of(strike);
    assert(Fixed::integer(0).units == 0 && Fixed::integer(1).units == 1_000_000);
    if let Some(m) = mid {
        law_set_then_read(l.mids, key, m, key);
        law_set_then_read(l.mids, key, m, other);
    }
    law_remove_then_read(l.mids, key, key);
    law_remove_then_read(l.mids, key, other);
    law_removal_keeps_order(l.mids, key);
}

/// A middle of an instrument goes to the ladder of its event, at its strike, and to no other; an
/// instrument without a strike changes nothing.
pub proof fn law_middles_go_to_their_event<N: Analytic>(
    ladders: Seq<(Seq<char>, LadderView<N>)>,
    instrument: Seq<char>,
    mid: Option<N>,
    other: Seq<char>,
)
    ensures
        ({
            let r = ladders_with_mid(ladders, instrument, mid);
            match event_strike::<N>(instrument) {
                Some((event, strike)) => {
                    &&& other != event ==> entry(r, other) == entry(ladders, other)
                    &&& entry(ladders, event) matches Some(l) ==> entry(r, event) == Some(
                        l.with_mid(strike, mid),
                    )
                    &&& entry(ladders, event) is None ==> entry(r, event) == Some(
                        LadderView::<N>::empty().with_mid(strike, mid),
                    )
                },
                None => r == ladders,
            }
        }),
{
    if let Some((event, strike)) = event_strike::<N>(instrument) {
        let l = ladder_or_empty(ladders, event).with_mid(strike, mid);
        law_put_then_find(ladders, event, l, event);
        law_put_then_find(ladders, event, l, other);
    }
}

} // verus!
