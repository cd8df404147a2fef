//! Kalshi's own captures.
use crate::adapters::rows::delivered;
use crate::adapters::{
    date_to_ns_opt, law_tagging_keeps_order, opt_date_ns, opt_text, tag_events_with_venue, tagged,
    AdapterLoad, AdapterSpec, DataAdapter, MappingKey, Venue, VenueView,
};
use crate::data::ndjson::{capture_of, load, opt_str};
use crate::error::{Error, ErrorKind};
use crate::number::Number;
use crate::types::{event_views, EventView, MarketEvent};
use vstd::prelude::*;

verus! {

/// The collector's captures of Kalshi.
#[derive(Debug, Clone, Copy)]
pub struct KalshiNdjsonAdapter;

impl KalshiNdjsonAdapter {
    /// The adapter of the collector's captures.
    pub fn new() -> (r: KalshiNdjsonAdapter)
        ensures
            r == KalshiNdjsonAdapter,
    {
        KalshiNdjsonAdapter
    }
}

impl Default for KalshiNdjsonAdapter {
    fn default() -> (r: KalshiNdjsonAdapter)
        ensures
            r == KalshiNdjsonAdapter,
    {
        KalshiNdjsonAdapter::new()
    }
}

/// The events of a source, before they are put in order, or the failure to read it.
pub open spec fn kalshi_events<N: Number>(spec: AdapterSpec, data: Seq<u8>) -> Result<
    Seq<EventView<N>>,
    (ErrorKind, Seq<char>),
> {
    match opt_date_ns(spec.start) {
        Err(e) => Err(e),
        Ok(start) => match opt_date_ns(spec.end) {
            Err(e) => Err(e),
            Ok(end) => match capture_of::<N>(data, opt_text(spec.instrument), start, end) {
                Err(e) => Err(e),
                Ok(events) => Ok(tagged(events, spec.venue_or(VenueView::Kalshi))),
            },
        },
    }
}

impl DataAdapter for KalshiNdjsonAdapter {
    open spec fn key(&self) -> Seq<char> {
        "kalshi_ndjson"@
    }

    open spec fn home(&self) -> VenueView {
        VenueView::Kalshi
    }

    open spec fn about(&self) -> Seq<char> {
        "Kalshi tick NDJSON(.gz) capture (the native collector format), venue-tagged KALSHI."@
    }

    open spec fn knobs(&self) -> Seq<(Seq<char>, Seq<char>)> {
        Seq::empty()
    }

    fn name(&self) -> (r: &str) {
        "kalshi_ndjson"
    }

    fn default_venue(&self) -> (r: Venue) {
        Venue::Kalshi
    }

    fn description(&self) -> (r: &str) {
        "Kalshi tick NDJSON(.gz) capture (the native collector format), venue-tagged KALSHI."
    }

    fn mapping_keys(&self) -> (r: Vec<MappingKey>) {
        let v: Vec<MappingKey> = Vec::new();
        assert(crate::adapters::knob_texts(v@) =~= Seq::<(Seq<char>, Seq<char>)>::empty());
        v
    }
}

impl<N: Number> AdapterLoad<N> for KalshiNdjsonAdapter {
    open spec fn reads(
        &self,
        spec: AdapterSpec,
        data: Seq<u8>,
        r: Result<Vec<MarketEvent<N>>, Error>,
    ) -> bool {
        delivered(kalshi_events::<N>(spec, data), r)
    }

    fn load(&self, spec: &AdapterSpec, data: &[u8]) -> (r: Result<Vec<MarketEvent<N>>, Error>) {
        let venue = spec.resolved_venue(Venue::Kalshi);
        let start = match date_to_ns_opt(&spec.start) {
            Ok(t) => t,
            Err(e) => {
                return Err(e);
            },
        };
        let end = match date_to_ns_opt(&spec.end) {
            Ok(t) => t,
            Err(e) => {
                return Err(e);
            },
        };
        let pattern: Option<&str> = match &spec.instrument {
            Some(s) => Some(s.as_str()),
            None => None,
        };
        assert(opt_str(pattern) == opt_text(spec.instrument));
        let mut events = match load::<N>(data, pattern, start, end) {
            Ok(evs) => evs,
            Err(e) => {
                return Err(e);
            },
        };
        let ghost sorted = event_views(events@);
        tag_events_with_venue(&mut events, &venue);
        proof {
            let due = capture_of::<N>(data@, opt_str(pattern), start, end)->Ok_0;
            law_tagging_keeps_order(due, sorted, venue@);
        }
        Ok(events)
    }
}

} // verus!
