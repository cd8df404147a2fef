//! The adapters that are known, by name.
use crate::adapters::generic_csv::GenericCsvAdapter;
use crate::adapters::generic_ndjson::GenericNdjsonAdapter;
use crate::adapters::hyperliquid::HyperliquidAdapter;
use crate::adapters::kalshi::KalshiNdjsonAdapter;
use crate::adapters::polymarket::PolymarketAdapter;
use crate::adapters::template::TemplateAdapter;
use crate::adapters::{
    knob_texts, AdapterInfo, AdapterLoad, AdapterSpec, DataAdapter, MappingKey, Venue, VenueView,
};
use crate::data::{break_view, is_packed, readable, sort_events, stably_sorted, unpack, until_break};
use crate::error::{Error, ErrorKind};
use crate::number::Number;
use crate::text::{concat2, concat3, join, joined, same_text, texts};
use crate::types::MarketEvent;
use vstd::prelude::*;

verus! {

/// One of the adapters that come with the library.
#[derive(Debug, Clone, Copy)]
pub enum Adapter {
    KalshiNdjson(KalshiNdjsonAdapter),
    GenericNdjson(GenericNdjsonAdapter),
    GenericCsv(GenericCsvAdapter),
    Polymarket(PolymarketAdapter),
    Hyperliquid(HyperliquidAdapter),
    Template(TemplateAdapter),
}

impl DataAdapter for Adapter {
    open spec fn key(&self) -> Seq<char> {
        match self {
            Adapter::KalshiNdjson(a) => a.key(),
            Adapter::GenericNdjson(a) => a.key(),
            Adapter::GenericCsv(a) => a.key(),
            Adapter::Polymarket(a) => a.key(),
            Adapter::Hyperliquid(a) => a.key(),
            Adapter::Template(a) => a.key(),
        }
    }

    open spec fn home(&self) -> VenueView {
        match self {
            Adapter::KalshiNdjson(a) => a.home(),
            Adapter::GenericNdjson(a) => a.home(),
            Adapter::GenericCsv(a) => a.home(),
            Adapter::Polymarket(a) => a.home(),
            Adapter::Hyperliquid(a) => a.home(),
            Adapter::Template(a) => a.home(),
        }
    }

    open spec fn about(&self) -> Seq<char> {
        match self {
            Adapter::KalshiNdjson(a) => a.about(),
            Adapter::GenericNdjson(a) => a.about(),
            Adapter::GenericCsv(a) => a.about(),
            Adapter::Polymarket(a) => a.about(),
            Adapter::Hyperliquid(a) => a.about(),
            Adapter::Template(a) => a.about(),
        }
    }

    open spec fn knobs(&self) -> Seq<(Seq<char>, Seq<char>)> {
        match self {
            Adapter::KalshiNdjson(a) => a.knobs(),
            Adapter::GenericNdjson(a) => a.knobs(),
            Adapter::GenericCsv(a) => a.knobs(),
            Adapter::Polymarket(a) => a.knobs(),
            Adapter::Hyperliquid(a) => a.knobs(),
            Adapter::Template(a) => a.knobs(),
        }
    }

    fn name(&self) -> (r: &str) {
        match self {
            Adapter::KalshiNdjson(a) => a.name(),
            Adapter::GenericNdjson(a) => a.name(),
            Adapter::GenericCsv(a) => a.name(),
            Adapter::Polymarket(a) => a.name(),
            Adapter::Hyperliquid(a) => a.name(),
            Adapter::Template(a) => a.name(),
        }
    }

    fn default_venue(&self) -> (r: Venue) {
        match self {
            Adapter::KalshiNdjson(a) => a.default_venue(),
            Adapter::GenericNdjson(a) => a.default_venue(),
            Adapter::GenericCsv(a) => a.default_venue(),
            Adapter::Polymarket(a) => a.default_venue(),
            Adapter::Hyperliquid(a) => a.default_venue(),
            Adapter::Template(a) => a.default_venue(),
        }
    }

    fn description(&self) -> (r: &str) {
        match self {
            Adapter::KalshiNdjson(a) => a.description(),
            Adapter::GenericNdjson(a) => a.description(),
            Adapter::GenericCsv(a) => a.description(),
            Adapter::Polymarket(a) => a.description(),
            Adapter::Hyperliquid(a) => a.description(),
            Adapter::Template(a) => a.description(),
        }
    }

    fn mapping_keys(&self) -> (r: Vec<MappingKey>) {
        match self {
            Adapter::KalshiNdjson(a) => a.mapping_keys(),
            Adapter::GenericNdjson(a) => a.mapping_keys(),
            Adapter::GenericCsv(a) => a.mapping_keys(),
            Adapter::Polymarket(a) => a.mapping_keys(),
            Adapter::Hyperliquid(a) => a.mapping_keys(),
            Adapter::Template(a) => a.mapping_keys(),
        }
    }
}

impl<N: Number> AdapterLoad<N> for Adapter {
    open spec fn reads(
        &self,
        spec: AdapterSpec,
        data: Seq<u8>,
        r: Result<Vec<MarketEvent<N>>, Error>,
    ) -> bool {
        match self {
            Adapter::KalshiNdjson(a) => a.reads(spec, data, r),
            Adapter::GenericNdjson(a) => a.reads(spec, data, r),
            Adapter::GenericCsv(a) => a.reads(spec, data, r),
            Adapter::Polymarket(a) => a.reads(spec, data, r),
            Adapter::Hyperliquid(a) => a.reads(spec, data, r),
            Adapter::Template(a) => a.reads(spec, data, r),
        }
    }

    fn load(&self, spec: &AdapterSpec, data: &[u8]) -> (r: Result<Vec<MarketEvent<N>>, Error>) {
        match self {
            Adapter::KalshiNdjson(a) => a.load(spec, data),
            Adapter::GenericNdjson(a) => a.load(spec, data),
            Adapter::GenericCsv(a) => a.load(spec, data),
            Adapter::Polymarket(a) => a.load(spec, data),
            Adapter::Hyperliquid(a) => a.load(spec, data),
            Adapter::Template(a) => a.load(spec, data),
        }
    }
}

/// The registered adapters, in the order of registration.
#[derive(Debug)]
pub struct AdapterRegistry<A> {
    pub adapters: Vec<A>,
}

/// The names of some adapters.
pub open spec fn keys_of<A: DataAdapter>(adapters: Seq<A>) -> Seq<Seq<char>> {
    adapters.map_values(|a: A| a.key())
}

/// The place of the last name that is the given one.
pub open spec fn last_named(keys: Seq<Seq<char>>, name: Seq<char>) -> Option<int>
    decreases keys.len(),
{
    if keys.len() == 0 {
        None
    } else if keys.last() == name {
        Some(keys.len() - 1)
    } else {
        last_named(keys.drop_last(), name)
    }
}

/// No later name is the same.
pub open spec fn is_latest(keys: Seq<Seq<char>>, i: int) -> bool {
    forall|j: int| i < j < keys.len() ==> #[trigger] keys[j] != keys[i]
}

/// The places among the first `n` of the names that no later one repeats.
pub open spec fn latest_places(keys: Seq<Seq<char>>, n: int) -> Seq<int>
    decreases n,
{
    if n <= 0 {
        Seq::empty()
    } else if is_latest(keys, n - 1) {
        latest_places(keys, n - 1).push(n - 1)
    } else {
        latest_places(keys, n - 1)
    }
}

/// The names, each once, at the place of its latest registration.
pub open spec fn distinct_names(keys: Seq<Seq<char>>) -> Seq<Seq<char>> {
    latest_places(keys, keys.len() as int).map_values(|i: int| keys[i])
}

/// What is told of a name that is not registered.
pub open spec fn unknown_adapter(name: Seq<char>, keys: Seq<Seq<char>>) -> (ErrorKind, Seq<char>) {
    (
        ErrorKind::UnknownAdapter,
        "unknown adapter '"@ + name + "' — known adapters: "@ + joined(
            distinct_names(keys),
            ", "@,
        ),
    )
}

/// The name of a registered adapter finds the latest adapter of that name.
pub proof fn law_last_registration_wins(keys: Seq<Seq<char>>, name: Seq<char>)
    ensures
        match last_named(keys, name) {
            Some(i) => 0 <= i < keys.len() && keys[i] == name && is_latest(keys, i),
            None => !keys.contains(name),
        },
    decreases keys.len(),
{
    if keys.len() > 0 {
        let rest = keys.drop_last();
        law_last_registration_wins(rest, name);
        if keys.last() != name {
            match last_named(rest, name) {
                Some(i) => {
                    assert forall|j: int| i < j < keys.len() implies #[trigger] keys[j] != keys[i] by {
                        if j < rest.len() {
                            assert(rest[j] != rest[i]);
                        }
                    }
                },
                None => {
                    if keys.contains(name) {
                        let j = choose|j: int| 0 <= j < keys.len() && keys[j] == name;
                        assert(rest[j] == name);
                    }
                },
            }
        }
    }
}

/// What an adapter can read of a file, and what is wrong with the rest. Tables are never packed.
pub open spec fn adapter_data(spec: AdapterSpec, raw: Seq<u8>) -> (
    Seq<u8>,
    Option<(ErrorKind, Seq<char>)>,
) {
    if spec.adapter@ == "generic_csv"@ {
        (raw, None)
    } else {
        readable(spec.path@, raw)
    }
}

/// Whether a result is what an adapter makes of a file. Where the file breaks off, what is wrong
/// before the break comes first, and the break after it.
pub open spec fn file_read<A: AdapterLoad<N>, N: Number>(
    adapter: A,
    spec: AdapterSpec,
    raw: Seq<u8>,
    r: Result<Vec<MarketEvent<N>>, Error>,
) -> bool {
    let (data, broken) = adapter_data(spec, raw);
    match broken {
        None => adapter.reads(spec, data, r),
        Some(b) => {
            ||| r is Err && adapter.reads(spec, data, r)
            ||| (r matches Err(e) && e@ == b) && exists|evs: Vec<MarketEvent<N>>| #[trigger]
                adapter.reads(spec, data, Ok::<Vec<MarketEvent<N>>, Error>(evs))
        },
    }
}

/// Whether a result is what loading one source comes to.
pub open spec fn spec_loaded<A: AdapterLoad<N>, N: Number>(
    adapters: Seq<A>,
    spec: AdapterSpec,
    raw: Seq<u8>,
    r: Result<Vec<MarketEvent<N>>, Error>,
) -> bool {
    match last_named(keys_of(adapters), spec.adapter@) {
        Some(i) => file_read(adapters[i], spec, raw, r),
        None => r matches Err(e) && e@ == unknown_adapter(spec.adapter@, keys_of(adapters)),
    }
}

/// The events of several sources, one source after the other.
pub open spec fn in_a_row<N>(parts: Seq<Vec<MarketEvent<N>>>) -> Seq<MarketEvent<N>>
    decreases parts.len(),
{
    if parts.len() == 0 {
        Seq::empty()
    } else {
        in_a_row(parts.drop_last()) + parts.last()@
    }
}

/// The parts are what the first sources loaded to.
pub open spec fn parts_loaded<A: AdapterLoad<N>, N: Number>(
    adapters: Seq<A>,
    specs: Seq<AdapterSpec>,
    datas: Seq<Vec<u8>>,
    parts: Seq<Vec<MarketEvent<N>>>,
) -> bool {
    forall|i: int|
        0 <= i < parts.len() ==> spec_loaded(
            adapters,
            #[trigger] specs[i],
            datas[i]@,
            Ok::<Vec<MarketEvent<N>>, Error>(parts[i]),
        )
}

impl<A: DataAdapter> AdapterRegistry<A> {
    /// No adapter yet.
    pub fn new() -> (r: AdapterRegistry<A>)
        ensures
            r.adapters@ == Seq::<A>::empty(),
    {
        AdapterRegistry { adapters: Vec::new() }
    }

    /// Registers an adapter under its name. It hides earlier ones of that name.
    pub fn register(&mut self, adapter: A)
        ensures
            final(self).adapters@ == old(self).adapters@.push(adapter),
    {
        self.adapters.push(adapter);
    }

    /// The latest adapter of a name.
    pub fn get(&self, name: &str) -> (r: Option<&A>)
        ensures
            match r {
                Some(a) => last_named(keys_of(self.adapters@), name@) matches Some(i) && *a
                    == self.adapters@[i],
                None => last_named(keys_of(self.adapters@), name@) is None,
            },
    {
        let ghost keys = keys_of(self.adapters@);
        let mut i: usize = self.adapters.len();
        assert(keys.take(i as int) =~= keys);
        while i > 0
            invariant
                i <= self.adapters@.len(),
                keys == keys_of(self.adapters@),
                last_named(keys, name@) == last_named(keys.take(i as int), name@),
            decreases i,
        {
            let ghost here = keys.take(i as int);
            assert(here.last() == self.adapters@[i - 1].key());
            assert(here.drop_last() =~= keys.take(i - 1));
            if same_text(self.adapters[i - 1].name(), name) {
                return Some(&self.adapters[i - 1]);
            }
            i -= 1;
        }
        None
    }

    /// The places of the adapters that no later one hides.
    fn visible(&self) -> (r: Vec<usize>)
        ensures
            r@.map_values(|i: usize| i as int) == latest_places(
                keys_of(self.adapters@),
                self.adapters@.len() as int,
            ),
            forall|k: int| 0 <= k < r@.len() ==> #[trigger] r@[k] < self.adapters@.len(),
    {
        let ghost keys = keys_of(self.adapters@);
        let mut out: Vec<usize> = Vec::new();
        let mut i: usize = 0;
        assert(out@.map_values(|i: usize| i as int) =~= latest_places(keys, 0));
        while i < self.adapters.len()
            invariant
                i <= self.adapters@.len(),
                keys == keys_of(self.adapters@),
                out@.map_values(|i: usize| i as int) == latest_places(keys, i as int),
                forall|k: int| 0 <= k < out@.len() ==> #[trigger] out@[k] < self.adapters@.len(),
            decreases self.adapters@.len() - i,
        {
            let mut hidden: bool = false;
            let mut j: usize = i + 1;
            while j < self.adapters.len()
                invariant
                    i < j <= self.adapters@.len(),
                    keys == keys_of(self.adapters@),
                    hidden == exists|p: int| i < p < j && #[trigger] keys[p] == keys[i as int],
                decreases self.adapters@.len() - j,
            {
                if same_text(self.adapters[j].name(), self.adapters[i].name()) {
                    assert(keys[j as int] == keys[i as int]);
                    hidden = true;
                }
                j += 1;
            }
            if !hidden {
                let ghost before = out@;
                out.push(i);
                assert(out@.map_values(|i: usize| i as int) =~= before.map_values(
                    |i: usize| i as int,
                ).push(i as int));
            }
            assert(is_latest(keys, i as int) == !hidden);
            i += 1;
        }
        out
    }

    /// What there is to know of each adapter that no later one hides, in the order of
    /// registration.
    pub fn infos(&self) -> (r: Vec<AdapterInfo>)
        ensures
            ({
                let places = latest_places(keys_of(self.adapters@), self.adapters@.len() as int);
                &&& r@.len() == places.len()
                &&& forall|k: int|
                    0 <= k < r@.len() ==> {
                        let a = self.adapters@[places[k]];
                        &&& (#[trigger] r@[k]).name@ == a.key()
                        &&& r@[k].default_venue@ == a.home().tag_text()
                        &&& r@[k].description@ == a.about()
                        &&& knob_texts(r@[k].mapping_keys@) == a.knobs()
                    }
            }),
    {
        let places = self.visible();
        let ghost due = places@.map_values(|i: usize| i as int);
        let mut out: Vec<AdapterInfo> = Vec::new();
        let mut k: usize = 0;
        while k < places.len()
            invariant
                k <= places@.len(),
                out@.len() == k,
                due == places@.map_values(|i: usize| i as int),
                forall|p: int| 0 <= p < places@.len() ==> #[trigger] places@[p] < self.adapters@.len(),
                forall|p: int|
                    0 <= p < k ==> {
                        let a = self.adapters@[due[p]];
                        &&& (#[trigger] out@[p]).name@ == a.key()
                        &&& out@[p].default_venue@ == a.home().tag_text()
                        &&& out@[p].description@ == a.about()
                        &&& knob_texts(out@[p].mapping_keys@) == a.knobs()
                    },
            decreases places@.len() - k,
        {
            out.push(self.adapters[places[k]].info());
            k += 1;
        }
        out
    }

    /// The names of the adapters, each once, in the order of registration.
    pub fn names(&self) -> (r: Vec<String>)
        ensures
            texts(r@) == distinct_names(keys_of(self.adapters@)),
    {
        let places = self.visible();
        let ghost keys = keys_of(self.adapters@);
        let mut out: Vec<String> = Vec::new();
        let mut k: usize = 0;
        while k < places.len()
            invariant
                k <= places@.len(),
                out@.len() == k,
                keys == keys_of(self.adapters@),
                forall|p: int| 0 <= p < places@.len() ==> #[trigger] places@[p] < self.adapters@.len(),
                forall|p: int| 0 <= p < k ==> (#[trigger] out@[p])@ == keys[places@[p] as int],
            decreases places@.len() - k,
        {
            out.push(self.adapters[places[k]].name().to_owned());
            k += 1;
        }
        proof {
            let due = latest_places(keys, keys.len() as int);
            assert forall|p: int| 0 <= p < out@.len() implies texts(out@)[p] == distinct_names(
                keys,
            )[p] by {
                assert(due[p] == places@[p] as int);
            }
            assert(texts(out@) =~= distinct_names(keys));
        }
        out
    }

    /// Reads one source, whose file holds `raw`, with the adapter that it names.
    pub fn load_spec<N: Number>(&self, spec: &AdapterSpec, raw: &[u8]) -> (r: Result<
        Vec<MarketEvent<N>>,
        Error,
    >) where A: AdapterLoad<N>
        ensures
            spec_loaded(self.adapters@, *spec, raw@, r),
    {
        match self.get(spec.adapter.as_str()) {
            Some(a) => if same_text(spec.adapter.as_str(), "generic_csv") || !is_packed(
                spec.path.as_str(),
            ) {
                a.load(spec, raw)
            } else {
                let (data, broken) = unpack(raw);
                let read = a.load(spec, data.as_slice());
                proof {
                    assert(adapter_data(*spec, raw@) == (data@, break_view(broken)));
                    assert(a.reads(*spec, data@, read));
                    if read is Ok {
                        assert(read == Ok::<Vec<MarketEvent<N>>, Error>(read->Ok_0));
                    }
                }
                until_break(read, broken)
            },
            None => {
                let names = self.names();
                let known = join(&names, ", ");
                let head = concat3(
                    "unknown adapter '",
                    spec.adapter.as_str(),
                    "' — known adapters: ",
                );
                Err(Error::new(ErrorKind::UnknownAdapter, concat2(head.as_str(), known.as_str())))
            },
        }
    }

    /// Reads several sources, whose files hold `datas[i]` for `specs[i]`, into one stream in order
    /// of time.
    pub fn load_merged<N: Number>(&self, specs: &Vec<AdapterSpec>, datas: &Vec<Vec<u8>>) -> (r:
        Result<Vec<MarketEvent<N>>, Error>) where A: AdapterLoad<N>
        requires
            specs@.len() == datas@.len(),
        ensures
            match r {
                Ok(events) => exists|parts: Seq<Vec<MarketEvent<N>>>|
                    parts.len() == specs@.len() && #[trigger] parts_loaded(
                        self.adapters@,
                        specs@,
                        datas@,
                        parts,
                    ) && stably_sorted(in_a_row(parts), events@),
                Err(e) => exists|parts: Seq<Vec<MarketEvent<N>>>|
                    parts.len() < specs@.len() && #[trigger] parts_loaded(
                        self.adapters@,
                        specs@,
                        datas@,
                        parts,
                    ) && spec_loaded(
                        self.adapters@,
                        specs@[parts.len() as int],
                        datas@[parts.len() as int]@,
                        Err::<Vec<MarketEvent<N>>, Error>(e),
                    ),
            },
    {
        let mut all: Vec<MarketEvent<N>> = Vec::new();
        let ghost mut parts: Seq<Vec<MarketEvent<N>>> = Seq::empty();
        let mut i: usize = 0;
        while i < specs.len()
            invariant
                i <= specs@.len(),
                specs@.len() == datas@.len(),
                parts.len() == i,
                parts_loaded(self.adapters@, specs@, datas@, parts),
                all@ == in_a_row(parts),
            decreases specs@.len() - i,
        {
            match self.load_spec::<N>(&specs[i], datas[i].as_slice()) {
                Ok(evs) => {
                    let ghost before = parts;
                    proof {
                        parts = parts.push(evs);
                        assert(parts.drop_last() =~= before);
                    }
                    let mut evs = evs;
                    all.append(&mut evs);
                },
                Err(e) => {
                    return Err(e);
                },
            }
            i += 1;
        }
        Ok(sort_events(all))
    }
}

impl<A: DataAdapter> Default for AdapterRegistry<A> {
    fn default() -> (r: AdapterRegistry<A>)
        ensures
            r.adapters@ == Seq::<A>::empty(),
    {
        AdapterRegistry::new()
    }
}

impl AdapterRegistry<Adapter> {
    /// The adapters that come with the library.
    pub fn with_builtins() -> (r: AdapterRegistry<Adapter>)
        ensures
            keys_of(r.adapters@) == seq![
                "kalshi_ndjson"@,
                "generic_ndjson"@,
                "generic_csv"@,
                "polymarket"@,
                "hyperliquid"@,
            ],
            r.adapters@[0] is KalshiNdjson,
            r.adapters@[1] is GenericNdjson,
            r.adapters@[2] is GenericCsv,
            r.adapters@[3] is Polymarket,
            r.adapters@[4] is Hyperliquid,
    {
        let mut reg: AdapterRegistry<Adapter> = AdapterRegistry::new();
        reg.register(Adapter::KalshiNdjson(KalshiNdjsonAdapter::new()));
        reg.register(Adapter::GenericNdjson(GenericNdjsonAdapter::new()));
        reg.register(Adapter::GenericCsv(GenericCsvAdapter::new()));
        reg.register(Adapter::Polymarket(PolymarketAdapter::new()));
        reg.register(Adapter::Hyperliquid(HyperliquidAdapter::new()));
        assert(keys_of(reg.adapters@) =~= seq![
            "kalshi_ndjson"@,
            "generic_ndjson"@,
            "generic_csv"@,
            "polymarket"@,
            "hyperliquid"@,
        ]);
        reg
    }
}

} // verus!
