//! Profiles: the settings of a source, kept in a file of their own.
use crate::adapters::{opt_text, AdapterSpec};
use crate::error::{Error, ErrorKind};
use crate::strmap::StrMap;
use crate::text::{concat3, strip_suffix, without_suffix};
use vstd::prelude::*;

verus! {

/// The value of a key that a profile does not know by name: a text, or something else.
#[derive(Debug, Clone, PartialEq)]
pub enum Extra {
    Text(String),
    Other,
}

/// A profile. Whatever it sets, the command line may set otherwise.
#[derive(Debug, Clone, PartialEq)]
pub struct AdapterProfile {
    /// The name of the adapter.
    pub adapter: Option<String>,
    /// The tag of the venue.
    pub venue: Option<String>,
    /// The pattern of the instruments.
    pub instrument: Option<String>,
    /// The settings of the adapter.
    pub mapping: StrMap<String>,
    /// The setting `ts_unit`.
    pub ts_unit: Option<String>,
    /// The setting `price_scale`.
    pub price_scale: Option<String>,
    /// All other keys; `x_col` is the setting `x`.
    pub extra: StrMap<Extra>,
}

/// A map with a value for a key that it does not have yet.
pub open spec fn with_default(
    m: Map<Seq<char>, Seq<char>>,
    key: Seq<char>,
    value: Option<Seq<char>>,
) -> Map<Seq<char>, Seq<char>> {
    match value {
        Some(v) => if m.contains_key(key) {
            m
        } else {
            m.insert(key, v)
        },
        None => m,
    }
}

/// The texts of a map of strings.
pub open spec fn map_texts(m: Map<Seq<char>, String>) -> Map<Seq<char>, Seq<char>> {
    m.map_values(|s: String| s@)
}

/// The settings once the other keys are folded in, in the order of the keys, or the first key that
/// cannot be.
pub open spec fn folded(
    m: Map<Seq<char>, Seq<char>>,
    keys: Seq<Seq<char>>,
    extra: Map<Seq<char>, Extra>,
) -> Result<Map<Seq<char>, Seq<char>>, (ErrorKind, Seq<char>)>
    decreases keys.len(),
{
    if keys.len() == 0 {
        Ok(m)
    } else {
        match folded(m, keys.drop_last(), extra) {
            Err(e) => Err(e),
            Ok(before) => match without_suffix(keys.last(), "_col"@) {
                Some(name) => match extra[keys.last()] {
                    Extra::Text(s) => Ok(with_default(before, name, Some(s@))),
                    Extra::Other => Err(
                        (
                            ErrorKind::BadProfile,
                            "profile key '"@ + keys.last() + "' must be a string column name"@,
                        ),
                    ),
                },
                None => Err(
                    (
                        ErrorKind::BadProfile,
                        "unknown profile key '"@ + keys.last()
                            + "' — expected adapter|venue|instrument|mapping|ts_unit|price_scale or a <field>_col key"@,
                    ),
                ),
            },
        }
    }
}

/// The settings with some other keys folded in, up to the first of them that cannot be.
pub open spec fn folded_so_far(
    m: Map<Seq<char>, Seq<char>>,
    keys: Seq<Seq<char>>,
    extra: Map<Seq<char>, Extra>,
) -> Map<Seq<char>, Seq<char>>
    decreases keys.len(),
{
    match folded(m, keys, extra) {
        Ok(all) => all,
        Err(_) => if keys.len() == 0 {
            m
        } else {
            folded_so_far(m, keys.drop_last(), extra)
        },
    }
}

proof fn lemma_fold_failure_stays(
    m: Map<Seq<char>, Seq<char>>,
    keys: Seq<Seq<char>>,
    extra: Map<Seq<char>, Extra>,
    n: int,
)
    requires
        0 < n <= keys.len(),
        folded(m, keys.take(n - 1), extra) is Ok,
        folded(m, keys.take(n), extra) is Err,
    ensures
        folded(m, keys, extra) == folded(m, keys.take(n), extra),
        folded(m, keys.take(n - 1), extra) == Ok::<
            Map<Seq<char>, Seq<char>>,
            (ErrorKind, Seq<char>),
        >(folded_so_far(m, keys, extra)),
    decreases keys.len(),
{
    let rest = keys.drop_last();
    assert(rest.take(n - 1) =~= keys.take(n - 1));
    if n == keys.len() {
        assert(keys.take(n) =~= keys);
        assert(keys.take(n - 1) =~= rest);
        reveal_with_fuel(folded_so_far, 2);
    } else {
        assert(rest.take(n) =~= keys.take(n));
        lemma_fold_failure_stays(m, rest, extra, n);
    }
}

fn put_default(m: &mut StrMap<String>, key: &str, value: &str)
    ensures
        map_texts(final(m)@) == with_default(map_texts(old(m)@), key@, Some(value@)),
{
    let ghost before = m@;
    m.insert_if_absent(key.to_owned(), value.to_owned());
    assert(map_texts(m@) =~= with_default(map_texts(before), key@, Some(value@)));
}

impl AdapterProfile {
    /// The settings once the other keys are folded in: first `ts_unit` and `price_scale`, then the
    /// rest. A setting that is there already stays.
    pub open spec fn all_settings(self) -> Result<
        Map<Seq<char>, Seq<char>>,
        (ErrorKind, Seq<char>),
    > {
        folded(self.unit_settings(), self.extra.keys(), self.extra@)
    }

    /// The settings once `ts_unit` and `price_scale` are folded in.
    pub open spec fn unit_settings(self) -> Map<Seq<char>, Seq<char>> {
        with_default(
            with_default(map_texts(self.mapping@), "ts_unit"@, opt_text(self.ts_unit)),
            "price_scale"@,
            opt_text(self.price_scale),
        )
    }

    /// Folds the other keys into the settings. Where one cannot be, those before it stay folded
    /// in, and all of them are gone from their own places.
    pub fn fold_convenience_keys(&mut self) -> (r: Result<(), Error>)
        ensures
            match r {
                Ok(_) => old(self).all_settings() is Ok,
                Err(e) => old(self).all_settings() == Err::<
                    Map<Seq<char>, Seq<char>>,
                    (ErrorKind, Seq<char>),
                >(e@),
            },
            map_texts(final(self).mapping@) == folded_so_far(
                old(self).unit_settings(),
                old(self).extra.keys(),
                old(self).extra@,
            ),
            final(self).ts_unit is None,
            final(self).price_scale is None,
            final(self).extra@ == Map::<Seq<char>, Extra>::empty(),
            final(self).adapter == old(self).adapter,
            final(self).venue == old(self).venue,
            final(self).instrument == old(self).instrument,
    {
        let mut m: StrMap<String> = StrMap::new();
        std::mem::swap(&mut m, &mut self.mapping);
        match self.ts_unit.take() {
            Some(u) => {
                put_default(&mut m, "ts_unit", u.as_str());
            },
            None => {},
        }
        match self.price_scale.take() {
            Some(s) => {
                put_default(&mut m, "price_scale", s.as_str());
            },
            None => {},
        }
        let mut extra: StrMap<Extra> = StrMap::new();
        std::mem::swap(&mut extra, &mut self.extra);
        let ghost start = map_texts(m@);
        let n: usize = extra.len();
        let mut i: usize = 0;
        let ghost keys = extra.keys();
        while i < n
            invariant
                i <= n,
                n == keys.len(),
                keys == extra.keys(),
                extra.coherent(),
                start == old(self).unit_settings(),
                keys == old(self).extra.keys(),
                extra@ == old(self).extra@,
                self.ts_unit is None,
                self.price_scale is None,
                self.extra@ == Map::<Seq<char>, Extra>::empty(),
                self.adapter == old(self).adapter,
                self.venue == old(self).venue,
                self.instrument == old(self).instrument,
                folded(start, keys.take(i as int), extra@) == Ok::<
                    Map<Seq<char>, Seq<char>>,
                    (ErrorKind, Seq<char>),
                >(map_texts(m@)),
            decreases n - i,
        {
            let ghost here = keys.take(i + 1);
            proof {
                assert(here.drop_last() =~= keys.take(i as int));
                assert(here.last() == keys[i as int]);
            }
            let key = extra.key_at(i);
            match strip_suffix(key.as_str(), "_col") {
                Some(name) => match extra.value_at(i) {
                    Extra::Text(s) => {
                        put_default(&mut m, name.as_str(), s.as_str());
                    },
                    Extra::Other => {
                        proof {
                            lemma_fold_failure_stays(start, keys, extra@, i + 1);
                        }
                        self.mapping = m;
                        return Err(
                            Error::new(
                                ErrorKind::BadProfile,
                                concat3(
                                    "profile key '",
                                    key.as_str(),
                                    "' must be a string column name",
                                ),
                            ),
                        );
                    },
                },
                None => {
                    proof {
                        lemma_fold_failure_stays(start, keys, extra@, i + 1);
                    }
                    self.mapping = m;
                    return Err(
                        Error::new(
                            ErrorKind::BadProfile,
                            concat3(
                                "unknown profile key '",
                                key.as_str(),
                                "' — expected adapter|venue|instrument|mapping|ts_unit|price_scale or a <field>_col key",
                            ),
                        ),
                    );
                },
            }
            i += 1;
        }
        assert(keys.take(keys.len() as int) =~= keys);
        self.mapping = m;
        Ok(())
    }

    /// Fills in what a source has not set.
    pub fn apply_to(&self, spec: &mut AdapterSpec)
        ensures
            final(spec).adapter@ == if old(spec).adapter@.len() == 0 && self.adapter is Some {
                self.adapter->0@
            } else {
                old(spec).adapter@
            },
            final(spec).venue@ == if old(spec).venue@.len() == 0 && self.venue is Some {
                self.venue->0@
            } else {
                old(spec).venue@
            },
            final(spec).instrument == if old(spec).instrument is None {
                self.instrument
            } else {
                old(spec).instrument
            },
            final(spec).path == old(spec).path,
            final(spec).start == old(spec).start,
            final(spec).end == old(spec).end,
            map_texts(final(spec).mapping@) == map_texts(self.mapping@).union_prefer_right(
                map_texts(old(spec).mapping@),
            ),
    {
        if spec.adapter.as_str().is_empty() {
            match &self.adapter {
                Some(a) => {
                    spec.adapter = a.clone();
                },
                None => {},
            }
        }
        if spec.venue.as_str().is_empty() {
            match &self.venue {
                Some(v) => {
                    spec.venue = v.clone();
                },
                None => {},
            }
        }
        if spec.instrument.is_none() {
            spec.instrument = match &self.instrument {
                Some(p) => Some(p.clone()),
                None => None,
            };
        }
        let mut m: StrMap<String> = StrMap::new();
        std::mem::swap(&mut m, &mut spec.mapping);
        let ghost before = map_texts(m@);
        let ghost keys = self.mapping.keys();
        let n: usize = self.mapping.len();
        let mut i: usize = 0;
        while i < n
            invariant
                i <= n,
                n == keys.len(),
                keys == self.mapping.keys(),
                self.mapping.coherent(),
                forall|k: Seq<char>| #[trigger]
                    map_texts(m@).contains_key(k) <==> before.contains_key(k) || keys.take(
                        i as int,
                    ).contains(k),
                forall|k: Seq<char>| #[trigger]
                    map_texts(m@).contains_key(k) ==> map_texts(m@)[k] == if before.contains_key(
                        k,
                    ) {
                        before[k]
                    } else {
                        self.mapping@[k]@
                    },
            decreases n - i,
        {
            let ghost was = map_texts(m@);
            let k = self.mapping.key_at(i);
            let v = self.mapping.value_at(i);
            put_default(&mut m, k.as_str(), v.as_str());
            proof {
                assert(keys.take(i + 1) =~= keys.take(i as int).push(keys[i as int]));
                assert forall|t: Seq<char>| #[trigger]
                    map_texts(m@).contains_key(t) <==> before.contains_key(t) || keys.take(
                        i + 1,
                    ).contains(t) by {
                    assert(was.contains_key(t) <==> before.contains_key(t) || keys.take(
                        i as int,
                    ).contains(t));
                    let a = keys.take(i as int);
                    let b = keys.take(i + 1);
                    if b.contains(t) {
                        let p = choose|p: int| 0 <= p < b.len() && b[p] == t;
                        if p < a.len() {
                            assert(a[p] == t);
                        }
                    }
                    if a.contains(t) {
                        let p = choose|p: int| 0 <= p < a.len() && a[p] == t;
                        assert(b[p] == t);
                    }
                    assert(b[i as int] == keys[i as int]);
                }
            }
            i += 1;
        }
        proof {
            assert(keys.take(keys.len() as int) =~= keys);
            assert(map_texts(m@) =~= map_texts(self.mapping@).union_prefer_right(before));
        }
        spec.mapping = m;
    }
}

impl Default for AdapterProfile {
    fn default() -> (r: AdapterProfile)
        ensures
            r.adapter is None,
            r.venue is None,
            r.instrument is None,
            r.mapping@ == Map::<Seq<char>, String>::empty(),
            r.ts_unit is None,
            r.price_scale is None,
            r.extra@ == Map::<Seq<char>, Extra>::empty(),
    {
        AdapterProfile {
            adapter: None,
            venue: None,
            instrument: None,
            mapping: StrMap::new(),
            ts_unit: None,
            price_scale: None,
            extra: StrMap::new(),
        }
    }
}

} // verus!
