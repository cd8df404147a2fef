//! The lists of what there is to choose from.
use crate::adapters::{AdapterInfo, MappingKey};
use crate::cli::show::{left, pad_right};
use crate::cli::tables::{name_width, say, wider};
use crate::text::{concat2, concat3, decimal, texts, u64_text};
use vstd::prelude::*;

verus! {

/// What there is to know of a strategy.
#[derive(Debug, Clone, Copy)]
pub struct StrategyInfo {
    pub name: &'static str,
    pub description: &'static str,
    pub key_params: &'static str,
}

/// The names of some strategies.
pub open spec fn strategy_names(list: Seq<StrategyInfo>) -> Seq<Seq<char>> {
    list.map_values(|i: StrategyInfo| i.name@)
}

/// The lines for the first strategies of a list.
pub open spec fn strategy_lines(list: Seq<StrategyInfo>, w: nat) -> Seq<Seq<char>>
    decreases list.len(),
{
    if list.len() == 0 {
        Seq::empty()
    } else {
        let i = list.last();
        strategy_lines(list.drop_last(), w).push(
            "  "@ + left(i.name@, w) + "  "@ + i.description@,
        ).push("  "@ + left(""@, w) + "  params: "@ + i.key_params@)
    }
}

/// What the list of the strategies says.
pub open spec fn strategies_listing(list: Seq<StrategyInfo>) -> Seq<Seq<char>> {
    let w = if list.len() == 0 {
        4
    } else {
        name_width(strategy_names(list), 0)
    };
    (Seq::<Seq<char>>::empty().push(
        "Available strategies ("@ + decimal(list.len()) + "):"@,
    ).push(""@) + strategy_lines(list, w)).push(""@).push(
        "Use one with:  kalshi-backtest backtest --strategy <name> ..."@,
    )
}

fn strategies_width(list: &Vec<StrategyInfo>) -> (w: usize)
    ensures
        w == name_width(strategy_names(list@), 0),
{
    let ghost all = strategy_names(list@);
    let n: usize = list.len();
    let mut w: usize = 0;
    let mut i: usize = 0;
    while i < n
        invariant
            i <= n,
            n == list@.len(),
            all == strategy_names(list@),
            w == name_width(all.take(i as int), 0),
        decreases n - i,
    {
        proof {
            assert(all.take(i + 1).drop_last() =~= all.take(i as int));
            assert(all.take(i + 1).last() == list@[i as int].name@);
        }
        w = wider(w, list[i].name);
        i += 1;
    }
    proof {
        assert(all.take(n as int) =~= all);
    }
    w
}

/// Lists strategies: of each its name, what it does, and what can be set.
pub fn list_strategies(list: &Vec<StrategyInfo>) -> (r: Vec<String>)
    ensures
        texts(r@) == strategies_listing(list@),
{
    let n: usize = list.len();
    let w: usize = if n == 0 {
        4
    } else {
        strategies_width(list)
    };
    let mut out: Vec<String> = Vec::new();
    proof {
        assert(texts(out@) =~= Seq::<Seq<char>>::empty());
    }
    say(&mut out, concat3("Available strategies (", u64_text(n as u64).as_str(), "):"));
    say(&mut out, "".to_owned());
    let ghost head = texts(out@);
    let mut i: usize = 0;
    proof {
        assert(list@.take(0) =~= Seq::<StrategyInfo>::empty());
        assert(head + Seq::<Seq<char>>::empty() =~= head);
    }
    while i < n
        invariant
            i <= n,
            n == list@.len(),
            texts(out@) == head + strategy_lines(list@.take(i as int), w as nat),
        decreases n - i,
    {
        let mut s = concat2("  ", pad_right(list[i].name, w).as_str());
        s.append("  ");
        s.append(list[i].description);
        let ghost first = s@;
        say(&mut out, s);
        let mut s = concat2("  ", pad_right("", w).as_str());
        s.append("  params: ");
        s.append(list[i].key_params);
        let ghost second = s@;
        say(&mut out, s);
        proof {
            let before = strategy_lines(list@.take(i as int), w as nat);
            assert(list@.take(i + 1).drop_last() =~= list@.take(i as int));
            assert(texts(out@) =~= head + before.push(first).push(second));
        }
        i += 1;
    }
    proof {
        assert(list@.take(n as int) =~= list@);
    }
    say(&mut out, "".to_owned());
    say(&mut out, "Use one with:  kalshi-backtest backtest --strategy <name> ...".to_owned());
    out
}

/// The names of some adapters.
pub open spec fn adapter_names(list: Seq<AdapterInfo>) -> Seq<Seq<char>> {
    list.map_values(|i: AdapterInfo| i.name@)
}

/// The keys of some settings.
pub open spec fn key_names(keys: Seq<MappingKey>) -> Seq<Seq<char>> {
    keys.map_values(|k: MappingKey| k.key@)
}

/// A line for each setting.
pub open spec fn key_lines(keys: Seq<MappingKey>, w: nat, key_w: nat) -> Seq<Seq<char>> {
    keys.map_values(
        |k: MappingKey| "  "@ + left(""@, w) + "    "@ + left(k.key@, key_w) + "  "@ + k.note@,
    )
}

/// The lines for one adapter.
pub open spec fn adapter_lines(i: AdapterInfo, w: nat) -> Seq<Seq<char>> {
    let head = Seq::<Seq<char>>::empty().push(
        "  "@ + left(i.name@, w) + "  ["@ + i.default_venue@ + "]  "@ + i.description@,
    );
    if i.mapping_keys@.len() == 0 {
        head.push(
            "  "@ + left(""@, w) + "  mapping: (none — this adapter ignores --map/profile)"@,
        ).push(""@)
    } else {
        head.push("  "@ + left(""@, w) + "  mapping keys:"@) + key_lines(
            i.mapping_keys@,
            w,
            name_width(key_names(i.mapping_keys@), 0),
        ).push(""@)
    }
}

/// The lines for some adapters.
pub open spec fn all_adapter_lines(list: Seq<AdapterInfo>, w: nat) -> Seq<Seq<char>>
    decreases list.len(),
{
    if list.len() == 0 {
        Seq::empty()
    } else {
        all_adapter_lines(list.drop_last(), w) + adapter_lines(list.last(), w)
    }
}

/// What the list of the adapters says.
pub open spec fn adapters_listing(list: Seq<AdapterInfo>) -> Seq<Seq<char>> {
    let w = if list.len() == 0 {
        6
    } else {
        name_width(adapter_names(list), 0)
    };
    (Seq::<Seq<char>>::empty().push(
        "Available data adapters ("@ + decimal(list.len()) + "):"@,
    ).push(""@) + all_adapter_lines(list, w)).push(
        "Use one with:  kalshi-backtest backtest --source adapter --adapter <name> \\"@,
    ).push("                 --venue <TAG> --adapter-path <file> [--adapter-profile p.json]"@).push(
        "Preview a source first:  kalshi-backtest validate --source adapter --adapter <name> ..."@,
    )
}

fn adapters_width(list: &Vec<AdapterInfo>) -> (w: usize)
    ensures
        w == name_width(adapter_names(list@), 0),
{
    let ghost all = adapter_names(list@);
    let n: usize = list.len();
    let mut w: usize = 0;
    let mut i: usize = 0;
    while i < n
        invariant
            i <= n,
            n == list@.len(),
            all == adapter_names(list@),
            w == name_width(all.take(i as int), 0),
        decreases n - i,
    {
        proof {
            assert(all.take(i + 1).drop_last() =~= all.take(i as int));
            assert(all.take(i + 1).last() == list@[i as int].name@);
        }
        w = wider(w, list[i].name.as_str());
        i += 1;
    }
    proof {
        assert(all.take(n as int) =~= all);
    }
    w
}

fn keys_width(keys: &Vec<MappingKey>) -> (w: usize)
    ensures
        w == name_width(key_names(keys@), 0),
{
    let ghost all = key_names(keys@);
    let n: usize = keys.len();
    let mut w: usize = 0;
    let mut i: usize = 0;
    while i < n
        invariant
            i <= n,
            n == keys@.len(),
            all == key_names(keys@),
            w == name_width(all.take(i as int), 0),
        decreases n - i,
    {
        proof {
            assert(all.take(i + 1).drop_last() =~= all.take(i as int));
            assert(all.take(i + 1).last() == keys@[i as int].key@);
        }
        w = wider(w, keys[i].key);
        i += 1;
    }
    proof {
        assert(all.take(n as int) =~= all);
    }
    w
}

fn say_keys(out: &mut Vec<String>, keys: &Vec<MappingKey>, w: usize)
    ensures
        texts(final(out)@) == texts(old(out)@) + key_lines(
            keys@,
            w as nat,
            name_width(key_names(keys@), 0),
        ),
{
    let key_w: usize = keys_width(keys);
    let ghost start = texts(out@);
    let ghost due = key_lines(keys@, w as nat, key_w as nat);
    let n: usize = keys.len();
    let mut i: usize = 0;
    while i < n
        invariant
            i <= n,
            n == keys@.len(),
            due == key_lines(keys@, w as nat, key_w as nat),
            texts(out@) =~= start + due.take(i as int),
        decreases n - i,
    {
        let mut s = concat2("  ", pad_right("", w).as_str());
        s.append("    ");
        s.append(pad_right(keys[i].key, key_w).as_str());
        s.append("  ");
        s.append(keys[i].note);
        say(out, s);
        proof {
            assert(due.take(i + 1) =~= due.take(i as int).push(due[i as int]));
        }
        i += 1;
    }
    proof {
        assert(due.take(n as int) =~= due);
    }
}

fn say_adapter(out: &mut Vec<String>, i: &AdapterInfo, w: usize)
    ensures
        texts(final(out)@) == texts(old(out)@) + adapter_lines(*i, w as nat),
{
    let ghost start = texts(out@);
    let mut s = concat2("  ", pad_right(i.name.as_str(), w).as_str());
    s.append("  [");
    s.append(i.default_venue.as_str());
    s.append("]  ");
    s.append(i.description.as_str());
    say(out, s);
    if i.mapping_keys.len() == 0 {
        let mut s = concat2("  ", pad_right("", w).as_str());
        s.append("  mapping: (none — this adapter ignores --map/profile)");
        say(out, s);
    } else {
        let mut s = concat2("  ", pad_right("", w).as_str());
        s.append("  mapping keys:");
        say(out, s);
        say_keys(out, &i.mapping_keys, w);
    }
    say(out, "".to_owned());
    proof {
        assert(texts(out@) =~= start + adapter_lines(*i, w as nat));
    }
}

/// Lists adapters: of each its name, its venue, what it reads, and what can be set.
pub fn list_adapters(list: &Vec<AdapterInfo>) -> (r: Vec<String>)
    ensures
        texts(r@) == adapters_listing(list@),
{
    let n: usize = list.len();
    let w: usize = if n == 0 {
        6
    } else {
        adapters_width(list)
    };
    let mut out: Vec<String> = Vec::new();
    proof {
        assert(texts(out@) =~= Seq::<Seq<char>>::empty());
    }
    say(&mut out, concat3("Available data adapters (", u64_text(n as u64).as_str(), "):"));
    say(&mut out, "".to_owned());
    let ghost head = texts(out@);
    let mut i: usize = 0;
    proof {
        assert(list@.take(0) =~= Seq::<AdapterInfo>::empty());
        assert(head + Seq::<Seq<char>>::empty() =~= head);
    }
    while i < n
        invariant
            i <= n,
            n == list@.len(),
            texts(out@) == head + all_adapter_lines(list@.take(i as int), w as nat),
        decreases n - i,
    {
        say_adapter(&mut out, &list[i], w);
        proof {
            let before = all_adapter_lines(list@.take(i as int), w as nat);
            assert(list@.take(i + 1).drop_last() =~= list@.take(i as int));
            assert(texts(out@) =~= head + (before + adapter_lines(list@[i as int], w as nat)));
        }
        i += 1;
    }
    proof {
        assert(list@.take(n as int) =~= list@);
    }
    say(
        &mut out,
        "Use one with:  kalshi-backtest backtest --source adapter --adapter <name> \\".to_owned(),
    );
    say(
        &mut out,
        "                 --venue <TAG> --adapter-path <file> [--adapter-profile p.json]".to_owned(),
    );
    say(
        &mut out,
        "Preview a source first:  kalshi-backtest validate --source adapter --adapter <name> ...".to_owned(),
    );
    out
}

} // verus!
