//! Reading fields of JSON values.
use crate::foreign::{lemma_object_says, members_say, Json, JsonView};
use crate::number::Number;
use crate::text::{
    chars_of, find_from, int_within, lemma_first_index, parse_i64, same_text, split, split_at_char,
    texts,
};
use vstd::prelude::*;

verus! {

/// The value of the first member with a key.
pub open spec fn member(members: Seq<(Seq<char>, JsonView)>, key: Seq<char>) -> Option<JsonView>
    decreases members.len(),
{
    if members.len() == 0 {
        None
    } else if members[0].0 == key {
        Some(members[0].1)
    } else {
        member(members.drop_first(), key)
    }
}

/// The value of a key, where the value is an object that has it.
pub open spec fn child(v: JsonView, key: Seq<char>) -> Option<JsonView> {
    match v {
        JsonView::Object(members) => member(members, key),
        _ => None,
    }
}

/// The value that is reached by one key after the other.
pub open spec fn walk(v: JsonView, keys: Seq<Seq<char>>) -> Option<JsonView>
    decreases keys.len(),
{
    if keys.len() == 0 {
        Some(v)
    } else {
        match child(v, keys[0]) {
            Some(w) => walk(w, keys.drop_first()),
            None => None,
        }
    }
}

/// The value at a path: keys with dots between them.
pub open spec fn at_path(v: JsonView, path: Seq<char>) -> Option<JsonView> {
    if path.contains('.') {
        walk(v, split_at_char(path, '.'))
    } else {
        child(v, path)
    }
}

/// The text of a value that is one.
pub open spec fn text_of(v: Option<JsonView>) -> Option<Seq<char>> {
    match v {
        Some(JsonView::Text(s)) => Some(s),
        _ => None,
    }
}

/// The integer of a value that is a whole number.
pub open spec fn int_of(v: Option<JsonView>) -> Option<i64> {
    match v {
        Some(JsonView::Number(whole, _)) => whole,
        _ => None,
    }
}

/// The number of a value that is one.
pub open spec fn number_of<N: Number>(v: Option<JsonView>) -> Option<N> {
    match v {
        Some(JsonView::Number(_, text)) => N::written(text),
        _ => None,
    }
}

/// The integer that a value stands for: a number, cut off to whole where need be, or the text of
/// an integer.
pub open spec fn loose_int_of<N: Number>(v: Option<JsonView>) -> Option<i64> {
    match v {
        Some(JsonView::Number(whole, text)) => match whole {
            Some(i) => Some(i),
            None => match N::written(text) {
                Some(x) => Some(x.truncated()),
                None => None,
            },
        },
        Some(JsonView::Text(s)) => match int_within(s, i64::MIN as int, i64::MAX as int) {
            Some(i) => Some(i as i64),
            None => None,
        },
        _ => None,
    }
}

/// The number that a value stands for: a number, or the text of one.
pub open spec fn loose_number_of<N: Number>(v: Option<JsonView>) -> Option<N> {
    match v {
        Some(JsonView::Number(_, text)) => N::written(text),
        Some(JsonView::Text(s)) => N::written(s),
        _ => None,
    }
}

/// Whether a value stands for yes: a whole number other than 0, or `true`.
pub open spec fn flag_of(v: Option<JsonView>) -> bool {
    match v {
        Some(JsonView::Number(whole, _)) => whole matches Some(i) && i != 0,
        Some(JsonView::Bool(b)) => b,
        _ => false,
    }
}

/// The value of an optional reference.
pub open spec fn found(r: Option<&Json>) -> Option<JsonView> {
    match r {
        Some(v) => Some(v@),
        None => None,
    }
}

/// The value of a key.
#[verifier::loop_isolation(false)]
pub fn get<'a>(v: &'a Json, key: &str) -> (r: Option<&'a Json>)
    ensures
        found(r) == child(v@, key@),
{
    match v {
        Json::Object(members) => {
            let ghost said = members_say(members@);
            proof {
                lemma_object_says(*members);
                assert(said.skip(0) =~= said);
            }
            let mut i: usize = 0;
            while i < members.len()
                invariant
                    i <= members@.len(),
                    said == members_say(members@),
                    member(said, key@) == member(said.skip(i as int), key@),
                decreases members@.len() - i,
            {
                assert(said.skip(i as int)[0] == (members@[i as int].0@, members@[i as int].1@));
                if same_text(members[i].0.as_str(), key) {
                    return Some(&members[i].1);
                }
                assert(said.skip(i as int).drop_first() =~= said.skip(i + 1));
                i += 1;
            }
            None
        },
        _ => None,
    }
}

/// The value at a path: keys with dots between them.
#[verifier::loop_isolation(false)]
pub fn get_path<'a>(v: &'a Json, path: &str) -> (r: Option<&'a Json>)
    ensures
        found(r) == at_path(v@, path@),
{
    let cs = chars_of(path);
    let dot: usize = find_from(&cs, 0, '.');
    proof {
        assert(cs@.skip(0) =~= cs@);
        lemma_first_index(cs@, '.');
    }
    if dot == cs.len() {
        return get(v, path);
    }
    let keys = split(path, '.');
    let ghost all = texts(keys@);
    let mut cur: &Json = v;
    let mut i: usize = 0;
    assert(all.skip(0) =~= all);
    while i < keys.len()
        invariant
            i <= keys@.len(),
            all == texts(keys@),
            walk(v@, all) == walk(cur@, all.skip(i as int)),
        decreases keys@.len() - i,
    {
        assert(all.skip(i as int)[0] == keys@[i as int]@);
        assert(all.skip(i as int).drop_first() =~= all.skip(i + 1));
        match get(cur, keys[i].as_str()) {
            Some(w) => {
                cur = w;
            },
            None => {
                return None;
            },
        }
        i += 1;
    }
    Some(cur)
}

/// The text of a value that is one.
pub fn as_text(v: Option<&Json>) -> (r: Option<String>)
    ensures
        match r {
            Some(s) => text_of(found(v)) == Some(s@),
            None => text_of(found(v)) is None,
        },
{
    match v {
        Some(Json::Text(s)) => Some(s.clone()),
        _ => None,
    }
}

/// The integer of a value that is a whole number.
pub fn as_int(v: Option<&Json>) -> (r: Option<i64>)
    ensures
        r == int_of(found(v)),
{
    match v {
        Some(Json::Number(n)) => n.int,
        _ => None,
    }
}

/// The number of a value that is one.
pub fn as_number<N: Number>(v: Option<&Json>) -> (r: Option<N>)
    ensures
        r == number_of::<N>(found(v)),
{
    match v {
        Some(Json::Number(n)) => N::parse(n.text.as_str()),
        _ => None,
    }
}

/// The integer that a value stands for.
pub fn as_loose_int<N: Number>(v: Option<&Json>) -> (r: Option<i64>)
    ensures
        r == loose_int_of::<N>(found(v)),
{
    match v {
        Some(Json::Number(n)) => match n.int {
            Some(i) => Some(i),
            None => match N::parse(n.text.as_str()) {
                Some(x) => Some(x.to_int()),
                None => None,
            },
        },
        Some(Json::Text(s)) => parse_i64(s.as_str()),
        _ => None,
    }
}

/// The number that a value stands for.
pub fn as_loose_number<N: Number>(v: Option<&Json>) -> (r: Option<N>)
    ensures
        r == loose_number_of::<N>(found(v)),
{
    match v {
        Some(Json::Number(n)) => N::parse(n.text.as_str()),
        Some(Json::Text(s)) => N::parse(s.as_str()),
        _ => None,
    }
}

/// Whether a value stands for yes.
pub fn as_flag(v: Option<&Json>) -> (r: bool)
    ensures
        r == flag_of(found(v)),
{
    match v {
        Some(Json::Number(n)) => match n.int {
            Some(i) => i != 0,
            None => false,
        },
        Some(Json::Bool(b)) => *b,
        _ => false,
    }
}

/// Of several members with one key the first one counts; members with other keys do not matter.
pub proof fn law_first_members_count(
    members: Seq<(Seq<char>, JsonView)>,
    key: Seq<char>,
    v: JsonView,
    other: Seq<char>,
)
    ensures
        child(JsonView::Object(seq![(key, v)] + members), key) == Some(v),
        other != key ==> child(JsonView::Object(seq![(other, v)] + members), key) == child(
            JsonView::Object(members),
            key,
        ),
        child(JsonView::Object(Seq::empty()), key) is None,
{
    let a = seq![(key, v)] + members;
    let b = seq![(other, v)] + members;
    assert(a[0] == (key, v));
    assert(b[0] == (other, v));
    assert(b.drop_first() =~= members);
}

/// A path with a dot goes from one object into the next, key by key; a path without one is a key.
pub proof fn law_paths_go_key_by_key(v: JsonView, first: Seq<char>, rest: Seq<Seq<char>>, key: Seq<char>)
    ensures
        walk(v, seq![first] + rest) == match child(v, first) {
            Some(w) => walk(w, rest),
            None => None,
        },
        walk(v, Seq::empty()) == Some(v),
        !key.contains('.') ==> at_path(v, key) == child(v, key),
        key.contains('.') ==> at_path(v, key) == walk(v, split_at_char(key, '.')),
{
    let keys = seq![first] + rest;
    assert(keys[0] == first);
    assert(keys.drop_first() =~= rest);
}

} // verus!
