//! The calls into other crates, and what the library takes from them.
use crate::text::texts;
use vstd::prelude::*;

verus! {

/// A number as JSON writes it.
#[derive(Debug, Clone, PartialEq)]
pub struct JsonNumber {
    /// Its value, where that is an integer that fits.
    pub int: Option<i64>,
    /// Its text.
    pub text: String,
}

/// A JSON value.
#[derive(Debug)]
pub enum Json {
    Null,
    Bool(bool),
    Number(JsonNumber),
    Text(String),
    List(Vec<Json>),
    Object(Vec<(String, Json)>),
}

/// What a JSON value says: a number is its value, where that is an integer that fits, and its text.
pub enum JsonView {
    Null,
    Bool(bool),
    Number(Option<i64>, Seq<char>),
    Text(Seq<char>),
    List(Seq<JsonView>),
    Object(Seq<(Seq<char>, JsonView)>),
}

impl Json {
    /// What the value says.
    pub open spec fn says(self) -> JsonView
        decreases self,
    {
        match self {
            Json::Null => JsonView::Null,
            Json::Bool(b) => JsonView::Bool(b),
            Json::Number(n) => JsonView::Number(n.int, n.text@),
            Json::Text(s) => JsonView::Text(s@),
            Json::List(items) => JsonView::List(
                Seq::new(
                    items@.len(),
                    |i: int|
                        if 0 <= i < items@.len() {
                            items@[i].says()
                        } else {
                            JsonView::Null
                        },
                ),
            ),
            Json::Object(members) => JsonView::Object(
                Seq::new(
                    members@.len(),
                    |i: int|
                        if 0 <= i < members@.len() {
                            (members@[i].0@, members@[i].1.says())
                        } else {
                            (Seq::empty(), JsonView::Null)
                        },
                ),
            ),
        }
    }
}

/// What the items of a list say.
pub open spec fn items_say(items: Seq<Json>) -> Seq<JsonView> {
    items.map_values(|v: Json| v.says())
}

/// What the members of an object say.
pub open spec fn members_say(members: Seq<(String, Json)>) -> Seq<(Seq<char>, JsonView)> {
    members.map_values(|m: (String, Json)| (m.0@, m.1.says()))
}

/// A list says what its items say, one after the other.
pub proof fn lemma_list_says(items: Vec<Json>)
    ensures
        Json::List(items)@ == JsonView::List(items_say(items@)),
{
    assert(Json::List(items).says()->List_0 =~= items_say(items@));
}

/// An object says what its members say, one after the other.
pub proof fn lemma_object_says(members: Vec<(String, Json)>)
    ensures
        Json::Object(members)@ == JsonView::Object(members_say(members@)),
{
    assert(Json::Object(members).says()->Object_0 =~= members_say(members@));
}

impl View for Json {
    type V = JsonView;

    open spec fn view(&self) -> JsonView {
        self.says()
    }
}

#[verifier::external_type_specification]
#[verifier::external_body]
pub struct ExJsonValue(serde_json::Value);

/// Copies a `serde_json::Value` into a value of this library, node by node.
#[verifier::external_body]
fn json_of(v: serde_json::Value) -> (r: Json) {
    match v {
        serde_json::Value::Null => Json::Null,
        serde_json::Value::Bool(b) => Json::Bool(b),
        serde_json::Value::Number(n) => Json::Number(JsonNumber { int: n.as_i64(), text: n.to_string() }),
        serde_json::Value::String(s) => Json::Text(s),
        serde_json::Value::Array(a) => Json::List(a.into_iter().map(json_of).collect()),
        serde_json::Value::Object(m) => Json::Object(m.into_iter().map(|(k, v)| (k, json_of(v))).collect()),
    }
}

/// The JSON value that `serde_json::from_str` reads from a text, or what it says of a text that is
/// no JSON.
pub uninterp spec fn json_value(text: Seq<char>) -> Result<JsonView, Seq<char>>;

/// `serde_json::from_str`: reads a text as one JSON value. What it reads depends on the text
/// alone, and is named `json_value`.
#[verifier::external_body]
pub(crate) fn parse_json(text: &str) -> (r: Result<Json, String>)
    ensures
        match r {
            Ok(v) => json_value(text@) == Ok::<JsonView, Seq<char>>(v@),
            Err(e) => json_value(text@) == Err::<JsonView, Seq<char>>(e@),
        },
{
    match serde_json::from_str::<serde_json::Value>(text) {
        Ok(v) => Ok(json_of(v)),
        Err(e) => Err(e.to_string()),
    }
}

/// A table with a header row. A record that could not be read is `None`.
#[derive(Debug, Clone, PartialEq)]
pub struct Table {
    pub headers: Vec<String>,
    pub records: Vec<Option<Vec<String>>>,
}

/// What a record says, if it could be read.
pub open spec fn record_says(record: Option<Vec<String>>) -> Option<Seq<Seq<char>>> {
    match record {
        Some(cells) => Some(texts(cells@)),
        None => None,
    }
}

/// What a table says.
pub struct TableView {
    pub headers: Seq<Seq<char>>,
    pub records: Seq<Option<Seq<Seq<char>>>>,
}

impl View for Table {
    type V = TableView;

    open spec fn view(&self) -> TableView {
        TableView {
            headers: texts(self.headers@),
            records: self.records@.map_values(|r: Option<Vec<String>>| record_says(r)),
        }
    }
}

/// The table that the reader of the crate `csv` makes of some bytes, or what it says of a header
/// that it cannot read.
pub uninterp spec fn csv_table(data: Seq<u8>) -> Result<TableView, Seq<char>>;

/// `csv::Reader`: reads bytes as comma-separated values with a header row, records of any length.
/// What it reads depends on the bytes alone, and is named `csv_table`.
#[verifier::external_body]
pub(crate) fn parse_csv(data: &[u8]) -> (r: Result<Table, String>)
    ensures
        match r {
            Ok(t) => csv_table(data@) == Ok::<TableView, Seq<char>>(t@),
            Err(e) => csv_table(data@) == Err::<TableView, Seq<char>>(e@),
        },
{
    let mut rdr = csv::ReaderBuilder::new().flexible(true).has_headers(true).from_reader(data);
    let headers = match rdr.headers() {
        Ok(h) => h.iter().map(|h| h.to_string()).collect(),
        Err(e) => return Err(e.to_string()),
    };
    let records = rdr.records().map(|r| r.ok().map(|r| r.iter().map(|s| s.to_string()).collect())).collect();
    Ok(Table { headers, records })
}

/// What `chrono` makes of a text `YYYY-MM-DD`: where it is no date, what it says of that; else the
/// nanoseconds since the epoch at its midnight in UTC, where they fit.
pub uninterp spec fn date_nanos(text: Seq<char>) -> Result<Option<i64>, Seq<char>>;

/// `chrono::NaiveDate::parse_from_str` with the format `%Y-%m-%d`, and the timestamp of that day's
/// midnight in UTC. Both depend on the text alone, and are named `date_nanos`.
#[verifier::external_body]
pub(crate) fn parse_date(text: &str) -> (r: Result<Option<i64>, String>)
    ensures
        match r {
            Ok(ns) => date_nanos(text@) == Ok::<Option<i64>, Seq<char>>(ns),
            Err(e) => date_nanos(text@) == Err::<Option<i64>, Seq<char>>(e@),
        },
{
    match chrono::NaiveDate::parse_from_str(text, "%Y-%m-%d") {
        Ok(date) => Ok(date.and_time(chrono::NaiveTime::MIN).and_utc().timestamp_nanos_opt()),
        Err(e) => Err(e.to_string()),
    }
}

/// What `chrono` makes of a text in a date-and-time format: nothing where it does not fit the
/// format; else the nanoseconds since the epoch, read as UTC, where they fit.
pub uninterp spec fn datetime_nanos(text: Seq<char>, format: Seq<char>) -> Option<Option<i64>>;

/// `chrono::NaiveDateTime::parse_from_str`, and the timestamp of what it reads, as UTC. Both depend
/// on the text and the format alone, and are named `datetime_nanos`.
#[verifier::external_body]
pub(crate) fn parse_datetime(text: &str, format: &str) -> (r: Option<Option<i64>>)
    ensures
        r == datetime_nanos(text@, format@),
{
    let time = chrono::NaiveDateTime::parse_from_str(text, format).ok()?;
    Some(time.and_utc().timestamp_nanos_opt())
}

/// How `chrono` writes an instant in UTC down to the minute, where it can hold it.
pub uninterp spec fn minute_text(secs: i64, nanos: u32) -> Option<Seq<char>>;

/// `chrono::DateTime::from_timestamp`, written with the format `%Y-%m-%d %H:%M`. The text depends
/// on the timestamp alone, and is named `minute_text`.
#[verifier::external_body]
pub(crate) fn show_minute(secs: i64, nanos: u32) -> (r: Option<String>)
    ensures
        match r {
            Some(s) => minute_text(secs, nanos) == Some(s@),
            None => minute_text(secs, nanos) is None,
        },
{
    let time = chrono::DateTime::from_timestamp(secs, nanos)?;
    Some(time.format("%Y-%m-%d %H:%M").to_string())
}

/// How `chrono` writes an instant in UTC down to the second, where it can hold it.
pub uninterp spec fn second_text(secs: i64, nanos: u32) -> Option<Seq<char>>;

/// `chrono::DateTime::from_timestamp`, written with the format `%Y-%m-%d %H:%M:%S`. The text
/// depends on the timestamp alone, and is named `second_text`.
#[verifier::external_body]
pub(crate) fn show_second(secs: i64, nanos: u32) -> (r: Option<String>)
    ensures
        match r {
            Some(s) => second_text(secs, nanos) == Some(s@),
            None => second_text(secs, nanos) is None,
        },
{
    let time = chrono::DateTime::from_timestamp(secs, nanos)?;
    Some(time.format("%Y-%m-%d %H:%M:%S").to_string())
}

/// The bytes that `flate2` unpacks from the first member of a gzip stream, read through a buffer of
/// 8 KiB, and what it says of the stream where it cannot go on.
pub uninterp spec fn gunzipped(data: Seq<u8>) -> (Seq<u8>, Option<Seq<char>>);

/// `flate2::read::GzDecoder`, read byte by byte through a buffer of 8 KiB, to the end of the first
/// member or to the first failure. The bytes that came out before that, and the text of the failure,
/// depend on the packed bytes alone; both are named `gunzipped`.
#[verifier::external_body]
pub(crate) fn gunzip(data: &[u8]) -> (r: (Vec<u8>, Option<String>))
    ensures
        gunzipped(data@).0 == r.0@,
        match r.1 {
            Some(e) => gunzipped(data@).1 == Some(e@),
            None => gunzipped(data@).1 is None,
        },
{
    let unpacker = std::io::BufReader::with_capacity(8192, flate2::read::GzDecoder::new(data));
    let mut failure: Option<String> = None;
    let bytes = std::io::Read::bytes(unpacker)
        .map_while(|b| b.map_err(|e| failure = Some(e.to_string())).ok())
        .collect();
    (bytes, failure)
}

} // verus!
