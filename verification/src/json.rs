//! JSON values as plain data.

use serde_json::Value;
use vstd::prelude::*;
use vstd::string::*;

verus! {

broadcast use vstd::string::group_string_axioms;

/// A value of `serde_json`.
#[verifier::external_type_specification]
#[verifier::external_body]
pub struct ExValue(serde_json::Value);

/// What a JSON value holds. A table has its keys in the order in which they
/// are listed.
pub enum Json {
    Null,
    Bool(bool),
    Number(Seq<char>),
    Text(Seq<char>),
    List(Seq<Json>),
    Table(Map<Seq<char>, Json>, Seq<Seq<char>>),
}

/// What a JSON value holds.
pub uninterp spec fn json_of(value: Value) -> Json;

/// What a list of JSON values holds.
pub open spec fn json_list(list: Seq<Value>) -> Seq<Json> {
    Seq::new(list.len(), |i: int| json_of(list[i]))
}

/// A JSON value on one line.
pub uninterp spec fn compact_text(value: Json) -> Seq<char>;

impl Json {
    /// The value of a table under a key.
    pub open spec fn field(self, key: Seq<char>) -> Option<Json> {
        match self {
            Json::Table(table, _) => if table.contains_key(key) {
                Some(table[key])
            } else {
                None
            },
            _ => None,
        }
    }

    /// The text, where the value is one.
    pub open spec fn text(self) -> Option<Seq<char>> {
        match self {
            Json::Text(text) => Some(text),
            _ => None,
        }
    }

    /// The values, where the value is a list.
    pub open spec fn list(self) -> Option<Seq<Json>> {
        match self {
            Json::List(list) => Some(list),
            _ => None,
        }
    }

    /// The values by their keys, where the value is a table.
    pub open spec fn table(self) -> Option<Map<Seq<char>, Json>> {
        match self {
            Json::Table(table, _) => Some(table),
            _ => None,
        }
    }
}

/// Whether a table is another one with a value under a key. The keys are
/// listed as they were, and a new one is at one place among them.
pub open spec fn updated(before: Json, key: Seq<char>, entry: Json, after: Json) -> bool {
    match (before, after) {
        (Json::Table(table, listed), Json::Table(next, names)) => {
            &&& next == table.insert(key, entry)
            &&& if table.contains_key(key) {
                names == listed
            } else {
                exists|i: int| 0 <= i <= listed.len() && names == #[trigger] listed.insert(i, key)
            }
        },
        _ => false,
    }
}

/// What a text says as JSON, if it is any.
pub uninterp spec fn json_text(text: Seq<char>) -> Option<Json>;

/// `serde_json::from_str`: the value that a text says. Which texts are JSON,
/// and what they say, stays unsaid; it depends on the text alone.
#[verifier::external_body]
pub(crate) fn read(text: &str) -> (result: Option<Value>)
    ensures
        result is Some == json_text(text@) is Some,
        result matches Some(value) ==> json_text(text@) == Some(json_of(value)),
{
    serde_json::from_str(text).ok()
}

/// `Value::Null`.
#[verifier::external_body]
pub(crate) fn null_value() -> (result: Value)
    ensures
        json_of(result) == Json::Null,
{
    Value::Null
}

/// `Value::get` with a key: the value of a table under the key.
#[verifier::external_body]
pub(crate) fn field<'a>(value: &'a Value, key: &str) -> (result: Option<&'a Value>)
    ensures
        result is Some == json_of(*value).field(key@) is Some,
        result matches Some(found) ==> json_of(*value).field(key@) == Some(json_of(*found)),
{
    value.get(key)
}

/// `Value::as_str`: the text, where the value is one.
#[verifier::external_body]
pub(crate) fn text<'a>(value: &'a Value) -> (result: Option<&'a str>)
    ensures
        result is Some == json_of(*value).text() is Some,
        result matches Some(text) ==> json_of(*value).text() == Some(text@),
{
    value.as_str()
}

/// `Value::as_array`: the values, where the value is a list.
#[verifier::external_body]
pub(crate) fn list<'a>(value: &'a Value) -> (result: Option<&'a Vec<Value>>)
    ensures
        result is Some == json_of(*value).list() is Some,
        result matches Some(list) ==> json_of(*value).list() == Some(json_list(list@)),
{
    value.as_array()
}

/// `Value::as_object` and `Map::keys`: the keys of a table, as they are listed,
/// each of which has a value.
#[verifier::external_body]
pub(crate) fn keys(value: &Value) -> (result: Option<Vec<String>>)
    ensures
        result is Some == json_of(*value) is Table,
        result matches Some(keys) ==> crate::text::texts(keys@) == json_of(*value)->Table_1
            && forall|i: int|
            0 <= i < keys@.len() ==> json_of(*value)->Table_0.contains_key(
                (#[trigger] keys@[i])@,
            ),
{
    value.as_object().map(|table| table.keys().cloned().collect())
}

/// `Value::is_null`.
#[verifier::external_body]
pub(crate) fn is_null(value: &Value) -> (result: bool)
    ensures
        result == json_of(*value) is Null,
{
    value.is_null()
}

/// `serde_json::to_string`: the value on one line. A value is always written,
/// since its keys are texts; what is written depends on what it holds alone,
/// and stays unsaid.
#[verifier::external_body]
pub(crate) fn compact(value: &Value) -> (result: Option<String>)
    ensures
        result is Some,
        result->0@ == compact_text(json_of(*value)),
{
    serde_json::to_string(value).ok()
}

/// `Value::clone`.
#[verifier::external_body]
pub(crate) fn copy(value: &Value) -> (result: Value)
    ensures
        json_of(result) == json_of(*value),
{
    value.clone()
}

/// `Value::Array` of the values.
#[verifier::external_body]
pub(crate) fn list_value(list: Vec<Value>) -> (result: Value)
    ensures
        json_of(result) == Json::List(json_list(list@)),
{
    Value::Array(list)
}

/// `Map::insert` on the table of a value. A key that is there keeps its place;
/// in which place a new one is listed stays unsaid.
#[verifier::external_body]
pub(crate) fn with_field(value: Value, key: &str, entry: Value) -> (result: Value)
    ensures
        json_of(value) is Table ==> updated(
            json_of(value),
            key@,
            json_of(entry),
            json_of(result),
        ),
        !(json_of(value) is Table) ==> json_of(result) == json_of(value),
{
    let mut value = value;
    if let Some(table) = value.as_object_mut() {
        table.insert(key.to_owned(), entry);
    }
    value
}

/// A JSON value on indented lines.
pub uninterp spec fn pretty_text(value: Json) -> Seq<char>;

/// `serde_json::to_string_pretty`: the value on indented lines. A value is
/// always written; what is written depends on what it holds alone, and stays
/// unsaid.
#[verifier::external_body]
pub(crate) fn pretty(value: &Value) -> (result: Option<String>)
    ensures
        result is Some,
        result->0@ == pretty_text(json_of(*value)),
{
    serde_json::to_string_pretty(value).ok()
}

} // verus!
