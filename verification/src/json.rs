//! Values of JSON, read with `serde_json`.
use vstd::prelude::*;

verus! {

/// A JSON value.
pub ghost enum Json {
    Null,
    Bool(bool),
    Number,
    Text(Seq<char>),
    List(Seq<Json>),
    Table(Map<Seq<char>, Json>),
}

/// `serde_json::Value`, a JSON value as it is held in memory.
#[verifier::external_type_specification]
#[verifier::external_body]
pub struct ExValue(serde_json::Value);

/// `serde_json::Error`, why a text is no JSON.
#[verifier::external_type_specification]
#[verifier::external_body]
pub struct ExError(serde_json::Error);

/// The value that is held.
pub uninterp spec fn json_of(v: serde_json::Value) -> Json;

/// The value that a text writes, where it writes one.
pub uninterp spec fn json_in(text: Seq<char>) -> Option<Json>;

/// The value that a run of bytes writes, where it writes one.
pub uninterp spec fn json_in_bytes(bytes: Seq<u8>) -> Option<Json>;

/// `serde_json::from_str`: whether a text writes a value, and which, is a function
/// of the text, named here.
#[verifier::external_body]
pub(crate) fn parse_text(text: &str) -> (r: Result<serde_json::Value, serde_json::Error>)
    ensures
        match r {
            Ok(v) => json_in(text@) == Some(json_of(v)),
            Err(_) => json_in(text@) is None,
        },
{
    serde_json::from_str::<serde_json::Value>(text)
}

/// `serde_json::from_slice`: whether a run of bytes writes a value, and which, is a
/// function of the bytes, named here.
#[verifier::external_body]
pub(crate) fn parse_bytes(bytes: &Vec<u8>) -> (r: Result<serde_json::Value, serde_json::Error>)
    ensures
        match r {
            Ok(v) => json_in_bytes(bytes@) == Some(json_of(v)),
            Err(_) => json_in_bytes(bytes@) is None,
        },
{
    serde_json::from_slice::<serde_json::Value>(bytes)
}

/// The value under a key, where there is one.
pub open spec fn member(v: Json, key: Seq<char>) -> Option<Json> {
    match v {
        Json::Table(m) => if m.contains_key(key) {
            Some(m[key])
        } else {
            None
        },
        _ => None,
    }
}

/// `serde_json::Value::get` with a key: the value under the key of a table. Nothing
/// where the value is no table or has no such key.
#[verifier::external_body]
pub(crate) fn get<'a>(v: &'a serde_json::Value, key: &str) -> (r: Option<&'a serde_json::Value>)
    ensures
        match r {
            Some(x) => member(json_of(*v), key@) == Some(json_of(*x)),
            None => member(json_of(*v), key@) is None,
        },
{
    v.get(key)
}

/// The text that a value is, where it is one.
pub open spec fn text_in(v: Json) -> Option<Seq<char>> {
    match v {
        Json::Text(t) => Some(t),
        _ => None,
    }
}

/// `serde_json::Value::as_str`: the text of a value that is one. Nothing where it is
/// something else.
#[verifier::external_body]
pub(crate) fn as_str<'a>(v: &'a serde_json::Value) -> (r: Option<&'a str>)
    ensures
        match r {
            Some(s) => text_in(json_of(*v)) == Some(s@),
            None => text_in(json_of(*v)) is None,
        },
{
    v.as_str()
}

/// The values of a list of values.
pub open spec fn all_json(v: Seq<serde_json::Value>) -> Seq<Json> {
    Seq::new(v.len(), |i: int| json_of(v[i]))
}

/// The list that a value is, where it is one.
pub open spec fn list_in(v: Json) -> Option<Seq<Json>> {
    match v {
        Json::List(items) => Some(items),
        _ => None,
    }
}

/// `serde_json::Value::as_array`: the values of a value that is a list, in order.
/// Nothing where it is something else.
#[verifier::external_body]
pub(crate) fn as_array<'a>(v: &'a serde_json::Value) -> (r: Option<&'a Vec<serde_json::Value>>)
    ensures
        match r {
            Some(items) => list_in(json_of(*v)) == Some(all_json(items@)),
            None => list_in(json_of(*v)) is None,
        },
{
    v.as_array()
}

/// The list under a key, where there is one.
pub open spec fn list_at(v: Json, key: Seq<char>) -> Option<Seq<Json>> {
    match member(v, key) {
        Some(x) => list_in(x),
        None => None,
    }
}

/// The text under a key, where there is one.
pub open spec fn text_at(v: Json, key: Seq<char>) -> Option<Seq<char>> {
    match member(v, key) {
        Some(x) => text_in(x),
        None => None,
    }
}

/// The list under a key.
pub(crate) fn get_list<'a>(v: &'a serde_json::Value, key: &str) -> (r: Option<
    &'a Vec<serde_json::Value>,
>)
    ensures
        match r {
            Some(items) => list_at(json_of(*v), key@) == Some(all_json(items@)),
            None => list_at(json_of(*v), key@) is None,
        },
{
    match get(v, key) {
        Some(x) => as_array(x),
        None => None,
    }
}

/// The text under a key.
pub(crate) fn get_text<'a>(v: &'a serde_json::Value, key: &str) -> (r: Option<&'a str>)
    ensures
        match r {
            Some(s) => text_at(json_of(*v), key@) == Some(s@),
            None => text_at(json_of(*v), key@) is None,
        },
{
    match get(v, key) {
        Some(x) => as_str(x),
        None => None,
    }
}

} // verus!
