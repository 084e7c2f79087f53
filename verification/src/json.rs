//! JSON documents, read by `serde_json`.
//!
//! A parsed document is opaque here; its content is named by [`content`], and each accessor that the
//! loader calls is stated over that name.

use vstd::prelude::*;

verus! {

/// What a JSON value holds. A number is kept by its value as an unsigned 64-bit integer, if it is
/// one.
pub enum Json {
    Null,
    Bool(bool),
    Number(Option<u64>),
    Text(Seq<char>),
    List(Seq<Json>),
    Object(Seq<(Seq<char>, Json)>),
}

/// A `serde_json` document.
#[verifier::external_type_specification]
#[verifier::external_body]
pub struct ExValue(serde_json::Value);

/// A `serde_json` error.
#[verifier::external_type_specification]
#[verifier::external_body]
pub struct ExJsonError(serde_json::Error);

/// What a document holds.
pub uninterp spec fn content(v: serde_json::Value) -> Json;

/// The document that the bytes are parsed to, if they are JSON.
pub uninterp spec fn parsed(bytes: Seq<u8>) -> Option<Json>;

/// The value of a key of an object.
pub open spec fn field_of(j: Json, key: Seq<char>) -> Option<Json> {
    match j {
        Json::Object(entries) => lookup(entries, key),
        _ => None,
    }
}

/// The value of a key in a list of entries.
pub open spec fn lookup(entries: Seq<(Seq<char>, Json)>, key: Seq<char>) -> Option<Json>
    decreases entries.len(),
{
    if entries.len() == 0 {
        None
    } else if entries.last().0 == key {
        Some(entries.last().1)
    } else {
        lookup(entries.drop_last(), key)
    }
}

pub open spec fn text_of(j: Json) -> Option<Seq<char>> {
    match j {
        Json::Text(s) => Some(s),
        _ => None,
    }
}

pub open spec fn list_of(j: Json) -> Option<Seq<Json>> {
    match j {
        Json::List(s) => Some(s),
        _ => None,
    }
}

pub open spec fn number_of(j: Json) -> Option<u64> {
    match j {
        Json::Number(n) => n,
        _ => None,
    }
}

/// `serde_json::from_slice`: parses the bytes, or reports that they are not JSON. Whether they are,
/// and what they hold, depends on the bytes alone.
#[verifier::external_body]
pub(crate) fn parse(bytes: &[u8]) -> (r: Result<serde_json::Value, serde_json::Error>)
    ensures
        match r {
            Ok(v) => parsed(bytes@) == Some(content(v)),
            Err(_) => parsed(bytes@) is None,
        },
{
    serde_json::from_slice(bytes)
}

/// `Value::as_object` and the iteration of its map: the entries of an object in the map's order, no
/// key twice, or nothing for any other value.
#[verifier::external_body]
pub(crate) fn entries(v: &serde_json::Value) -> (r: Option<Vec<(String, &serde_json::Value)>>)
    ensures
        r is Some <==> content(*v) is Object,
        r matches Some(list) ==> {
            let held = content(*v)->Object_0;
            &&& list@.len() == held.len()
            &&& forall|i: int|
                0 <= i < held.len() ==> (#[trigger] list@[i]).0@ == held[i].0 && content(
                    *list@[i].1,
                ) == held[i].1
            &&& forall|i: int, j: int|
                0 <= i < j < held.len() ==> (#[trigger] held[i]).0 != (#[trigger] held[j]).0
        },
{
    v.as_object().map(|m| m.iter().map(|(k, x)| (k.clone(), x)).collect())
}

/// `Value::get` with a string key: the value of the key in an object, nothing elsewhere.
#[verifier::external_body]
pub(crate) fn field<'a>(v: &'a serde_json::Value, key: &str) -> (r: Option<&'a serde_json::Value>)
    ensures
        match r {
            Some(x) => field_of(content(*v), key@) == Some(content(*x)),
            None => field_of(content(*v), key@) is None,
        },
{
    v.get(key)
}

/// `Value::as_str`: the characters of a string, nothing elsewhere.
pub assume_specification[ serde_json::Value::as_str ](v: &serde_json::Value) -> (r: Option<&str>)
    ensures
        match r {
            Some(s) => text_of(content(*v)) == Some(s@),
            None => text_of(content(*v)) is None,
        },
;

/// `Value::as_array`: the elements of a list, nothing elsewhere.
pub assume_specification[ serde_json::Value::as_array ](v: &serde_json::Value) -> (r: Option<
    &Vec<serde_json::Value>,
>)
    ensures
        match r {
            Some(list) => list_of(content(*v)) == Some(
                list@.map_values(|x: serde_json::Value| content(x)),
            ),
            None => list_of(content(*v)) is None,
        },
;

/// `Value::as_u64`: a number that is an unsigned 64-bit integer, nothing elsewhere.
pub assume_specification[ serde_json::Value::as_u64 ](v: &serde_json::Value) -> (r: Option<u64>)
    ensures
        r == number_of(content(*v)),
;

} // verus!
