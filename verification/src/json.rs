//! JSON documents, as the `serde_json` crate parses them.

use vstd::prelude::*;

verus! {

/// A parsed JSON value.
#[verifier::external_type_specification]
#[verifier::external_body]
pub struct ExternalValue(serde_json::Value);

/// Why a text is no JSON document.
#[verifier::external_type_specification]
#[verifier::external_body]
pub struct ExternalError(serde_json::Error);

/// What a JSON value holds. Of a number only its value as a `u64` is told,
/// where it is an integer that is one.
pub enum Json {
    Null,
    Bool(bool),
    Number(Option<u64>),
    Text(Seq<char>),
    List(Seq<Json>),
    Object(Map<Seq<char>, Json>),
}

/// What a parsed value holds.
pub uninterp spec fn json_value(value: serde_json::Value) -> Json;

/// What `serde_json` parses a text to, or `None` where it refuses the text: it
/// is no JSON document, or one that is nested too deeply.
pub uninterp spec fn json_document(text: Seq<char>) -> Option<Json>;

/// The member `key` of an object.
pub open spec fn member(value: Json, key: Seq<char>) -> Option<Json> {
    match value {
        Json::Object(members) => if members.dom().contains(key) {
            Some(members[key])
        } else {
            None
        },
        _ => None,
    }
}

/// `serde_json::from_str`: parses a text. Whether it succeeds, and what the
/// document then holds, is settled by the text alone. A document that is nested
/// too deeply is refused like a text that is none.
#[verifier::external_body]
pub(crate) fn parse(text: &str) -> (r: Result<serde_json::Value, serde_json::Error>)
    ensures
        match r {
            Ok(value) => json_document(text@) == Some(json_value(value)),
            Err(_) => json_document(text@) is None,
        },
{
    serde_json::from_str(text)
}

/// `serde_json::Value::get` with a string: the member of that name, or `None`
/// where there is none or the value is no object.
#[verifier::external_body]
pub(crate) fn get<'a>(value: &'a serde_json::Value, key: &str) -> (r: Option<&'a serde_json::Value>)
    ensures
        match r {
            Some(found) => member(json_value(*value), key@) == Some(json_value(*found)),
            None => member(json_value(*value), key@) is None,
        },
{
    value.get(key)
}

/// `serde_json::Value::is_object`: whether the value is an object.
#[verifier::external_body]
pub(crate) fn is_object(value: &serde_json::Value) -> (b: bool)
    ensures
        b == (json_value(*value) is Object),
{
    value.is_object()
}

/// `serde_json::Value::as_array`: the items of an array, or `None` where the
/// value is none.
#[verifier::external_body]
pub(crate) fn as_array<'a>(value: &'a serde_json::Value) -> (r: Option<&'a Vec<serde_json::Value>>)
    ensures
        match r {
            Some(items) => json_value(*value) == Json::List(
                Seq::new(items@.len(), |i: int| json_value(items@[i])),
            ),
            None => !(json_value(*value) is List),
        },
{
    value.as_array()
}

/// `serde_json::Value::as_str`: the contents of a string, or `None` where the
/// value is none.
#[verifier::external_body]
pub(crate) fn as_str<'a>(value: &'a serde_json::Value) -> (r: Option<&'a str>)
    ensures
        match r {
            Some(text) => json_value(*value) == Json::Text(text@),
            None => !(json_value(*value) is Text),
        },
{
    value.as_str()
}

/// `serde_json::Value::as_u64`: the value of a number that is an integer and
/// fits a `u64`, or `None`.
#[verifier::external_body]
pub(crate) fn as_u64(value: &serde_json::Value) -> (r: Option<u64>)
    ensures
        r == (match json_value(*value) {
            Json::Number(n) => n,
            _ => None,
        }),
{
    value.as_u64()
}

} // verus!
