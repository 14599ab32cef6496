//! JSON values, as `serde_json` reads them.

use serde_json::Value;
use vstd::prelude::*;

verus! {

/// `serde_json::Value`, which the library carries without looking inside.
#[verifier::external_type_specification]
#[verifier::external_body]
pub struct ExValue(serde_json::Value);

/// The value that `serde_json::from_slice` reads from bytes of JSON text, or `None`
/// where it reports an error.
pub uninterp spec fn json_value(text: Seq<u8>) -> Option<Value>;

/// The members of a JSON object by key. Every other JSON value has no members.
pub uninterp spec fn json_members(value: Value) -> Map<Seq<char>, Value>;

/// The characters of a JSON string. Every other JSON value has none.
pub uninterp spec fn json_string(value: Value) -> Option<Seq<char>>;

/// `serde_json::from_slice`, reading a `Value`. What it returns is decided by the
/// bytes alone and goes by the name `json_value`; the error is dropped.
#[verifier::external_body]
pub(crate) fn parse(text: &[u8]) -> (value: Option<Value>)
    ensures
        value == json_value(text@),
{
    serde_json::from_slice::<Value>(text).ok()
}

/// `Value::get` with a string: the member under that key where the value is an
/// object that has one, and nothing otherwise.
#[verifier::external_body]
pub(crate) fn member<'a>(value: &'a Value, key: &str) -> (found: Option<&'a Value>)
    ensures
        match found {
            Some(inner) => json_members(*value).contains_key(key@) && *inner == json_members(
                *value,
            )[key@],
            None => !json_members(*value).contains_key(key@),
        },
{
    value.get(key)
}

/// `Value::as_str`: the characters of a JSON string, and nothing for any other value.
#[verifier::external_body]
pub(crate) fn string<'a>(value: &'a Value) -> (characters: Option<&'a str>)
    ensures
        match characters {
            Some(text) => json_string(*value) == Some(text@),
            None => json_string(*value) is None,
        },
{
    value.as_str()
}

/// The string that an object holds under `key`, if the value is an object and that
/// member is a string.
pub open spec fn string_member(value: Value, key: Seq<char>) -> Option<Seq<char>> {
    if json_members(value).contains_key(key) {
        json_string(json_members(value)[key])
    } else {
        None
    }
}

/// The string that an object holds under `key`.
pub(crate) fn member_string<'a>(value: &'a Value, key: &str) -> (characters: Option<&'a str>)
    ensures
        match characters {
            Some(text) => string_member(*value, key@) == Some(text@),
            None => string_member(*value, key@) is None,
        },
{
    match member(value, key) {
        Some(inner) => string(inner),
        None => None,
    }
}

} // verus!
