//! JSON payloads of room responses, built and copied with serde_json.

use vstd::prelude::*;

verus! {

/// serde_json's dynamically typed JSON value, carried opaquely.
#[verifier::external_type_specification]
#[verifier::external_body]
pub struct ExJsonValue(serde_json::Value);

/// The JSON object `{key: value}` with one string member, as serde_json
/// builds it.
pub uninterp spec fn single_string_object(key: Seq<char>, value: Seq<char>) -> serde_json::Value;

/// Builds the JSON object `{key: value}` with serde_json: a new
/// `serde_json::Map`, one `Map::insert` of `Value::String(value)` under `key`,
/// wrapped in `Value::Object`. The contract names the result by its inputs and
/// says nothing more of it.
#[verifier::external_body]
pub(crate) fn string_object(key: &str, value: &str) -> (v: serde_json::Value)
    ensures
        v == single_string_object(key@, value@),
{
    let mut map = serde_json::Map::new();
    map.insert(key.to_string(), serde_json::Value::String(value.to_string()));
    serde_json::Value::Object(map)
}

/// A copy of a JSON value by serde_json's `Value::clone` (derived, so the copy
/// is the same value).
#[verifier::external_body]
pub(crate) fn copy_json(v: &serde_json::Value) -> (r: serde_json::Value)
    ensures
        r == *v,
{
    v.clone()
}

} // verus!
