use vstd::prelude::*;

verus! {

/// Whether serde_json accepts `bytes` as one JSON document
/// (`serde_json::from_slice::<serde_json::Value>` returns `Ok`).
pub uninterp spec fn spec_json_parses(bytes: Seq<u8>) -> bool;

/// The string that the JSON document `bytes` holds under `key`: `None` when
/// the document is not an object, has no such key, or holds something other
/// than a string there.
pub uninterp spec fn spec_json_str_at(bytes: Seq<u8>, key: Seq<char>) -> Option<Seq<char>>;

/// The unsigned integer that the JSON document `bytes` holds under `key`:
/// `None` when the document is not an object, has no such key, or holds
/// something other than a number that fits a `u64` there.
pub uninterp spec fn spec_json_u64_at(bytes: Seq<u8>, key: Seq<char>) -> Option<u64>;

/// The characters of an optional string.
pub open spec fn opt_string_view(s: Option<String>) -> Option<Seq<char>> {
    match s {
        Some(s) => Some(s@),
        None => None,
    }
}

/// Parses `bytes` with `serde_json::from_slice` into a `serde_json::Value`
/// and reads the string under `key` (`value[key].as_str()`). `None` when
/// the parse fails; otherwise the field, which is `None` when it is missing
/// or not a string. The contract claims only that the result is the named
/// function of the bytes and the key; serde_json's parse and indexing do not
/// panic and depend on nothing else.
#[verifier::external_body]
pub fn json_str_at(bytes: &[u8], key: &str) -> (field: Option<Option<String>>)
    ensures
        field is Some == spec_json_parses(bytes@),
        field matches Some(f) ==> opt_string_view(f) == spec_json_str_at(bytes@, key@),
{
    match serde_json::from_slice::<serde_json::Value>(bytes) {
        Ok(v) => Some(v[key].as_str().map(String::from)),
        Err(_) => None,
    }
}

/// Parses `bytes` with `serde_json::from_slice` into a `serde_json::Value`
/// and reads the unsigned integer under `key` (`value[key].as_u64()`).
/// `None` when the parse fails; otherwise the field, which is `None` when it
/// is missing or not a `u64`. As for `json_str_at`, the contract only ties
/// the result to the named functions of the bytes and the key.
#[verifier::external_body]
pub fn json_u64_at(bytes: &[u8], key: &str) -> (field: Option<Option<u64>>)
    ensures
        field is Some == spec_json_parses(bytes@),
        field matches Some(f) ==> f == spec_json_u64_at(bytes@, key@),
{
    match serde_json::from_slice::<serde_json::Value>(bytes) {
        Ok(v) => Some(v[key].as_u64()),
        Err(_) => None,
    }
}

/// Serialises, with serde_json's compact `Display`, the JSON object that
/// holds the one string `value` under `key`. The contract claims that
/// serde_json reads back what it wrote: the bytes parse, and the string
/// under `key` is `value`. Which bytes come out is not stated.
#[verifier::external_body]
pub fn json_object_with_str(key: &str, value: &str) -> (bytes: Vec<u8>)
    ensures
        spec_json_parses(bytes@),
        spec_json_str_at(bytes@, key@) == Some(value@),
{
    let mut object = serde_json::Map::new();
    object.insert(key.to_string(), serde_json::Value::String(value.to_string()));
    serde_json::Value::Object(object).to_string().into_bytes()
}

} // verus!
