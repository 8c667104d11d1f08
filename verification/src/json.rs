//! JSON values built with `serde_json` and their text.
//!
//! `serde_json::Value` is opaque here: what a constructor returns is named by
//! a spec function of the constructor's arguments, and what `to_string`
//! writes for a value is named too.

use vstd::prelude::*;

verus! {

#[verifier::external_type_specification]
#[verifier::external_body]
pub struct ExJsonValue(serde_json::Value);

#[verifier::external_type_specification]
#[verifier::external_body]
pub struct ExJsonError(serde_json::Error);

/// The value `Value::from(s)` for a string `s`: a JSON string.
pub uninterp spec fn json_string_value(s: Seq<char>) -> serde_json::Value;

/// The value `Value::from(n)` for an `i64`: a JSON number.
pub uninterp spec fn json_number_value(n: i64) -> serde_json::Value;

/// The value `Value::from(b)` for a `bool`: a JSON boolean.
pub uninterp spec fn json_bool_value(b: bool) -> serde_json::Value;

/// The value `Value::from(items)` for a `Vec<Value>`: a JSON array of the
/// items in order.
pub uninterp spec fn json_array_value(items: Seq<serde_json::Value>) -> serde_json::Value;

/// The value collected from `(key, value)` pairs: a JSON object.
pub uninterp spec fn json_object_value(entries: Seq<(Seq<char>, serde_json::Value)>) -> serde_json::Value;

/// The text that `serde_json::to_string` writes for a value.
pub uninterp spec fn json_text(v: serde_json::Value) -> Seq<char>;

/// Whether `serde_json::from_str::<HashMap<String, Value>>` accepts a text,
/// that is, whether the text is one JSON object.
pub uninterp spec fn is_json_object_text(text: Seq<char>) -> bool;

/// `serde_json::Value::from(String)`, which the crate documents as
/// `Value::String(s)`; its result is named `json_string_value(s)`.
#[verifier::external_body]
pub(crate) fn json_from_string(s: String) -> (v: serde_json::Value)
    ensures
        v == json_string_value(s@),
{
    serde_json::Value::from(s)
}

/// `serde_json::Value::from(i64)` (`Value::Number`); its result is named
/// `json_number_value(n)`.
#[verifier::external_body]
pub(crate) fn json_from_i64(n: i64) -> (v: serde_json::Value)
    ensures
        v == json_number_value(n),
{
    serde_json::Value::from(n)
}

/// `serde_json::Value::from(bool)` (`Value::Bool`); its result is named
/// `json_bool_value(b)`.
#[verifier::external_body]
pub(crate) fn json_from_bool(b: bool) -> (v: serde_json::Value)
    ensures
        v == json_bool_value(b),
{
    serde_json::Value::from(b)
}

/// `serde_json::Value::from(Vec<Value>)` (`Value::Array` of the items); its
/// result is named `json_array_value(items)`.
#[verifier::external_body]
pub(crate) fn json_from_values(items: Vec<serde_json::Value>) -> (v: serde_json::Value)
    ensures
        v == json_array_value(items@),
{
    serde_json::Value::from(items)
}

/// `FromIterator<(String, Value)>` for `serde_json::Value` (`Value::Object`
/// of the pairs); its result is named `json_object_value` of the pairs, each
/// key taken as its characters.
#[verifier::external_body]
pub(crate) fn json_from_entries(entries: Vec<(String, serde_json::Value)>) -> (v: serde_json::Value)
    ensures
        v == json_object_value(entries@.map_values(|e: (String, serde_json::Value)| (e.0@, e.1))),
{
    entries.into_iter().collect()
}

/// `serde_json::to_string` of a `Value`. Its text is named `json_text(v)`.
/// The contract also states that it succeeds: the crate fails only for a
/// `Serialize` impl that fails or a map with non-string keys, and `Value` has
/// neither.
#[verifier::external_body]
pub(crate) fn json_to_text(v: &serde_json::Value) -> (r: Result<String, serde_json::Error>)
    ensures
        r is Ok,
        r is Ok ==> r->Ok_0@ == json_text(*v),
{
    serde_json::to_string(v)
}

/// Whether `serde_json::from_str::<HashMap<String, Value>>` accepts `text`;
/// the answer is named `is_json_object_text(text)`.
#[verifier::external_body]
pub(crate) fn json_object_accepts(text: &str) -> (b: bool)
    ensures
        b == is_json_object_text(text@),
{
    serde_json::from_str::<std::collections::HashMap<String, serde_json::Value>>(text).is_ok()
}

/// The text of a value.
pub fn text_of(v: &serde_json::Value) -> (s: String)
    ensures
        s@ == json_text(*v),
{
    match json_to_text(v) {
        Ok(s) => s,
        Err(_) => {
            proof {
                assert(false);
            }
            String::new()
        },
    }
}

} // verus!
