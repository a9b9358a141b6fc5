//! The trusted boundary around serde_json: the declarations and contracts
//! under which the library reads a JSON document. Each call's result is a
//! function of its argument alone, so it is pinned to a named spec value;
//! everything past these calls is verified against what they state.

use vstd::prelude::*;

verus! {

#[verifier::external_type_specification]
#[verifier::external_body]
pub struct ExValue(serde_json::Value);

#[verifier::external_type_specification]
#[verifier::external_body]
pub struct ExJsonError(serde_json::Error);

/// Whether a text is a well-formed JSON document: exactly the inputs that
/// serde_json's parser accepts.
pub uninterp spec fn json_parse_ok(s: Seq<char>) -> bool;

/// The value that parsing a well-formed JSON document yields.
pub uninterp spec fn json_value_of(s: Seq<char>) -> serde_json::Value;

/// The elements of a JSON value when it is an array, None otherwise.
pub uninterp spec fn json_array_of(v: serde_json::Value) -> Option<Seq<serde_json::Value>>;

/// The text of a JSON value when it is a string, None otherwise.
pub uninterp spec fn json_str_of(v: serde_json::Value) -> Option<Seq<char>>;

/// The number of a JSON value when it is an integer that fits in u64,
/// None otherwise.
pub uninterp spec fn json_u64_of(v: serde_json::Value) -> Option<u64>;

/// Relies on serde_json::from_str::<Value>: the outcome is a function of
/// the input text alone; it is Ok exactly on well-formed JSON (every
/// well-formed document maps to some Value), and then it is that
/// document's value.
#[verifier::external_body]
pub(crate) fn parse_json_value(s: &str) -> (r: Result<serde_json::Value, serde_json::Error>)
    ensures
        r is Ok <==> json_parse_ok(s@),
        r matches Ok(v) ==> v == json_value_of(s@),
{
    serde_json::from_str(s)
}

/// Relies on serde_json::Value::as_array: Some holds the elements exactly
/// when the value is a JSON array, a function of the value alone.
pub assume_specification[ serde_json::Value::as_array ](v: &serde_json::Value) -> (r: Option<
    &Vec<serde_json::Value>,
>)
    ensures
        match r {
            Some(a) => json_array_of(*v) == Some(a@),
            None => json_array_of(*v) is None,
        },
;

/// Relies on serde_json::Value::as_str: Some holds the text exactly when
/// the value is a JSON string, a function of the value alone.
pub assume_specification[ serde_json::Value::as_str ](v: &serde_json::Value) -> (r: Option<&str>)
    ensures
        match r {
            Some(s) => json_str_of(*v) == Some(s@),
            None => json_str_of(*v) is None,
        },
;

/// Relies on serde_json::Value::as_u64: Some holds the number exactly
/// when the value is an integer representable in u64, a function of the
/// value alone.
pub assume_specification[ serde_json::Value::as_u64 ](v: &serde_json::Value) -> (r: Option<u64>)
    ensures
        r == json_u64_of(*v),
;

} // verus!
