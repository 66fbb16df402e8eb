//! Reading JSON text.

use crate::text::{maybe, texts, Text};
use vstd::prelude::*;

verus! {

/// The items of the array that a text writes, each as text, or why it writes none.
pub uninterp spec fn json_items(text: Seq<char>) -> Result<Seq<Seq<char>>, Seq<char>>;

/// The value of a field of the object that a text writes, as text.
pub uninterp spec fn json_field(text: Seq<char>, key: Seq<char>) -> Option<Seq<char>>;

/// The unsigned integer that a text writes.
pub uninterp spec fn json_number(text: Seq<char>) -> Option<u64>;

/// What items or an error hold.
pub open spec fn items_result(r: Result<Vec<String>, String>) -> Result<Seq<Text>, Text> {
    match r {
        Ok(v) => Ok(texts(v@)),
        Err(error) => Err(error@),
    }
}

/// `serde_json::from_str` into a list of values, each written out again by its
/// `Display`; an error by its `Display`. Which texts are arrays, and how items and
/// errors are written, is left to the name.
#[verifier::external_body]
pub(crate) fn items(text: &str) -> (r: Result<Vec<String>, String>)
    ensures
        items_result(r) == json_items(text@),
{
    match serde_json::from_str::<Vec<serde_json::Value>>(text) {
        Ok(values) => Ok(values.iter().map(serde_json::Value::to_string).collect()),
        Err(error) => Err(error.to_string()),
    }
}

/// `serde_json::Value::get` with a key: the field of an object, written out again by
/// its `Display`. There is none where the text is no object or has no such field.
#[verifier::external_body]
pub(crate) fn field(text: &str, key: &str) -> (r: Option<String>)
    ensures
        maybe(r) == json_field(text@, key@),
{
    let value = serde_json::from_str::<serde_json::Value>(text).ok()?;
    value.get(key).map(serde_json::Value::to_string)
}

/// `serde_json::Value::as_u64`: the number that the text writes, where it is an
/// unsigned integer of 64 bits.
#[verifier::external_body]
pub(crate) fn number(text: &str) -> (r: Option<u64>)
    ensures
        r == json_number(text@),
{
    serde_json::from_str::<serde_json::Value>(text).ok()?.as_u64()
}

} // verus!
