//! Trusted surface over the JSON library used to read the upstream
//! registry's responses. A parsed document is opaque here, but its contents
//! are given a name: `json_doc_of` names what the parse of a text denotes,
//! `json_model` names what a parsed value holds, and every accessor's
//! contract speaks over that model. The verified logic extracts plain values
//! through these wrappers and does everything else itself.

use vstd::prelude::*;

verus! {

/// A model of a parsed JSON value. A number carries the machine integer it
/// denotes, or nothing when it denotes none (a fraction, or one out of
/// range); an object carries its members keyed by name.
pub ghost enum JsonVal {
    Null,
    Bool(bool),
    Num(Option<i64>),
    Str(Seq<char>),
    Arr(Seq<JsonVal>),
    Obj(Map<Seq<char>, JsonVal>),
}

/// What the parse of a text denotes: its document model, or nothing when the
/// text is not valid JSON. The parse depends on the text alone.
pub uninterp spec fn json_doc_of(s: Seq<char>) -> Option<JsonVal>;

/// What a parsed value holds.
pub uninterp spec fn json_model(v: serde_json::Value) -> JsonVal;

#[verifier::external_type_specification]
#[verifier::external_body]
pub struct ExValue(serde_json::Value);

/// Relies on `serde_json::from_str::<Value>`: parses a JSON document. The
/// result holds the text's document model; a failure comes back as the
/// library's error text, exactly when the text denotes no document.
#[verifier::external_body]
pub(crate) fn json_from_str(s: &str) -> (r: Result<serde_json::Value, String>)
    ensures
        r matches Ok(v) ==> json_doc_of(s@) == Some(json_model(v)),
        r is Err <==> json_doc_of(s@) is None,
{
    match serde_json::from_str(s) {
        Ok(v) => Ok(v),
        Err(e) => Err(e.to_string()),
    }
}

/// Relies on `serde_json::Value::get`: the member of an object under a key,
/// `None` for a missing key or a non-object.
#[verifier::external_body]
pub(crate) fn json_get<'a>(v: &'a serde_json::Value, key: &str) -> (r: Option<
    &'a serde_json::Value,
>)
    ensures
        match json_model(*v) {
            JsonVal::Obj(m) => {
                &&& (r is Some <==> m.dom().contains(key@))
                &&& (r matches Some(x) ==> json_model(*x) == m[key@])
            },
            _ => r is None,
        },
{
    v.get(key)
}

/// Relies on `serde_json::Value::as_array`: the elements, when the value is
/// an array.
#[verifier::external_body]
pub(crate) fn json_as_array<'a>(v: &'a serde_json::Value) -> (r: Option<
    &'a Vec<serde_json::Value>,
>)
    ensures
        r is Some <==> json_model(*v) is Arr,
        r matches Some(a) ==> (json_model(*v) matches JsonVal::Arr(items) && a@.len()
            == items.len() && forall|k: int|
            0 <= k < items.len() ==> json_model(#[trigger] a@[k]) == items[k]),
{
    v.as_array()
}

/// Relies on `serde_json::Value::as_str`: the contents, when the value is a
/// string.
#[verifier::external_body]
pub(crate) fn json_as_str<'a>(v: &'a serde_json::Value) -> (r: Option<&'a str>)
    ensures
        r is Some <==> json_model(*v) is Str,
        r matches Some(x) ==> json_model(*v) == JsonVal::Str(x@),
{
    v.as_str()
}

/// Relies on `serde_json::Value::as_i64`: the machine integer a number
/// denotes, when it denotes one.
#[verifier::external_body]
pub(crate) fn json_as_i64(v: &serde_json::Value) -> (r: Option<i64>)
    ensures
        r == (match json_model(*v) {
            JsonVal::Num(o) => o,
            _ => None::<i64>,
        }),
{
    v.as_i64()
}

} // verus!
