//! Stored documents as JSON text: `serde_json` reads a document from its
//! text and writes one back.

use vstd::prelude::*;
use vstd::utf8::*;
use serde_json::{Number, Value};
use crate::json::{JsonObject, JsonValue};
use crate::text::is_utf8;

verus! {

/// `serde_json`'s JSON value, carried through the conversions below.
#[verifier::external_type_specification]
#[verifier::external_body]
pub struct ExJsonValue(serde_json::Value);

/// The document that `serde_json::from_str` reads from a text as a JSON
/// object: each member with its value, a number kept as the text that
/// `serde_json` writes for it; none where the text is no JSON object.
pub uninterp spec fn parsed_document(text: Seq<char>) -> Option<JsonObject>;

/// The JSON text that `serde_json::to_string` writes for a document; none
/// where a number's text does not read as a JSON number.
pub uninterp spec fn document_json_text(doc: JsonObject) -> Option<Seq<char>>;

/// A `serde_json` value as a library value, one variant for one variant; a
/// number becomes the text that its `Display` writes.
#[verifier::external_body]
fn value_model(v: Value) -> JsonValue {
    match v {
        Value::Null => JsonValue::Null,
        Value::Bool(b) => JsonValue::Bool(b),
        Value::Number(n) => JsonValue::Number(n.to_string()),
        Value::String(s) => JsonValue::Str(s),
        Value::Array(a) => JsonValue::Array(a.into_iter().map(value_model).collect()),
        Value::Object(m) => JsonValue::Object(JsonObject { entries: m.into_iter().map(|(k, x)| (k, value_model(x))).collect() }),
    }
}

/// A library value as a `serde_json` value, one variant for one variant; a
/// number's text is read back by `Number`'s `FromStr`, none where it fails.
#[verifier::external_body]
fn value_json(v: &JsonValue) -> Option<Value> {
    match v {
        JsonValue::Null => Some(Value::Null),
        JsonValue::Bool(b) => Some(Value::Bool(*b)),
        JsonValue::Number(t) => t.parse::<Number>().ok().map(Value::Number),
        JsonValue::Str(s) => Some(Value::String(s.clone())),
        JsonValue::Array(a) => a.iter().map(value_json).collect::<Option<Vec<Value>>>().map(Value::Array),
        JsonValue::Object(o) => o.entries.iter().map(|(k, x)| value_json(x).map(|j| (k.clone(), j))).collect::<Option<serde_json::Map<String, Value>>>().map(Value::Object),
    }
}

/// `serde_json::from_str` of the text as a map of members. Its map keeps the
/// members in ascending order of their names (a `BTreeMap` of `String`s, the
/// `preserve_order` feature being off), so the document is well formed.
#[verifier::external_body]
fn parse_document(text: &str) -> (r: Option<JsonObject>)
    ensures
        r == parsed_document(text@),
        r matches Some(o) ==> o.wf(),
{
    match serde_json::from_str::<serde_json::Map<String, Value>>(text) {
        Ok(m) => Some(JsonObject { entries: m.into_iter().map(|(k, x)| (k, value_model(x))).collect() }),
        Err(_) => None,
    }
}

/// `serde_json::to_string` of the document as a map of members; writing a
/// map of `String`s to JSON values does not fail.
#[verifier::external_body]
pub(crate) fn document_json(doc: &JsonObject) -> (r: Option<String>)
    ensures
        r is None <==> document_json_text(*doc) is None,
        r matches Some(t) ==> document_json_text(*doc) == Some(t@),
{
    let m = doc.entries.iter().map(|(k, x)| value_json(x).map(|j| (k.clone(), j))).collect::<Option<serde_json::Map<String, Value>>>();
    m.and_then(|m| serde_json::to_string(&m).ok())
}

/// The document stored as `bytes`: none unless they are well-formed UTF-8
/// whose text `serde_json` reads as a JSON object.
pub fn document_from_bytes(bytes: &[u8]) -> (r: Option<JsonObject>)
    ensures
        r == (if valid_utf8(bytes@) {
            parsed_document(decode_utf8(bytes@))
        } else {
            None
        }),
        r matches Some(o) ==> o.wf(),
{
    if is_utf8(bytes) {
        let text = crate::text::utf8_slice(bytes);
        parse_document(text)
    } else {
        None
    }
}

} // verus!
