use crate::amount::RawAmount;
use std::collections::BTreeMap;
use vstd::prelude::*;

verus! {

/// A value of an output JSON object.
#[derive(Debug, Clone, PartialEq, Eq)]
pub enum JsonValue {
    Int(u64),
    Text(String),
}

/// What a `JsonValue` stands for.
pub enum JsonValueView {
    Int(u64),
    Text(Seq<char>),
}

impl View for JsonValue {
    type V = JsonValueView;

    open spec fn view(&self) -> JsonValueView {
        match self {
            JsonValue::Int(n) => JsonValueView::Int(*n),
            JsonValue::Text(t) => JsonValueView::Text(t@),
        }
    }
}

pub open spec fn json_entries_view(e: Seq<(String, JsonValue)>) -> Seq<(Seq<char>, JsonValueView)> {
    e.map_values(|p: (String, JsonValue)| (p.0@, p.1@))
}

/// The entries, ordered by key, of the JSON object that a text holds, if it is one.
pub uninterp spec fn document_entries(text: Seq<char>) -> Option<Seq<(String, RawAmount)>>;

/// The pretty-printed JSON object of the entries collected into a map: keys come out
/// sorted, and a repeated key keeps its last value.
pub uninterp spec fn pretty_json(entries: Seq<(Seq<char>, JsonValueView)>) -> Seq<char>;

/// Relies on `serde_json::from_str` into a `BTreeMap<String, serde_json::Value>`: the
/// result depends on the text alone. Numbers are handed on in their `Display` form, which
/// with the `arbitrary_precision` feature is the number as written in the text.
#[verifier::external_body]
pub(crate) fn parse_document(text: &str) -> (r: Option<Vec<(String, RawAmount)>>)
    ensures
        match r {
            Some(v) => document_entries(text@) == Some(v@),
            None => document_entries(text@) is None,
        },
{
    match serde_json::from_str::<BTreeMap<String, serde_json::Value>>(text) {
        Ok(m) => Some(m.into_iter().map(|(k, v)| (k, match v {
            serde_json::Value::Number(n) => RawAmount::Number(n.to_string()),
            serde_json::Value::String(s) => RawAmount::Text(s),
            other => RawAmount::Other(other.to_string()),
        })).collect()),
        Err(_) => None,
    }
}

/// Relies on `serde_json::to_string_pretty` of a `BTreeMap<String, serde_json::Value>`:
/// the text depends on the entries alone, and it cannot fail, since every key is a string,
/// every value serializes, and writing into memory does not fail.
#[verifier::external_body]
pub(crate) fn to_pretty_json(entries: &Vec<(String, JsonValue)>) -> (r: Option<String>)
    ensures
        r is Some,
        r matches Some(s) ==> s@ == pretty_json(json_entries_view(entries@)),
{
    let m: BTreeMap<String, serde_json::Value> = entries.iter().map(|(k, v)| (k.clone(), match v {
        JsonValue::Int(n) => serde_json::Value::from(*n),
        JsonValue::Text(s) => serde_json::Value::String(s.clone()),
    })).collect();
    serde_json::to_string_pretty(&m).ok()
}

} // verus!
