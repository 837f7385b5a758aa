//! The JSON text of the symbol data that a page carries for its menus.

use rustc_serialize::json::{self, Json};
use vstd::prelude::*;

verus! {

/// An object whose values are strings, as pairs of key and value.
pub type JsonRecord = Vec<(String, String)>;

/// The symbol data of a page: for each annotated token a list of groups, each a list of records.
pub type JsonDocument = Vec<Vec<Vec<JsonRecord>>>;

/// What a [`JsonRecord`] holds.
pub type RecordView = Seq<(Seq<char>, Seq<char>)>;

/// What a [`JsonDocument`] holds.
pub type DocumentView = Seq<Seq<Seq<RecordView>>>;

/// The text that `rustc_serialize::json::encode` gives for arrays of arrays of arrays of objects
/// with these keys and string values.
pub uninterp spec fn compact_json(document: Seq<Seq<Seq<Seq<(Seq<char>, Seq<char>)>>>>) -> Seq<char>;

/// The text in which `rustc_serialize::json::as_pretty_json` displays arrays of arrays of arrays
/// of objects with these keys and string values.
pub uninterp spec fn pretty_json(document: Seq<Seq<Seq<Seq<(Seq<char>, Seq<char>)>>>>) -> Seq<char>;

/// `rustc_serialize::json::encode` on the document as a `Json` value. The contract claims that the
/// text depends on the document's keys and values alone; that encoding a tree of arrays, objects
/// and strings into a string does not fail is what the `unwrap` rests on.
#[verifier::external_body]
pub(crate) fn encode_compact(document: &JsonDocument) -> (r: String)
    ensures
        r@ == compact_json(document.deep_view()),
{
    let object = |r: &JsonRecord| {
        Json::Object(r.iter().map(|f| (f.0.clone(), Json::String(f.1.clone()))).collect())
    };
    let group = |g: &Vec<JsonRecord>| Json::Array(g.iter().map(object).collect());
    let entry = |e: &Vec<Vec<JsonRecord>>| Json::Array(e.iter().map(group).collect());
    json::encode(&Json::Array(document.iter().map(entry).collect())).unwrap()
}

/// `rustc_serialize::json::as_pretty_json` on the document as a `Json` value, displayed. The
/// contract claims that the text depends on the document's keys and values alone.
#[verifier::external_body]
pub(crate) fn encode_pretty(document: &JsonDocument) -> (r: String)
    ensures
        r@ == pretty_json(document.deep_view()),
{
    let object = |r: &JsonRecord| {
        Json::Object(r.iter().map(|f| (f.0.clone(), Json::String(f.1.clone()))).collect())
    };
    let group = |g: &Vec<JsonRecord>| Json::Array(g.iter().map(object).collect());
    let entry = |e: &Vec<Vec<JsonRecord>>| Json::Array(e.iter().map(group).collect());
    let array = Json::Array(document.iter().map(entry).collect());
    format!("{}", json::as_pretty_json(&array))
}

/// What the page carries: indented where it is made to be compared, else on one line.
pub open spec fn document_text(document: DocumentView, diffable: bool) -> Seq<char> {
    if diffable {
        pretty_json(document)
    } else {
        compact_json(document)
    }
}

/// Writes the symbol data as JSON.
pub fn encode_document(document: &JsonDocument, diffable: bool) -> (r: String)
    ensures
        r@ == document_text(document.deep_view(), diffable),
{
    if diffable {
        encode_pretty(document)
    } else {
        encode_compact(document)
    }
}

} // verus!
