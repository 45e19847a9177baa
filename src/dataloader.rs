//! The text field of each record of a JSON-lines corpus.
use crate::placement::BM25Error;
use serde_json::Value;
use vstd::prelude::*;

verus! {

#[verifier::external_type_specification]
#[verifier::external_body]
pub struct ExJsonError(serde_json::Error);

/// Whether a text is one valid JSON document.
pub uninterp spec fn json_parses(text: Seq<char>) -> bool;

/// The compact JSON text of field `key` of the JSON document `line`: a
/// string field comes out quoted and escaped, and a missing field, or a
/// document that is not an object, gives `null`.
pub uninterp spec fn json_field_text(line: Seq<char>, key: Seq<char>) -> Seq<char>;

/// Relies on `serde_json::from_str::<Value>` (succeeds exactly when `line`
/// is valid JSON, which depends on the text alone), on `Value`'s
/// `Index<&str>` (the field, or `Null`) and on `Value`'s `Display` (compact
/// JSON text).
#[verifier::external_body]
fn field_json_text(line: &str, key: &str) -> (r: Result<String, serde_json::Error>)
    ensures
        r is Ok <==> json_parses(line@),
        r is Ok ==> r->Ok_0@ == json_field_text(line@, key@),
{
    match serde_json::from_str::<Value>(line) {
        Ok(value) => Ok(value[key].to_string()),
        Err(e) => Err(e),
    }
}

/// The JSON text of field `key` of each line, one JSON document per line.
/// Fails on the first line that is not valid JSON, naming its index.
pub fn field_texts(lines: &Vec<String>, key: &str) -> (r: Result<Vec<String>, BM25Error>)
    ensures
        match r {
            Ok(texts) => {
                &&& texts@.len() == lines@.len()
                &&& forall|i: int| 0 <= i < lines@.len() ==> json_parses(#[trigger] lines@[i]@)
                &&& forall|i: int|
                    0 <= i < lines@.len() ==> (#[trigger] texts@[i])@ == json_field_text(
                        lines@[i]@,
                        key@,
                    )
            },
            Err(e) => exists|i: int|
                {
                    &&& 0 <= i < lines@.len()
                    &&& e == BM25Error::InvalidJson { line: i as usize }
                    &&& !json_parses(lines@[i]@)
                    &&& forall|j: int| 0 <= j < i ==> json_parses(#[trigger] lines@[j]@)
                },
        },
{
    let mut texts: Vec<String> = Vec::new();
    let mut i: usize = 0;
    while i < lines.len()
        invariant
            i <= lines@.len(),
            texts@.len() == i,
            forall|j: int| 0 <= j < i ==> json_parses(#[trigger] lines@[j]@),
            forall|j: int|
                0 <= j < i ==> (#[trigger] texts@[j])@ == json_field_text(lines@[j]@, key@),
        decreases lines@.len() - i,
    {
        match field_json_text(lines[i].as_str(), key) {
            Ok(text) => {
                texts.push(text);
            },
            Err(_) => {
                return Err(BM25Error::InvalidJson { line: i });
            },
        }
        i = i + 1;
    }
    Ok(texts)
}

} // verus!
