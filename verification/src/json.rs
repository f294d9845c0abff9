//! JSON documents, as far as the catalog reads them.
//!
//! A `Document` holds a text as the `serde_json` crate parsed it. Contracts
//! speak of the strings and booleans that it holds, each under the JSON
//! pointer that leads to it.

use crate::text::opt_text;
use vstd::prelude::*;

verus! {

/// `serde_json::Value`, a parsed JSON document. Nothing is known of what is
/// inside but through the functions below.
#[verifier::external_type_specification]
#[verifier::external_body]
pub struct ExJsonValue(serde_json::Value);

/// The strings that a document holds, each under the JSON pointer that
/// leads to it.
pub uninterp spec fn json_strings(doc: serde_json::Value) -> Map<Seq<char>, Seq<char>>;

/// The booleans that a document holds, each under the JSON pointer that
/// leads to it.
pub uninterp spec fn json_flags(doc: serde_json::Value) -> Map<Seq<char>, bool>;

/// The document that a text denotes, if the text is JSON.
pub uninterp spec fn json_parsed(text: Seq<char>) -> Option<serde_json::Value>;

/// The text of a document, indented, as `serde_json` writes it.
pub uninterp spec fn json_pretty(doc: serde_json::Value) -> Option<Seq<char>>;

/// The string at `pointer` in `doc`, if there is one.
pub open spec fn string_at(doc: serde_json::Value, pointer: Seq<char>) -> Option<Seq<char>> {
    if json_strings(doc).dom().contains(pointer) {
        Some(json_strings(doc)[pointer])
    } else {
        None
    }
}

/// The boolean at `pointer` in `doc`, if there is one.
pub open spec fn flag_at(doc: serde_json::Value, pointer: Seq<char>) -> Option<bool> {
    if json_flags(doc).dom().contains(pointer) {
        Some(json_flags(doc)[pointer])
    } else {
        None
    }
}

/// `serde_json::from_str` for a `Value`: the document that `text` denotes,
/// or nothing where `text` is not JSON.
#[verifier::external_body]
fn parse_document(text: &str) -> (doc: Option<serde_json::Value>)
    ensures
        doc == json_parsed(text@),
{
    match serde_json::from_str::<serde_json::Value>(text) {
        Ok(doc) => Some(doc),
        Err(_) => None,
    }
}

/// A string or a boolean that was found in a document.
enum Leaf {
    Text(String),
    Flag(bool),
}

/// `Value::pointer` of `serde_json`: what `doc` holds at the JSON pointer
/// `pointer`, where that is a string or a boolean, and nothing where it is
/// anything else or where the pointer leads nowhere.
#[verifier::external_body]
fn lookup(doc: &serde_json::Value, pointer: &str) -> (found: Option<Leaf>)
    ensures
        match found {
            Some(Leaf::Text(s)) => json_strings(*doc).dom().contains(pointer@) && json_strings(
                *doc,
            )[pointer@] == s@,
            Some(Leaf::Flag(b)) => json_flags(*doc).dom().contains(pointer@) && json_flags(
                *doc,
            )[pointer@] == b,
            None => true,
        },
        !(found matches Some(Leaf::Text(_))) ==> !json_strings(*doc).dom().contains(pointer@),
        !(found matches Some(Leaf::Flag(_))) ==> !json_flags(*doc).dom().contains(pointer@),
{
    match doc.pointer(pointer) {
        Some(serde_json::Value::String(s)) => Some(Leaf::Text(s.clone())),
        Some(serde_json::Value::Bool(b)) => Some(Leaf::Flag(*b)),
        _ => None,
    }
}

/// `serde_json::to_string_pretty`: the indented text of `doc`.
#[verifier::external_body]
fn pretty_text(doc: &serde_json::Value) -> (text: Option<String>)
    ensures
        opt_text(text) == json_pretty(*doc),
{
    match serde_json::to_string_pretty(doc) {
        Ok(text) => Some(text),
        Err(_) => None,
    }
}

/// A JSON document.
pub struct Document {
    doc: serde_json::Value,
}

impl Document {
    /// The document as it was parsed.
    pub closed spec fn value(&self) -> serde_json::Value {
        self.doc
    }

    /// The document that `text` denotes; nothing where `text` is not JSON.
    pub fn parse(text: &str) -> (r: Option<Document>)
        ensures
            match r {
                Some(d) => json_parsed(text@) == Some(d.value()),
                None => json_parsed(text@) is None,
            },
    {
        match parse_document(text) {
            Some(doc) => Some(Document { doc }),
            None => None,
        }
    }

    /// The string at the JSON pointer `pointer`, if the document holds one there.
    pub fn string(&self, pointer: &str) -> (found: Option<String>)
        ensures
            opt_text(found) == string_at(self.value(), pointer@),
    {
        match lookup(&self.doc, pointer) {
            Some(Leaf::Text(s)) => Some(s),
            _ => None,
        }
    }

    /// The boolean at the JSON pointer `pointer`, if the document holds one there.
    pub fn flag(&self, pointer: &str) -> (found: Option<bool>)
        ensures
            found == flag_at(self.value(), pointer@),
    {
        match lookup(&self.doc, pointer) {
            Some(Leaf::Flag(b)) => Some(b),
            _ => None,
        }
    }

    /// The text of the document, indented.
    pub fn pretty(&self) -> (text: Option<String>)
        ensures
            opt_text(text) == json_pretty(self.value()),
    {
        pretty_text(&self.doc)
    }
}

} // verus!
