//! Reading tag definition documents.
//!
//! Parsing is done by `serde_json`; this module states what the library
//! relies on and extracts the list of referenced names from a parsed document.

use vstd::prelude::*;

verus! {

/// `serde_json::Value`, a parsed JSON document or a part of one. Nothing of
/// what it holds is visible here but through the functions below.
#[verifier::external_type_specification]
#[verifier::external_body]
pub struct ExValue(serde_json::Value);

/// `serde_json::Error`, the reason a text was refused. It is not looked into.
#[verifier::external_type_specification]
#[verifier::external_body]
pub struct ExError(serde_json::Error);

/// The document that `serde_json::from_str` reads from `text`, if it accepts
/// the text as JSON.
pub uninterp spec fn json_document(text: Seq<char>) -> Option<serde_json::Value>;

/// The member that `serde_json::Value::get` finds in `value` under `key`.
pub uninterp spec fn json_member(value: serde_json::Value, key: Seq<char>) -> Option<
    serde_json::Value,
>;

/// The elements that `serde_json::Value::as_array` yields for `value`.
pub uninterp spec fn json_items(value: serde_json::Value) -> Option<Seq<serde_json::Value>>;

/// The text that `serde_json::Value::as_str` yields for `value`.
pub uninterp spec fn json_text(value: serde_json::Value) -> Option<Seq<char>>;

/// Calls `serde_json::from_str` to parse `text` as one JSON document. The
/// outcome is a function of the text alone and is named by `json_document`.
#[verifier::external_body]
fn parse_document(text: &str) -> (r: Result<serde_json::Value, serde_json::Error>)
    ensures
        match r {
            Ok(doc) => json_document(text@) == Some(doc),
            Err(_) => json_document(text@) is None,
        },
{
    serde_json::from_str::<serde_json::Value>(text)
}

/// Calls `serde_json::Value::get` with a string key: the member of that name
/// when `value` is an object holding one, nothing otherwise.
#[verifier::external_body]
fn member<'a>(value: &'a serde_json::Value, key: &str) -> (r: Option<&'a serde_json::Value>)
    ensures
        match r {
            Some(found) => json_member(*value, key@) == Some(*found),
            None => json_member(*value, key@) is None,
        },
{
    value.get(key)
}

/// Calls `serde_json::Value::as_array`: the elements when `value` is an
/// array, nothing otherwise.
#[verifier::external_body]
fn items<'a>(value: &'a serde_json::Value) -> (r: Option<&'a Vec<serde_json::Value>>)
    ensures
        match r {
            Some(list) => json_items(*value) == Some(list@),
            None => json_items(*value) is None,
        },
{
    value.as_array()
}

/// Calls `serde_json::Value::as_str`: the text when `value` is a string,
/// nothing otherwise.
#[verifier::external_body]
fn text<'a>(value: &'a serde_json::Value) -> (r: Option<&'a str>)
    ensures
        match r {
            Some(s) => json_text(*value) == Some(s@),
            None => json_text(*value) is None,
        },
{
    value.as_str()
}

/// Whether every element of `items` is a string.
pub open spec fn all_text(items: Seq<serde_json::Value>) -> bool {
    forall|i: int| 0 <= i < items.len() ==> (#[trigger] json_text(items[i])) is Some
}

/// The names listed under the `values` key of `doc`: the strings of that
/// array in order, or nothing when the key is absent, is not an array, or
/// holds anything but strings.
pub open spec fn listed_values(doc: serde_json::Value) -> Seq<Seq<char>> {
    match json_member(doc, "values"@) {
        Some(list) => match json_items(list) {
            Some(items) => if all_text(items) {
                Seq::new(items.len(), |i: int| json_text(items[i]).unwrap())
            } else {
                Seq::empty()
            },
            None => Seq::empty(),
        },
        None => Seq::empty(),
    }
}

/// The names a tag definition with content `text` lists: those of the parsed
/// document, or nothing when the text is not valid JSON.
pub open spec fn tag_file_values(text: Seq<char>) -> Seq<Seq<char>> {
    match json_document(text) {
        Some(doc) => listed_values(doc),
        None => Seq::empty(),
    }
}

/// What a tag definition file holds: the names it lists, in order.
#[derive(Debug, Clone, PartialEq, Eq)]
pub struct TagFile {
    pub values: Vec<String>,
}

impl TagFile {
    /// A tag definition that lists nothing.
    pub fn empty() -> (r: Self)
        ensures
            r.values.deep_view() == Seq::<Seq<char>>::empty(),
    {
        let r = TagFile { values: Vec::new() };
        assert(r.values.deep_view() =~= Seq::<Seq<char>>::empty());
        r
    }

    /// Extracts the names listed under the `values` key of a parsed document.
    pub fn from_document(doc: &serde_json::Value) -> (r: Self)
        ensures
            r.values.deep_view() == listed_values(*doc),
    {
        let list = match member(doc, "values") {
            Some(list) => list,
            None => {
                return TagFile::empty();
            },
        };
        let elements = match items(list) {
            Some(elements) => elements,
            None => {
                return TagFile::empty();
            },
        };
        let mut values: Vec<String> = Vec::new();
        let mut i: usize = 0;
        while i < elements.len()
            invariant
                i <= elements.len(),
                values@.len() == i,
                json_member(*doc, "values"@) == Some(*list),
                json_items(*list) == Some(elements@),
                forall|k: int|
                    0 <= k < i ==> (#[trigger] json_text(elements@[k])) == Some(values@[k]@),
            decreases elements.len() - i,
        {
            match text(&elements[i]) {
                Some(s) => {
                    values.push(s.to_owned());
                },
                None => {
                    assert(json_text(elements@[i as int]) is None);
                    assert(!all_text(elements@));
                    return TagFile::empty();
                },
            }
            i += 1;
        }
        assert(values.deep_view() =~= listed_values(*doc));
        TagFile { values }
    }

    /// Reads a tag definition. Text that is not valid JSON, or that lacks a
    /// well-formed `values` list, is read as a definition that lists nothing.
    pub fn parse(content: &str) -> (r: Self)
        ensures
            r.values.deep_view() == tag_file_values(content@),
    {
        match parse_document(content) {
            Ok(doc) => TagFile::from_document(&doc),
            Err(_) => TagFile::empty(),
        }
    }
}

} // verus!
