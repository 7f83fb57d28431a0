//! What this library has from `serde_json`: the JSON text of one string, and
//! the document that a JSON text holds, as far as the library looks into it.
//! The two calls are not proved; the rest of the library is proved against
//! what is stated of them here.

use vstd::prelude::*;

verus! {

/// The members of a JSON object: each with its name and, where its value is
/// a JSON string, that string.
pub type Members = Vec<(String, Option<String>)>;

/// The members of a JSON object, as text.
pub type MembersView = Seq<(Seq<char>, Option<Seq<char>>)>;

/// A JSON document, as far as the library looks into it.
#[derive(Debug)]
pub enum Json {
    /// An object, with its members.
    Object(Members),
    /// An array, with the members of each item that is an object, and `None`
    /// for each item that is none.
    Array(Vec<Option<Members>>),
    /// Anything else: a string, a number, a boolean, or `null`.
    Other,
}

/// A JSON document as text.
pub enum JsonView {
    Object(MembersView),
    Array(Seq<Option<MembersView>>),
    Other,
}

/// The members of a JSON object, as text.
pub open spec fn members_view(members: Seq<(String, Option<String>)>) -> MembersView {
    Seq::new(
        members.len(),
        |i: int|
            (
                members[i].0@,
                match members[i].1 {
                    Some(s) => Some(s@),
                    None => None,
                },
            ),
    )
}

/// The items of a JSON array, as text.
pub open spec fn items_view(items: Seq<Option<Members>>) -> Seq<Option<MembersView>> {
    Seq::new(
        items.len(),
        |i: int|
            match items[i] {
                Some(members) => Some(members_view(members@)),
                None => None,
            },
    )
}

impl View for Json {
    type V = JsonView;

    open spec fn view(&self) -> JsonView {
        match self {
            Json::Object(members) => JsonView::Object(members_view(members@)),
            Json::Array(items) => JsonView::Array(items_view(items@)),
            Json::Other => JsonView::Other,
        }
    }
}

/// The JSON text that `serde_json` writes for the string `s`: `s` between
/// double quotes, with the characters escaped that JSON wants escaped.
pub uninterp spec fn json_string(s: Seq<char>) -> Seq<char>;

/// The document that `serde_json` reads from `text`. A text that it does not
/// read as one JSON value has none.
pub uninterp spec fn json_document(text: Seq<char>) -> Option<JsonView>;

/// Calls `serde_json::to_string` on a string slice. A string always has a
/// JSON text: the writer is a byte vector, which takes every write, and a
/// string has no part that could refuse to be written. The text is
/// `json_string` of the characters.
#[verifier::external_body]
pub(crate) fn quote(s: &str) -> (r: Option<String>)
    ensures
        r is Some,
        r.unwrap()@ == json_string(s@),
{
    serde_json::to_string(s).ok()
}

/// Calls `serde_json::from_str` for a `serde_json::Value` and hands out what
/// the library looks at: of an object its members, of an array the members
/// of each item that is an object; of a member its name and, where its value
/// is a string, that string. It is `json_document` of the characters.
#[verifier::external_body]
pub(crate) fn read(text: &str) -> (r: Option<Json>)
    ensures
        match r {
            Some(document) => json_document(text@) == Some(document@),
            None => json_document(text@) is None,
        },
{
    let members = |object: serde_json::Map<String, serde_json::Value>| -> Members {
        object.into_iter().map(|(name, value)| match value {
            serde_json::Value::String(s) => (name, Some(s)),
            _ => (name, None),
        }).collect()
    };
    Some(match serde_json::from_str(text).ok()? {
        serde_json::Value::Object(object) => Json::Object(members(object)),
        serde_json::Value::Array(items) => Json::Array(items.into_iter().map(|item| match item {
            serde_json::Value::Object(object) => Some(members(object)),
            _ => None,
        }).collect()),
        _ => Json::Other,
    })
}

} // verus!
