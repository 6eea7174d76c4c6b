//! JSON objects, as far as log lines use them.

use vstd::prelude::*;

verus! {

/// A JSON value: a scalar with what it holds, or anything else.
#[derive(Debug, PartialEq, Eq)]
pub enum Json {
    String(String),
    /// The bits of a number of double precision, where the number has one.
    Number(Option<u64>),
    Bool(bool),
    /// Null, an array or an object.
    Other,
}

/// What a [`Json`] holds.
pub enum JsonView {
    String(Seq<char>),
    Number(Option<u64>),
    Bool(bool),
    Other,
}

impl View for Json {
    type V = JsonView;

    open spec fn view(&self) -> JsonView {
        match self {
            Json::String(s) => JsonView::String(s@),
            Json::Number(bits) => JsonView::Number(*bits),
            Json::Bool(b) => JsonView::Bool(*b),
            Json::Other => JsonView::Other,
        }
    }
}

/// What each member of an object holds: its name and its value.
pub open spec fn member_views(members: Seq<(String, Json)>) -> Seq<(Seq<char>, JsonView)> {
    members.map_values(|m: (String, Json)| (m.0@, m.1@))
}

/// What reading a text as JSON came to: the members of an object, none for a value of another kind,
/// or how the error reads.
pub open spec fn reading_view(
    reading: Result<Option<Vec<(String, Json)>>, String>,
) -> Result<Option<Seq<(Seq<char>, JsonView)>>, Seq<char>> {
    match reading {
        Ok(Some(members)) => Ok(Some(member_views(members@))),
        Ok(None) => Ok(None),
        Err(message) => Err(message@),
    }
}

/// What `serde_json::from_str` makes of a text: the members of an object in the order in which it
/// yields them, none for a value of another kind, or the text of its error.
pub uninterp spec fn json_members(text: Seq<char>) -> Result<
    Option<Seq<(Seq<char>, JsonView)>>,
    Seq<char>,
>;

/// `serde_json::from_str` into a `serde_json::Value`, with each member of an object turned into a
/// [`Json`]: strings and booleans as they are, numbers by the bits that `Number::as_f64` gives.
/// Which texts are JSON, and what they hold, is left to `serde_json`.
#[verifier::external_body]
pub(crate) fn parse_json(text: &str) -> (r: Result<Option<Vec<(String, Json)>>, String>)
    ensures
        reading_view(r) == json_members(text@),
{
    match serde_json::from_str(text).map_err(|e: serde_json::Error| e.to_string())? {
        serde_json::Value::Object(map) => Ok(Some(map.into_iter().map(|(name, value)| (name, match value {
            serde_json::Value::String(s) => Json::String(s),
            serde_json::Value::Number(n) => Json::Number(n.as_f64().map(|x| x.to_bits())),
            serde_json::Value::Bool(b) => Json::Bool(b),
            serde_json::Value::Null => Json::Other,
            serde_json::Value::Array(_) => Json::Other,
            serde_json::Value::Object(_) => Json::Other,
        })).collect())),
        _ => Ok(None),
    }
}

} // verus!
