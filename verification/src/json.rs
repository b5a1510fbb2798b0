//! JSON documents, as `serde_json` reads and writes them.
use vstd::prelude::*;

verus! {

/// What a JSON document says. A number is held by its text; of the members of
/// an object with one key, one stands.
pub enum JsonView {
    Null,
    Bool(bool),
    Number(Seq<char>),
    Text(Seq<char>),
    Array(Seq<JsonView>),
    Object(Map<Seq<char>, JsonView>),
}

/// `serde_json::Value`, opaque but for [`json_of`].
#[verifier::external_type_specification]
#[verifier::external_body]
pub struct ExValue(serde_json::Value);

/// `serde_json::Error`, opaque.
#[verifier::external_type_specification]
#[verifier::external_body]
pub struct ExJsonError(serde_json::Error);

/// What the document `v` says.
pub uninterp spec fn json_of(v: serde_json::Value) -> JsonView;

/// What the JSON text `s` says; `None` where `s` is no JSON text.
pub uninterp spec fn json_text(s: Seq<char>) -> Option<JsonView>;

/// The compact JSON text of a document.
pub uninterp spec fn json_render(j: JsonView) -> Seq<char>;

/// `serde_json::from_str` for a `Value`: whether `s` is a JSON text, and what it
/// says, depends on `s` alone.
#[verifier::external_body]
pub(crate) fn parse_json(s: &str) -> (r: Result<serde_json::Value, serde_json::Error>)
    ensures
        match r {
            Ok(v) => json_text(s@) == Some(json_of(v)),
            Err(_) => json_text(s@) is None,
        },
{
    serde_json::from_str::<serde_json::Value>(s)
}

/// `Value::get` with a string: the member of an object with that key, and
/// nothing of any other document.
#[verifier::external_body]
pub(crate) fn get<'a>(v: &'a serde_json::Value, key: &str) -> (r: Option<&'a serde_json::Value>)
    ensures
        match r {
            Some(m) => field(json_of(*v), key@) == Some(json_of(*m)),
            None => field(json_of(*v), key@) is None,
        },
{
    v.get(key)
}

/// `Value::as_str`: the text of a string, and nothing of any other document.
pub assume_specification[ serde_json::Value::as_str ](v: &serde_json::Value) -> (r: Option<&str>)
    ensures
        match r {
            Some(s) => json_of(*v) == JsonView::Text(s@),
            None => !(json_of(*v) is Text),
        },
;

/// `Value::as_array`: the items of an array, in order, and nothing of any other
/// document.
pub assume_specification[ serde_json::Value::as_array ](v: &serde_json::Value) -> (r: Option<
    &Vec<serde_json::Value>,
>)
    ensures
        match r {
            Some(items) => json_of(*v) == JsonView::Array(item_views(items@)),
            None => !(json_of(*v) is Array),
        },
;

/// `Value::to_string`: the compact text of the document, which depends on what
/// the document says alone.
#[verifier::external_body]
pub(crate) fn render(v: &serde_json::Value) -> (r: String)
    ensures
        r@ == json_render(json_of(*v)),
{
    v.to_string()
}

/// A list of documents, each by what it says.
pub open spec fn item_views(items: Seq<serde_json::Value>) -> Seq<JsonView> {
    items.map_values(|v: serde_json::Value| json_of(v))
}

/// The member `key` of an object.
pub open spec fn field(j: JsonView, key: Seq<char>) -> Option<JsonView> {
    match j {
        JsonView::Object(m) => if m.contains_key(key) {
            Some(m[key])
        } else {
            None
        },
        _ => None,
    }
}

/// The text of an optional document that is a string.
pub open spec fn as_text(j: Option<JsonView>) -> Option<Seq<char>> {
    match j {
        Some(JsonView::Text(s)) => Some(s),
        _ => None,
    }
}

/// The text of the member `key`, or `default` where there is no such text.
pub open spec fn text_or(j: JsonView, key: Seq<char>, default: Seq<char>) -> Seq<char> {
    match as_text(field(j, key)) {
        Some(s) => s,
        None => default,
    }
}

/// The text of the member `key`, if it is a string.
pub(crate) fn text_field<'a>(v: &'a serde_json::Value, key: &str) -> (r: Option<&'a str>)
    ensures
        match r {
            Some(s) => as_text(field(json_of(*v), key@)) == Some(s@),
            None => as_text(field(json_of(*v), key@)) is None,
        },
{
    match get(v, key) {
        Some(m) => m.as_str(),
        None => None,
    }
}

/// The text of the member `key`, or `default` where there is no such text.
pub(crate) fn text_field_or(v: &serde_json::Value, key: &str, default: &str) -> (r: String)
    ensures
        r@ == text_or(json_of(*v), key@, default@),
{
    match text_field(v, key) {
        Some(s) => s.to_owned(),
        None => default.to_owned(),
    }
}

} // verus!
