//! Reading a string out of a JSON document through `serde_json`.

use vstd::prelude::*;

verus! {

/// What a JSON document holds at a JSON pointer, as far as a string is concerned.
pub enum JsonField {
    /// The document is not valid JSON.
    Malformed,
    /// The pointer addresses no value.
    Absent,
    /// The pointer addresses a value that is not a string.
    NotText,
    /// The pointer addresses this string.
    Text(String),
}

/// The abstract form of a [`JsonField`].
pub enum JsonFieldView {
    Malformed,
    Absent,
    NotText,
    Text(Seq<char>),
}

impl View for JsonField {
    type V = JsonFieldView;

    open spec fn view(&self) -> JsonFieldView {
        match self {
            JsonField::Malformed => JsonFieldView::Malformed,
            JsonField::Absent => JsonFieldView::Absent,
            JsonField::NotText => JsonFieldView::NotText,
            JsonField::Text(s) => JsonFieldView::Text(s@),
        }
    }
}

/// What `serde_json::from_str::<Value>(json)` followed by `Value::pointer(pointer)`
/// and `Value::as_str` yields.
pub uninterp spec fn json_field_at(json: Seq<char>, pointer: Seq<char>) -> JsonFieldView;

/// Trusted: parses `json` with `serde_json::from_str` into a `serde_json::Value`,
/// looks `pointer` up with `Value::pointer` and reads the result with
/// `Value::as_str`. The contract claims only that the outcome is the name
/// `json_field_at` applied to the two texts (the crate's parser and RFC 6901
/// lookup are deterministic functions of them).
#[verifier::external_body]
pub(crate) fn json_field(json: &str, pointer: &str) -> (r: JsonField)
    ensures
        r@ == json_field_at(json@, pointer@),
{
    match serde_json::from_str::<serde_json::Value>(json) {
        Err(_) => JsonField::Malformed,
        Ok(value) => match value.pointer(pointer) {
            None => JsonField::Absent,
            Some(found) => match found.as_str() {
                None => JsonField::NotText,
                Some(s) => JsonField::Text(s.to_string()),
            },
        },
    }
}

} // verus!
