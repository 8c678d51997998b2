//! Reading and writing JSON through the `serde_json` crate.

use vstd::prelude::*;
use vstd::utf8::*;

use serde_json::Value;

verus! {

/// A JSON value of the `serde_json` crate.
#[verifier::external_type_specification]
#[verifier::external_body]
pub struct ExValue(serde_json::Value);

// ---------------------------------------------------------------------------
// Reading
// ---------------------------------------------------------------------------

/// The document that a JSON text holds, `None` for bytes that are no JSON.
pub uninterp spec fn json_document(bytes: Seq<u8>) -> Option<Value>;

/// The member of an object under a key; `None` without one, and for other values.
pub uninterp spec fn json_member(value: Value, key: Seq<char>) -> Option<Value>;

/// The elements of an array; `None` for other values.
pub uninterp spec fn json_elements(value: Value) -> Option<Seq<Value>>;

/// The text of a string; `None` for other values.
pub uninterp spec fn json_string(value: Value) -> Option<Seq<char>>;

/// The number of a value that is a whole number of at most 64 bits; `None` for others.
pub uninterp spec fn json_number(value: Value) -> Option<u64>;

/// `serde_json::from_slice`, asked for any JSON value.
#[verifier::external_body]
pub(crate) fn parse_json(bytes: &[u8]) -> (document: Option<Value>)
    ensures
        document == json_document(bytes@),
{
    serde_json::from_slice::<Value>(bytes).ok()
}

/// `serde_json::Value::get` with a string as the index.
#[verifier::external_body]
pub(crate) fn get_member<'a>(value: &'a Value, key: &str) -> (member: Option<&'a Value>)
    ensures
        match member {
            Some(found) => json_member(*value, key@) == Some(*found),
            None => json_member(*value, key@) is None,
        },
{
    value.get(key)
}

/// `serde_json::Value::as_array`.
#[verifier::external_body]
pub(crate) fn get_elements<'a>(value: &'a Value) -> (elements: Option<&'a Vec<Value>>)
    ensures
        match elements {
            Some(list) => json_elements(*value) == Some(list@),
            None => json_elements(*value) is None,
        },
{
    value.as_array()
}

/// `serde_json::Value::as_str`.
#[verifier::external_body]
pub(crate) fn get_string<'a>(value: &'a Value) -> (text: Option<&'a str>)
    ensures
        match text {
            Some(t) => json_string(*value) == Some(t@),
            None => json_string(*value) is None,
        },
{
    value.as_str()
}

/// `serde_json::Value::as_u64`.
#[verifier::external_body]
pub(crate) fn get_number(value: &Value) -> (number: Option<u64>)
    ensures
        number == json_number(*value),
{
    value.as_u64()
}

// ---------------------------------------------------------------------------
// Writing
// ---------------------------------------------------------------------------

/// A member of an object to be written.
#[derive(Debug, Clone)]
pub enum Scalar {
    Text(String),
    Number(usize),
}

/// What a `Scalar` holds.
pub enum ScalarView {
    Text(Seq<char>),
    Number(usize),
}

impl View for Scalar {
    type V = ScalarView;

    open spec fn view(&self) -> ScalarView {
        match *self {
            Scalar::Text(text) => ScalarView::Text(text@),
            Scalar::Number(number) => ScalarView::Number(number),
        }
    }
}

/// What a list of members holds.
pub open spec fn field_views(fields: Seq<(String, Scalar)>) -> Seq<(Seq<char>, ScalarView)> {
    Seq::new(fields.len(), |i: int| (fields[i].0@, fields[i].1@))
}

/// No two members have the same key.
pub open spec fn distinct_keys(fields: Seq<(Seq<char>, ScalarView)>) -> bool {
    forall|i: int, j: int| 0 <= i < j < fields.len() ==> fields[i].0 != fields[j].0
}

/// No key starts with a dollar sign, as the keys do that `serde_json` keeps for itself.
pub open spec fn plain_keys(fields: Seq<(Seq<char>, ScalarView)>) -> bool {
    forall|i: int|
        0 <= i < fields.len() && (#[trigger] fields[i]).0.len() > 0 ==> fields[i].0[0] != '$'
}

/// The keys of the members.
pub open spec fn field_keys(fields: Seq<(Seq<char>, ScalarView)>) -> Set<Seq<char>> {
    Set::new(|key: Seq<char>| exists|i: int| 0 <= i < fields.len() && (#[trigger] fields[i]).0 == key)
}

/// Whether a document is an object that holds the member.
pub open spec fn holds_field(document: Option<Value>, key: Seq<char>, scalar: ScalarView) -> bool {
    &&& document is Some
    &&& json_member(document->0, key) is Some
    &&& match scalar {
        ScalarView::Text(text) => json_string(json_member(document->0, key)->0) == Some(text),
        ScalarView::Number(number) => json_number(json_member(document->0, key)->0) == Some(
            number as u64,
        ),
    }
}

/// The text that `serde_json` writes for an object with the given members.
pub uninterp spec fn json_object_text(fields: Seq<(Seq<char>, ScalarView)>) -> Seq<char>;

/// `serde_json::Map::insert` for each member, and the compact text of the object. The text
/// is on one line, between braces, and reading it gives the members back, if no key is one
/// that the crate reads in its own way.
#[verifier::external_body]
pub(crate) fn object_text(fields: Vec<(String, Scalar)>) -> (text: String)
    ensures
        text@ == json_object_text(field_views(fields@)),
        text@.len() > 0 && text@[0] == '{' && text@.last() == '}',
        forall|i: int| 0 <= i < text@.len() ==> #[trigger] text@[i] != '\n',
        distinct_keys(field_views(fields@)) && plain_keys(field_views(fields@)) ==> forall|i: int|
            0 <= i < fields@.len() ==> holds_field(
                json_document(encode_utf8(text@)),
                (#[trigger] field_views(fields@)[i]).0,
                field_views(fields@)[i].1,
            ),
{
    let mut object = serde_json::Map::new();
    for (key, scalar) in fields {
        let value = match scalar {
            Scalar::Text(text) => Value::from(text),
            Scalar::Number(number) => Value::from(number),
        };
        object.insert(key, value);
    }
    Value::Object(object).to_string()
}

} // verus!
