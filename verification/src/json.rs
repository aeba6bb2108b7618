//! JSON documents as plain values, and the serde_json parse that reads them.

use vstd::prelude::*;

verus! {

#[verifier::external_type_specification]
#[verifier::external_body]
pub struct ExJsonValue(serde_json::Value);

/// A JSON value: numbers in their printed form, objects as their members.
#[derive(Debug, PartialEq, Eq)]
pub enum JsonValue {
    Null,
    Bool(bool),
    Number(String),
    Str(String),
    Array(Vec<JsonValue>),
    Object(Vec<(String, JsonValue)>),
}

/// The value that serde_json reads from the JSON text `text`, if it parses.
pub uninterp spec fn json_document(text: Seq<char>) -> Option<JsonValue>;

/// Converts a `serde_json::Value` into a `JsonValue`, variant for variant.
#[verifier::external_body]
fn json_from(v: &serde_json::Value) -> JsonValue {
    match v {
        serde_json::Value::Null => JsonValue::Null,
        serde_json::Value::Bool(b) => JsonValue::Bool(*b),
        serde_json::Value::Number(n) => JsonValue::Number(n.to_string()),
        serde_json::Value::String(s) => JsonValue::Str(s.clone()),
        serde_json::Value::Array(xs) => JsonValue::Array(xs.iter().map(json_from).collect()),
        serde_json::Value::Object(m) => JsonValue::Object(m.iter().map(|(k, x)| (k.clone(), json_from(x))).collect()),
    }
}

/// Calls `serde_json::from_str::<serde_json::Value>`; the contract claims only that the
/// result is a function of the text (`None` when it does not parse).
#[verifier::external_body]
pub(crate) fn parse_json(text: &str) -> (r: Option<JsonValue>)
    ensures
        r == json_document(text@),
{
    match serde_json::from_str::<serde_json::Value>(text) {
        Ok(v) => Some(json_from(&v)),
        Err(_) => None,
    }
}

/// The member `key` of an object (an object has each key once).
pub open spec fn member_of(m: Seq<(String, JsonValue)>, key: Seq<char>) -> Option<JsonValue>
    decreases m.len(),
{
    if m.len() == 0 {
        None
    } else if m[0].0@ == key {
        Some(m[0].1)
    } else {
        member_of(m.drop_first(), key)
    }
}

/// The member `key` of a value that is an object; none otherwise.
pub open spec fn member(v: JsonValue, key: Seq<char>) -> Option<JsonValue> {
    match v {
        JsonValue::Object(m) => member_of(m@, key),
        _ => None,
    }
}

/// The member `key` of an object.
pub fn get_member<'a>(v: &'a JsonValue, key: &str) -> (r: Option<&'a JsonValue>)
    ensures
        match member(*v, key@) {
            Some(x) => r matches Some(y) && *y == x,
            None => r is None,
        },
{
    match v {
        JsonValue::Object(m) => {
            let mut i: usize = 0;
            assert(m@.skip(0) =~= m@);
            while i < m.len()
                invariant
                    i <= m.len(),
                    member(*v, key@) == member_of(m@, key@),
                    member_of(m@, key@) == member_of(m@.skip(i as int), key@),
                decreases m.len() - i,
            {
                assert(m@.skip(i as int)[0] == m@[i as int]);
                assert(m@.skip(i as int).drop_first() =~= m@.skip(i + 1));
                if crate::storage::string_eq(&m[i].0, key) {
                    return Some(&m[i].1);
                }
                i = i + 1;
            }
            None
        },
        _ => None,
    }
}

} // verus!
