//! JSON values as the session logic reads them, with the parser and printer
//! of `serde_json` behind them.

use serde_json::Error as JsonFailure;
use serde_json::Map as SerdeMap;
use serde_json::Number as SerdeNumber;
use serde_json::Value as SerdeValue;
use vstd::prelude::*;

use crate::error::Error;

verus! {

broadcast use vstd::seq_lib::group_seq_properties;

/// A JSON value of `serde_json`.
#[verifier::external_type_specification]
#[verifier::external_body]
pub struct ExSerdeValue(SerdeValue);

/// A JSON value: numbers keep the text that `serde_json` prints for them, and
/// object members keep the order in which `serde_json` holds them.
#[derive(Debug)]
pub enum JsonValue {
    Null,
    Bool(bool),
    Number(String),
    Str(String),
    Array(Vec<JsonValue>),
    Object(Vec<(String, JsonValue)>),
}

/// What `serde_json::from_str::<serde_json::Value>` makes of `text`, or `None`
/// where it reports an error.
pub uninterp spec fn json_parsed(text: Seq<char>) -> Option<JsonValue>;

/// The compact text that `serde_json` prints for a value (`Value::to_string`):
/// strings quoted and escaped, numbers as they were read, no spaces.
pub uninterp spec fn json_text(v: JsonValue) -> Seq<char>;

/// Part of the conversion that `parse_json` does: rebuilds a `serde_json`
/// value as a `JsonValue`, variant for variant, members in map order.
#[verifier::external_body]
fn from_serde(v: &SerdeValue) -> JsonValue {
    match v {
        SerdeValue::Null => JsonValue::Null,
        SerdeValue::Bool(b) => JsonValue::Bool(*b),
        SerdeValue::Number(n) => JsonValue::Number(n.to_string()),
        SerdeValue::String(s) => JsonValue::Str(s.clone()),
        SerdeValue::Array(a) => JsonValue::Array(a.iter().map(from_serde).collect()),
        SerdeValue::Object(m) => JsonValue::Object(
            m.iter().map(|(k, x)| (k.clone(), from_serde(x))).collect(),
        ),
    }
}

/// Part of the conversion that `json_to_string` does: rebuilds a `JsonValue`
/// as a `serde_json` value, variant for variant; number text that
/// `serde_json` does not read as a number becomes a string.
#[verifier::external_body]
fn to_serde(v: &JsonValue) -> SerdeValue {
    match v {
        JsonValue::Null => SerdeValue::Null,
        JsonValue::Bool(b) => SerdeValue::Bool(*b),
        JsonValue::Number(t) => t.parse::<SerdeNumber>().map_or_else(
            |_| SerdeValue::String(t.clone()),
            SerdeValue::Number,
        ),
        JsonValue::Str(s) => SerdeValue::String(s.clone()),
        JsonValue::Array(a) => SerdeValue::Array(a.iter().map(to_serde).collect()),
        JsonValue::Object(m) => SerdeValue::Object(
            m.iter().map(|(k, x)| (k.clone(), to_serde(x))).collect::<SerdeMap<String, SerdeValue>>(),
        ),
    }
}

/// Calls `serde_json::from_str::<serde_json::Value>`. Trusted: it fails
/// exactly where `json_parsed` is `None`, and otherwise gives the value that
/// `json_parsed` names. What JSON text parses to what value is not stated.
#[verifier::external_body]
pub(crate) fn parse_json(text: &str) -> (res: Result<JsonValue, JsonFailure>)
    ensures
        res is Ok <==> json_parsed(text@) is Some,
        res matches Ok(v) ==> json_parsed(text@) == Some(v),
{
    match serde_json::from_str::<SerdeValue>(text) {
        Ok(v) => Ok(from_serde(&v)),
        Err(e) => Err(e),
    }
}

/// Calls `Value::to_string` of `serde_json`. Trusted: the result is the text
/// that `json_text` names; the printing rules themselves are not stated.
#[verifier::external_body]
pub(crate) fn json_to_string(v: &JsonValue) -> (s: String)
    ensures
        s@ == json_text(*v),
{
    to_serde(v).to_string()
}

/// Parses a session's JSON text; text that `serde_json` rejects gives
/// `JsonParseError` with its error.
pub fn parse_session_json(text: &str) -> (r: Result<JsonValue, Error>)
    ensures
        match json_parsed(text@) {
            Some(v) => r matches Ok(x) && x == v,
            None => r matches Err(Error::JsonParseError(_)),
        },
{
    match parse_json(text) {
        Ok(v) => Ok(v),
        Err(e) => Err(Error::JsonParseError(e)),
    }
}

/// The value of the first member named `key`.
pub open spec fn member_value(m: Seq<(String, JsonValue)>, key: Seq<char>) -> Option<JsonValue>
    decreases m.len(),
{
    if m.len() == 0 {
        None
    } else if m[0].0@ == key {
        Some(m[0].1)
    } else {
        member_value(m.drop_first(), key)
    }
}

/// `value.get(key)`: the member `key` of an object; `None` for anything else.
pub open spec fn json_get(v: JsonValue, key: Seq<char>) -> Option<JsonValue> {
    match v {
        JsonValue::Object(m) => member_value(m@, key),
        _ => None,
    }
}

/// `as_array`: the elements of an array; `None` for anything else.
pub open spec fn json_array(v: Option<JsonValue>) -> Option<Seq<JsonValue>> {
    match v {
        Some(JsonValue::Array(a)) => Some(a@),
        _ => None,
    }
}

/// Skipping members whose name differs does not change the lookup.
proof fn lemma_member_skip(m: Seq<(String, JsonValue)>, key: Seq<char>, i: int)
    requires
        0 <= i <= m.len(),
        forall|j: int| 0 <= j < i ==> (#[trigger] m[j]).0@ != key,
    ensures
        member_value(m, key) == member_value(m.skip(i), key),
    decreases i,
{
    if i > 0 {
        let d = m.drop_first();
        assert forall|j: int| 0 <= j < i - 1 implies (#[trigger] d[j]).0@ != key by {
            assert(d[j] == m[j + 1]);
        }
        lemma_member_skip(d, key, i - 1);
        assert(d.skip(i - 1) =~= m.skip(i));
    }
}

/// Moves out the value of the first member named `key` of an object.
pub fn take_member(v: JsonValue, key: &str) -> (r: Option<JsonValue>)
    ensures
        r == json_get(v, key@),
{
    match v {
        JsonValue::Object(members) => {
            let ghost m = members@;
            let mut members = members;
            let target = String::from_str(key);
            let mut i: usize = 0;
            while i < members.len()
                invariant
                    members@ == m,
                    json_get(v, key@) == member_value(m, key@),
                    target@ == key@,
                    i <= m.len(),
                    forall|j: int| 0 <= j < i ==> (#[trigger] m[j]).0@ != key@,
                decreases m.len() - i,
            {
                if members[i].0 == target {
                    proof {
                        lemma_member_skip(m, key@, i as int);
                        assert(m.skip(i as int)[0] == m[i as int]);
                        assert(m[i as int].0@ == key@);
                        assert(member_value(m.skip(i as int), key@) == Some(m[i as int].1));
                    }
                    let pair = members.remove(i);
                    return Some(pair.1);
                }
                i = i + 1;
            }
            proof {
                lemma_member_skip(m, key@, i as int);
            }
            None
        },
        _ => None,
    }
}

/// The value of the first member named `key` of an object, by reference.
pub fn get_member<'a>(v: &'a JsonValue, key: &str) -> (r: Option<&'a JsonValue>)
    ensures
        match r {
            Some(x) => json_get(*v, key@) == Some(*x),
            None => json_get(*v, key@) is None,
        },
{
    match v {
        JsonValue::Object(members) => {
            let ghost m = members@;
            let target = String::from_str(key);
            let mut i: usize = 0;
            while i < members.len()
                invariant
                    members@ == m,
                    json_get(*v, key@) == member_value(m, key@),
                    target@ == key@,
                    i <= m.len(),
                    forall|j: int| 0 <= j < i ==> (#[trigger] m[j]).0@ != key@,
                decreases m.len() - i,
            {
                if members[i].0 == target {
                    proof {
                        lemma_member_skip(m, key@, i as int);
                        assert(m.skip(i as int)[0] == m[i as int]);
                        assert(member_value(m.skip(i as int), key@) == Some(m[i as int].1));
                    }
                    return Some(&members[i].1);
                }
                i = i + 1;
            }
            proof {
                lemma_member_skip(m, key@, i as int);
            }
            None
        },
        _ => None,
    }
}

/// `as_array` by reference.
pub fn as_array_ref(v: &JsonValue) -> (r: Option<&Vec<JsonValue>>)
    ensures
        match r {
            Some(a) => json_array(Some(*v)) == Some(a@),
            None => json_array(Some(*v)) is None,
        },
{
    match v {
        JsonValue::Array(a) => Some(a),
        _ => None,
    }
}

/// `as_array` on an owned value.
pub fn into_array(v: Option<JsonValue>) -> (r: Option<Vec<JsonValue>>)
    ensures
        r matches Some(a) ==> json_array(v) == Some(a@),
        r is None <==> json_array(v) is None,
{
    match v {
        Some(JsonValue::Array(a)) => Some(a),
        _ => None,
    }
}

} // verus!
