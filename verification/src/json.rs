//! JSON messages, read by `serde_json` into values that verified code can
//! look into.

use vstd::prelude::*;
use serde_json::Value;
use crate::text::text_equals;

verus! {

/// A JSON value: a number keeps its JSON text, an object its members in
/// the order `serde_json` gives them (by key).
#[derive(Debug)]
pub enum Json {
    Null,
    Bool(bool),
    Number(String),
    Text(String),
    Array(Vec<Json>),
    Object(Vec<(String, Json)>),
}

#[verifier::external_type_specification]
#[verifier::external_body]
pub struct ExValue(Value);

/// What `serde_json::from_str::<serde_json::Value>` reads from a text,
/// converted member for member into a `Json`; `None` when the text is not
/// JSON.
pub uninterp spec fn json_of(text: Seq<char>) -> Option<Json>;

/// `serde_json::Value`, converted variant for variant into a `Json` (a
/// number by its `Display` text).
#[verifier::external_body]
fn json_from_value(value: &Value) -> (json: Json) {
    match value {
        Value::Null => Json::Null,
        Value::Bool(b) => Json::Bool(*b),
        Value::Number(n) => Json::Number(n.to_string()),
        Value::String(s) => Json::Text(s.clone()),
        Value::Array(a) => Json::Array(a.iter().map(json_from_value).collect()),
        Value::Object(o) => Json::Object(o.iter().map(|(k, v)| (k.clone(), json_from_value(v))).collect()),
    }
}

/// `serde_json::from_str::<serde_json::Value>`: the JSON value of the text
/// (a function of the text alone), or `None` when it is not JSON.
#[verifier::external_body]
pub fn parse_json(text: &str) -> (json: Option<Json>)
    ensures
        json == json_of(text@),
{
    match serde_json::from_str::<Value>(text) {
        Ok(v) => Some(json_from_value(&v)),
        Err(_) => None,
    }
}

/// Why a feed message cannot be taken.
#[derive(Clone, Copy, Debug, PartialEq, Eq, Structural)]
pub enum FeedError {
    /// The message is not JSON.
    NotJson,
    /// The message lacks a member it must have, or a member is not of the
    /// kind it must be (such as a price that is not a numeral).
    Malformed,
}

/// The value of the first member named `key` among `members`.
pub open spec fn lookup(members: Seq<(String, Json)>, key: Seq<char>) -> Option<Json>
    decreases members.len(),
{
    if members.len() == 0 {
        None
    } else if members[0].0@ == key {
        Some(members[0].1)
    } else {
        lookup(members.subrange(1, members.len() as int), key)
    }
}

/// The member `key` of an object; `None` for a missing member or a value
/// that is not an object (as `serde_json::Value::get` with a key).
pub open spec fn member(json: Json, key: Seq<char>) -> Option<Json> {
    match json {
        Json::Object(members) => lookup(members@, key),
        _ => None,
    }
}

/// The member `key` of an object, `Null` when there is none (as indexing a
/// `serde_json::Value` with a key).
pub open spec fn field(json: Json, key: Seq<char>) -> Json {
    match member(json, key) {
        Some(v) => v,
        None => Json::Null,
    }
}

/// Element `i` of an array, `Null` when there is none (as indexing a
/// `serde_json::Value` with a number).
pub open spec fn element(json: Json, i: int) -> Json {
    match json {
        Json::Array(items) => if 0 <= i < items@.len() {
            items@[i]
        } else {
            Json::Null
        },
        _ => Json::Null,
    }
}

/// Looks up the member `key` of an object.
pub fn json_member<'a>(json: &'a Json, key: &str) -> (value: Option<&'a Json>)
    ensures
        match value {
            Some(v) => member(*json, key@) == Some(*v),
            None => member(*json, key@) is None,
        },
{
    match json {
        Json::Object(members) => {
            let mut i: usize = 0;
            assert(members@.subrange(0, members@.len() as int) =~= members@);
            assert(member(*json, key@) == lookup(members@, key@));
            while i < members.len()
                invariant
                    i <= members@.len(),
                    member(*json, key@) == lookup(members@, key@),
                    lookup(members@, key@) == lookup(
                        members@.subrange(i as int, members@.len() as int),
                        key@,
                    ),
                decreases members@.len() - i,
            {
                let ghost rest = members@.subrange(i as int, members@.len() as int);
                assert(rest.subrange(1, rest.len() as int) =~= members@.subrange(
                    i + 1,
                    members@.len() as int,
                ));
                assert(rest[0] == members@[i as int]);
                if text_equals(members[i].0.as_str(), key) {
                    assert(lookup(rest, key@) == Some(rest[0].1));
                    let found: &Json = &members[i].1;
                    assert(*found == members@[i as int].1);
                    return Some(found);
                }
                i = i + 1;
            }
            None
        },
        _ => None,
    }
}

/// The member `key` of an object, `Null` when there is none.
pub fn json_field<'a>(json: &'a Json, key: &str) -> (value: &'a Json)
    ensures
        *value == field(*json, key@),
{
    match json_member(json, key) {
        Some(v) => v,
        None => &Json::Null,
    }
}

/// Element `i` of an array, `Null` when there is none.
pub fn json_element(json: &Json, i: usize) -> (value: &Json)
    ensures
        *value == element(*json, i as int),
{
    match json {
        Json::Array(items) => if i < items.len() {
            &items[i]
        } else {
            &Json::Null
        },
        _ => &Json::Null,
    }
}

} // verus!
