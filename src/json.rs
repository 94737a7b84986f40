//! A JSON document as the parser reads it, and the one call that produces it.
use vstd::prelude::*;

verus! {

/// `serde_json::Value`, named here so that the conversion below can take it.
#[verifier::external_type_specification]
#[verifier::external_body]
pub struct ExJsonValue(serde_json::Value);

/// A JSON value. Numbers keep their decimal text; an object keeps its members in
/// order, each key once.
#[derive(Debug)]
pub enum JsonValue {
    Null,
    Bool(bool),
    Number(String),
    Str(String),
    Array(Vec<JsonValue>),
    Object(Vec<(String, JsonValue)>),
}

/// The JSON document that `bytes` hold, or `None` where they hold none.
pub uninterp spec fn json_document(bytes: Seq<u8>) -> Option<JsonValue>;

/// Relies on `serde_json::from_slice::<serde_json::Value>`: it reads the bytes as one
/// JSON document, and what it returns depends on the bytes alone.
#[verifier::external_body]
pub(crate) fn read_json(bytes: &[u8]) -> (r: Option<JsonValue>)
    ensures
        r == json_document(bytes@),
{
    serde_json::from_slice::<serde_json::Value>(bytes).ok().map(json_value_from)
}

/// Moves a `serde_json::Value` into the library's own `JsonValue`, variant for
/// variant. Relies on `serde_json::Number`'s `Display`, which writes the number in
/// JSON notation; only `read_json` calls this, on what `from_slice` returned.
#[verifier::external_body]
fn json_value_from(v: serde_json::Value) -> JsonValue {
    match v {
        serde_json::Value::Null => JsonValue::Null,
        serde_json::Value::Bool(b) => JsonValue::Bool(b),
        serde_json::Value::Number(n) => JsonValue::Number(n.to_string()),
        serde_json::Value::String(s) => JsonValue::Str(s),
        serde_json::Value::Array(a) => JsonValue::Array(a.into_iter().map(json_value_from).collect()),
        serde_json::Value::Object(m) => JsonValue::Object(
            m.into_iter().map(|(k, x)| (k, json_value_from(x))).collect(),
        ),
    }
}

/// The value of the first member named `key`.
pub open spec fn member(entries: Seq<(String, JsonValue)>, key: Seq<char>) -> Option<JsonValue>
    decreases entries.len(),
{
    if entries.len() == 0 {
        None
    } else if entries[0].0@ == key {
        Some(entries[0].1)
    } else {
        member(entries.drop_first(), key)
    }
}

/// The member `key` of an object; `None` for any other value.
pub open spec fn field(v: JsonValue, key: Seq<char>) -> Option<JsonValue> {
    match v {
        JsonValue::Object(entries) => member(entries@, key),
        _ => None,
    }
}

/// Looks up the member `key` of an object.
pub fn get_field<'a>(v: &'a JsonValue, key: &str) -> (r: Option<&'a JsonValue>)
    ensures
        match field(*v, key@) {
            Some(x) => r is Some && *r->Some_0 == x,
            None => r is None,
        },
{
    match v {
        JsonValue::Object(entries) => {
            let wanted = String::from_str(key);
            let mut i: usize = 0;
            assert(entries@.subrange(0, entries@.len() as int) == entries@);
            while i < entries.len()
                invariant
                    wanted@ == key@,
                    field(*v, key@) == member(entries@, key@),
                    i <= entries@.len(),
                    member(entries@, key@) == member(entries@.subrange(i as int, entries@.len() as int), key@),
                decreases entries.len() - i,
            {
                let ghost rest = entries@.subrange(i as int, entries@.len() as int);
                assert(rest.drop_first() == entries@.subrange(i + 1, entries@.len() as int));
                assert(rest[0] == entries@[i as int]);
                if entries[i].0 == wanted {
                    assert(member(rest, key@) == Some(rest[0].1));
                    let found = &entries[i].1;
                    assert(*found == rest[0].1);
                    return Some(found);
                }
                i = i + 1;
            }
            None
        },
        _ => None,
    }
}

/// The text of a string value.
pub open spec fn text_of(v: Option<JsonValue>) -> Option<Seq<char>> {
    match v {
        Some(JsonValue::Str(s)) => Some(s@),
        _ => None,
    }
}

/// The array held by an optional value.
pub open spec fn array_of(v: Option<JsonValue>) -> Option<Seq<JsonValue>> {
    match v {
        Some(JsonValue::Array(items)) => Some(items@),
        _ => None,
    }
}

/// The decimal text of an optional number.
pub open spec fn number_of(v: Option<JsonValue>) -> Option<Seq<char>> {
    match v {
        Some(JsonValue::Number(t)) => Some(t@),
        _ => None,
    }
}

/// Looks up the member `key` of an object, where it is a string.
pub fn get_text<'a>(v: &'a JsonValue, key: &str) -> (r: Option<&'a String>)
    ensures
        match text_of(field(*v, key@)) {
            Some(t) => r is Some && r->Some_0@ == t,
            None => r is None,
        },
{
    match get_field(v, key) {
        Some(JsonValue::Str(s)) => Some(s),
        _ => None,
    }
}

/// Looks up the member `key` of an object, where it is an array.
pub fn get_array<'a>(v: &'a JsonValue, key: &str) -> (r: Option<&'a Vec<JsonValue>>)
    ensures
        match array_of(field(*v, key@)) {
            Some(items) => r is Some && r->Some_0@ == items,
            None => r is None,
        },
{
    match get_field(v, key) {
        Some(JsonValue::Array(items)) => Some(items),
        _ => None,
    }
}

/// Looks up the member `key` of an object, where it is a number.
pub fn get_number<'a>(v: &'a JsonValue, key: &str) -> (r: Option<&'a String>)
    ensures
        match number_of(field(*v, key@)) {
            Some(t) => r is Some && r->Some_0@ == t,
            None => r is None,
        },
{
    match get_field(v, key) {
        Some(JsonValue::Number(t)) => Some(t),
        _ => None,
    }
}

} // verus!
