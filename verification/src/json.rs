//! A JSON document as the order files hold it, with the lookups that the
//! orders are read by: a missing field or index reads as `null`.
use vstd::prelude::*;

verus! {

/// A JSON value.
#[derive(Debug)]
pub enum JsonValue {
    /// `null`.
    Null,
    /// `true` or `false`.
    Bool(bool),
    /// A number, with its value when it is a non-negative integer that fits
    /// in 64 bits.
    Number(Option<u64>),
    /// A string.
    Str(String),
    /// An array.
    Array(Vec<JsonValue>),
    /// An object, its members in order, no name twice.
    Object(Vec<(String, JsonValue)>),
}

/// Member `i` is the first one named `key`.
pub open spec fn first_member(members: Seq<(String, JsonValue)>, key: Seq<char>, i: int) -> bool {
    &&& 0 <= i < members.len()
    &&& members[i].0@ == key
    &&& forall|j: int| 0 <= j < i ==> (#[trigger] members[j]).0@ != key
}

/// The (first) member `key` of an object, or `null` when there is none or
/// the value is no object.
pub open spec fn spec_field(v: JsonValue, key: Seq<char>) -> JsonValue {
    match v {
        JsonValue::Object(members) => if exists|i: int| first_member(members@, key, i) {
            members@[choose|i: int| first_member(members@, key, i)].1
        } else {
            JsonValue::Null
        },
        _ => JsonValue::Null,
    }
}

/// Element `i` of an array, or `null` when there is none or the value is no
/// array.
pub open spec fn spec_element(v: JsonValue, i: int) -> JsonValue {
    match v {
        JsonValue::Array(items) => if 0 <= i < items@.len() {
            items@[i]
        } else {
            JsonValue::Null
        },
        _ => JsonValue::Null,
    }
}

/// The value of a non-negative integer that fits in 64 bits.
pub open spec fn spec_as_u64(v: JsonValue) -> Option<u64> {
    match v {
        JsonValue::Number(n) => n,
        _ => None,
    }
}

impl JsonValue {
    /// The member `key`, or `null`, as indexing a `serde_json::Value` by a
    /// string.
    #[verifier::loop_isolation(false)]
    pub fn field(&self, key: &str) -> (r: &JsonValue)
        ensures
            *r == spec_field(*self, key@),
    {
        match self {
            JsonValue::Object(members) => {
                let owned = key.to_owned();
                let mut i: usize = 0;
                while i < members.len()
                    invariant
                        i <= members@.len(),
                        forall|j: int| 0 <= j < i ==> (#[trigger] members@[j]).0@ != key@,
                    decreases members@.len() - i,
                {
                    if members[i].0 == owned {
                        proof {
                            assert(first_member(members@, key@, i as int));
                            let c = choose|c: int| first_member(members@, key@, c);
                            if c < i {
                                assert(members@[c].0@ != key@);
                            } else if c > i {
                                assert(members@[i as int].0@ != key@);
                            }
                        }
                        return &members[i].1;
                    }
                    i = i + 1;
                }
                proof {
                    assert forall|c: int| !first_member(members@, key@, c) by {}
                }
                &JsonValue::Null
            },
            _ => &JsonValue::Null,
        }
    }

    /// Element `i`, or `null`, as indexing a `serde_json::Value` by a number.
    pub fn element(&self, i: usize) -> (r: &JsonValue)
        ensures
            *r == spec_element(*self, i as int),
    {
        match self {
            JsonValue::Array(items) => if i < items.len() {
                &items[i]
            } else {
                &JsonValue::Null
            },
            _ => &JsonValue::Null,
        }
    }

    /// The value of a non-negative integer that fits in 64 bits, as
    /// `serde_json::Value::as_u64`.
    pub fn as_u64(&self) -> (r: Option<u64>)
        ensures
            r == spec_as_u64(*self),
    {
        match self {
            JsonValue::Number(n) => *n,
            _ => None,
        }
    }
}


#[verifier::external_type_specification]
#[verifier::external_body]
pub struct ExSerdeJsonValue(serde_json::Value);

/// The JSON document that a text holds, as `serde_json` reads it, or `None`
/// when the text is not JSON.
pub uninterp spec fn spec_json_document(text: Seq<char>) -> Option<JsonValue>;

/// `serde_json::from_str::<serde_json::Value>`, the value converted variant
/// by variant (numbers by `Number::as_u64`, objects in the order
/// `serde_json::Map` walks them, which is by name).
/// Claimed: the result is a function of the text alone, named
/// `spec_json_document`; `None` when serde_json refuses the text. What that
/// document is for a given text is not stated.
#[verifier::external_body]
pub fn parse_json_document(text: &str) -> (r: Option<JsonValue>)
    ensures
        r == spec_json_document(text@),
{
    match serde_json::from_str::<serde_json::Value>(text) {
        Ok(v) => Some(json_from_serde(&v)),
        Err(_) => None,
    }
}

/// A `serde_json::Value` as a `JsonValue`, variant by variant; only the
/// conversion inside `parse_json_document`.
#[verifier::external_body]
fn json_from_serde(v: &serde_json::Value) -> JsonValue {
    match v {
        serde_json::Value::Null => JsonValue::Null,
        serde_json::Value::Bool(b) => JsonValue::Bool(*b),
        serde_json::Value::Number(n) => JsonValue::Number(n.as_u64()),
        serde_json::Value::String(s) => JsonValue::Str(s.clone()),
        serde_json::Value::Array(a) => JsonValue::Array(a.iter().map(json_from_serde).collect()),
        serde_json::Value::Object(m) => JsonValue::Object(
            m.iter().map(|(k, x)| (k.clone(), json_from_serde(x))).collect(),
        ),
    }
}

} // verus!
