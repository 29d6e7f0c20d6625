//! A JSON document as plain values: what the marketplace reads out of the
//! bodies it is sent and out of the replies of the language model.

use vstd::prelude::*;

verus! {

/// A JSON value. Objects keep their members in order.
pub enum Json {
    Null,
    Bool(bool),
    /// A number, in its textual form.
    Number(String),
    Str(String),
    Array(Vec<Json>),
    Object(Vec<(String, Json)>),
}

/// The value of the first member named `key` among `members`.
pub open spec fn member(members: Seq<(String, Json)>, key: Seq<char>) -> Option<Json>
    decreases members.len(),
{
    if members.len() == 0 {
        None
    } else if members[0].0@ == key {
        Some(members[0].1)
    } else {
        member(members.drop_first(), key)
    }
}

/// The member `key` of an object; `None` for anything else.
pub open spec fn field(j: Json, key: Seq<char>) -> Option<Json> {
    match j {
        Json::Object(members) => member(members@, key),
        _ => None,
    }
}

/// The item at `index` of an array; `None` for anything else.
pub open spec fn item(j: Json, index: int) -> Option<Json> {
    match j {
        Json::Array(items) => if 0 <= index < items@.len() {
            Some(items@[index])
        } else {
            None
        },
        _ => None,
    }
}

/// The text of a string value; `None` for anything else.
pub open spec fn text_of(j: Json) -> Option<Seq<char>> {
    match j {
        Json::Str(s) => Some(s@),
        _ => None,
    }
}

/// The text of an optional value.
pub open spec fn opt_text(j: Option<Json>) -> Option<Seq<char>> {
    match j {
        Some(v) => text_of(v),
        None => None,
    }
}

/// The value behind an optional reference.
pub open spec fn deref_opt(r: Option<&Json>) -> Option<Json> {
    match r {
        Some(v) => Some(*v),
        None => None,
    }
}

impl Json {
    /// The member `key` of an object.
    pub fn get(&self, key: &str) -> (r: Option<&Json>)
        ensures
            deref_opt(r) == field(*self, key@),
    {
        match self {
            Json::Object(members) => {
                let mut i: usize = 0;
                assert(members@.skip(0) =~= members@);
                while i < members.len()
                    invariant
                        i <= members.len(),
                        field(*self, key@) == member(members@, key@),
                        member(members@, key@) == member(members@.skip(i as int), key@),
                    decreases members.len() - i,
                {
                    assert(members@.skip(i as int).drop_first() =~= members@.skip(i + 1));
                    assert(members@.skip(i as int)[0] == members@[i as int]);
                    if crate::text::str_eq(members[i].0.as_str(), key) {
                        assert(members@[i as int].0@ == key@);
                        assert(member(members@.skip(i as int), key@) == Some(members@[i as int].1));
                        return Some(&members[i].1);
                    }
                    i = i + 1;
                }
                None
            },
            _ => None,
        }
    }

    /// The item at `index` of an array.
    pub fn at(&self, index: usize) -> (r: Option<&Json>)
        ensures
            deref_opt(r) == item(*self, index as int),
    {
        match self {
            Json::Array(items) => if index < items.len() {
                Some(&items[index])
            } else {
                None
            },
            _ => None,
        }
    }

    /// The text of a string value.
    pub fn as_str(&self) -> (r: Option<&String>)
        ensures
            match r {
                Some(s) => text_of(*self) == Some(s@),
                None => text_of(*self) is None,
            },
    {
        match self {
            Json::Str(s) => Some(s),
            _ => None,
        }
    }

    /// The items of an array.
    pub fn as_array(&self) -> (r: Option<&Vec<Json>>)
        ensures
            match r {
                Some(v) => *self == Json::Array(*v),
                None => !(*self is Array),
            },
    {
        match self {
            Json::Array(v) => Some(v),
            _ => None,
        }
    }
}

// ------------------------------------------------------------------------
// Parsing JSON text
// ------------------------------------------------------------------------

/// serde_json's JSON value, carried from the parse to its conversion.
#[verifier::external_type_specification]
#[verifier::external_body]
pub struct ExValue(serde_json::Value);

/// What `serde_json::from_str` makes of `text`, as a `Json`: the value it
/// parses, with numbers in their textual form and object members in the
/// order serde_json keeps them, or `None` when `text` is not JSON.
pub uninterp spec fn json_parse(text: Seq<char>) -> Option<Json>;

/// Converts a serde_json value into a `Json`, variant for variant.
#[verifier::external_body]
fn json_from_value(v: serde_json::Value) -> Json {
    match v {
        serde_json::Value::Null => Json::Null,
        serde_json::Value::Bool(b) => Json::Bool(b),
        serde_json::Value::Number(n) => Json::Number(n.to_string()),
        serde_json::Value::String(s) => Json::Str(s),
        serde_json::Value::Array(a) => Json::Array(a.into_iter().map(json_from_value).collect()),
        serde_json::Value::Object(m) => Json::Object(m.into_iter().map(|(k, x)| (k, json_from_value(x))).collect()),
    }
}

/// Calls `serde_json::from_str` on `text` and converts the value it parses.
/// The contract names the result: the JSON grammar is not restated.
#[verifier::external_body]
pub(crate) fn parse_json(text: &str) -> (r: Option<Json>)
    ensures
        r == json_parse(text@),
{
    serde_json::from_str::<serde_json::Value>(text).ok().map(json_from_value)
}

} // verus!
