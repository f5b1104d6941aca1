//! A JSON value as the order API returns it, held as plain data.
use vstd::prelude::*;

use crate::text::str_eq;

verus! {

/// A JSON document. Objects keep their members in order; a decoded object
/// never repeats a key, and a lookup finds the first member with the key.
#[derive(Debug)]
pub enum JsonValue {
    Null,
    Bool(bool),
    /// A number: `Some(n)` when it is an integer in the range of `u64`,
    /// `None` for any other number (negative, fractional or too large).
    Number(Option<u64>),
    String(String),
    Array(Vec<JsonValue>),
    Object(Vec<(String, JsonValue)>),
}

/// The value of the first member named `key`.
pub open spec fn lookup(entries: Seq<(String, JsonValue)>, key: Seq<char>) -> Option<JsonValue>
    decreases entries.len(),
{
    if entries.len() == 0 {
        None
    } else if entries[0].0@ == key {
        Some(entries[0].1)
    } else {
        lookup(entries.drop_first(), key)
    }
}

impl JsonValue {
    /// The member `key` of an object (`None` for anything but an object).
    pub open spec fn spec_get(self, key: Seq<char>) -> Option<JsonValue> {
        match self {
            JsonValue::Object(entries) => lookup(entries@, key),
            _ => None,
        }
    }

    /// The characters of a string value.
    pub open spec fn spec_as_str(self) -> Option<Seq<char>> {
        match self {
            JsonValue::String(s) => Some(s@),
            _ => None,
        }
    }

    /// The elements of an array value.
    pub open spec fn spec_as_array(self) -> Option<Seq<JsonValue>> {
        match self {
            JsonValue::Array(a) => Some(a@),
            _ => None,
        }
    }

    /// The value of a number that is an unsigned 64-bit integer.
    pub open spec fn spec_as_u64(self) -> Option<u64> {
        match self {
            JsonValue::Number(n) => n,
            _ => None,
        }
    }

    /// Looks up the member `key` of an object.
    pub fn get(&self, key: &str) -> (res: Option<&JsonValue>)
        ensures
            match res {
                Some(v) => self.spec_get(key@) == Some(*v),
                None => self.spec_get(key@) is None,
            },
    {
        match self {
            JsonValue::Object(entries) => {
                assert(self.spec_get(key@) == lookup(entries@, key@));
                let mut i: usize = 0;
                assert(entries@.skip(0) =~= entries@);
                while i < entries.len()
                    invariant
                        i <= entries.len(),
                        self.spec_get(key@) == lookup(entries@, key@),
                        lookup(entries@, key@) == lookup(entries@.skip(i as int), key@),
                    decreases entries.len() - i,
                {
                    let ghost rest = entries@.skip(i as int);
                    assert(rest[0] == entries@[i as int]);
                    if str_eq(entries[i].0.as_str(), key) {
                        assert(rest.len() > 0 && rest[0].0@ == key@);
                        assert(lookup(rest, key@) == Some(rest[0].1));
                        return Some(&entries[i].1);
                    }
                    assert(rest.drop_first() =~= entries@.skip(i + 1));
                    i = i + 1;
                }
                None
            },
            _ => None,
        }
    }

    /// The string held by a string value.
    pub fn as_str(&self) -> (res: Option<&str>)
        ensures
            match res {
                Some(s) => self.spec_as_str() == Some(s@),
                None => self.spec_as_str() is None,
            },
    {
        match self {
            JsonValue::String(s) => Some(s.as_str()),
            _ => None,
        }
    }

    /// The elements held by an array value.
    pub fn as_array(&self) -> (res: Option<&Vec<JsonValue>>)
        ensures
            match res {
                Some(a) => self.spec_as_array() == Some(a@),
                None => self.spec_as_array() is None,
            },
    {
        match self {
            JsonValue::Array(a) => Some(a),
            _ => None,
        }
    }

    /// The value of a number that is an unsigned 64-bit integer.
    pub fn as_u64(&self) -> (res: Option<u64>)
        ensures
            res == self.spec_as_u64(),
    {
        match self {
            JsonValue::Number(n) => *n,
            _ => None,
        }
    }
}

/// The string at member `key`.
pub open spec fn get_str(v: JsonValue, key: Seq<char>) -> Option<Seq<char>> {
    match v.spec_get(key) {
        Some(x) => x.spec_as_str(),
        None => None,
    }
}

/// The string at member `inner` of member `outer`.
pub open spec fn get_nested_str(v: JsonValue, outer: Seq<char>, inner: Seq<char>) -> Option<
    Seq<char>,
> {
    match v.spec_get(outer) {
        Some(x) => get_str(x, inner),
        None => None,
    }
}

/// The elements of the array at member `key` (none when it is absent or
/// not an array).
pub open spec fn get_array(v: JsonValue, key: Seq<char>) -> Seq<JsonValue> {
    match v.spec_get(key) {
        Some(x) => match x.spec_as_array() {
            Some(a) => a,
            None => Seq::empty(),
        },
        None => Seq::empty(),
    }
}

/// The unsigned integer at member `key`.
pub open spec fn get_u64(v: JsonValue, key: Seq<char>) -> Option<u64> {
    match v.spec_get(key) {
        Some(x) => x.spec_as_u64(),
        None => None,
    }
}

} // verus!
