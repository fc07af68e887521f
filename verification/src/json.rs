use vstd::prelude::*;
use crate::text::{str_chars, chars_eq};

verus! {

/// A JSON document as the move API reads and writes it.
#[derive(Debug)]
pub enum JsonValue {
    Null,
    Bool(bool),
    /// A number that is an integer within the range of `i64`.
    Int(i64),
    /// Any other number (a fraction, or an integer beyond `i64`); its value is not used.
    OtherNumber,
    Str(String),
    Array(Vec<JsonValue>),
    /// The members of an object: keys and values at equal positions, each key at most once.
    Object(Vec<String>, Vec<JsonValue>),
}

/// A JSON document with its text as character sequences.
pub ghost enum JModel {
    Null,
    Bool(bool),
    Int(int),
    OtherNumber,
    Str(Seq<char>),
    Array(Seq<JModel>),
    Object(Seq<Seq<char>>, Seq<JModel>),
}

/// The model of a document.
pub open spec fn jm(v: JsonValue) -> JModel
    decreases v, 1int,
{
    match v {
        JsonValue::Null => JModel::Null,
        JsonValue::Bool(b) => JModel::Bool(b),
        JsonValue::Int(n) => JModel::Int(n as int),
        JsonValue::OtherNumber => JModel::OtherNumber,
        JsonValue::Str(s) => JModel::Str(s@),
        JsonValue::Array(items) => JModel::Array(jm_list(items@)),
        JsonValue::Object(keys, values) => JModel::Object(keys@.map_values(|k: String| k@), jm_list(values@)),
    }
}

/// The models of a list of documents.
pub open spec fn jm_list(items: Seq<JsonValue>) -> Seq<JModel>
    decreases items, 0int,
{
    if items.len() == 0 {
        Seq::empty()
    } else {
        jm_list(items.drop_last()).push(jm(items.last()))
    }
}

/// The member `key` of an object (the first with that key), or `None` for anything else.
pub open spec fn json_get(v: JsonValue, key: Seq<char>) -> Option<JsonValue> {
    match v {
        JsonValue::Object(keys, values) => {
            if exists|i: int| 0 <= i < keys@.len() && i < values@.len() && (#[trigger] keys@[i])@ == key {
                let i = choose|i: int| 0 <= i < keys@.len() && i < values@.len() && (#[trigger] keys@[i])@ == key
                    && forall|j: int| 0 <= j < i ==> keys@[j]@ != key;
                Some(values@[i])
            } else {
                None
            }
        },
        _ => None,
    }
}

/// The integer a value holds, when it is an integer within `i64`.
pub open spec fn json_as_i64(v: Option<JsonValue>) -> Option<i64> {
    match v {
        Some(JsonValue::Int(n)) => Some(n),
        _ => None,
    }
}

/// The text a value holds, when it is a string.
pub open spec fn json_as_str(v: Option<JsonValue>) -> Option<Seq<char>> {
    match v {
        Some(JsonValue::Str(s)) => Some(s@),
        _ => None,
    }
}

/// The elements of an array, or nothing for any other value.
pub open spec fn json_items(v: JsonValue) -> Seq<JsonValue> {
    match v {
        JsonValue::Array(items) => items@,
        _ => Seq::empty(),
    }
}

impl JsonValue {
    /// The member `key` of an object (see `json_get`).
    pub fn get(&self, key: &str) -> (r: Option<&JsonValue>)
        ensures
            match r {
                Some(v) => json_get(*self, key@) == Some(*v),
                None => json_get(*self, key@) is None,
            },
    {
        match self {
            JsonValue::Object(keys, values) => {
                let k = str_chars(key);
                let mut i: usize = 0;
                while i < keys.len() && i < values.len()
                    invariant
                        *self == JsonValue::Object(*keys, *values),
                        i <= keys@.len(),
                        k@ == key@,
                        forall|j: int| 0 <= j < i ==> keys@[j]@ != key@,
                    decreases keys@.len() - i,
                {
                    let ek = str_chars(keys[i].as_str());
                    if chars_eq(ek.as_slice(), k.as_slice()) {
                        proof {
                            assert(keys@[i as int]@ == key@);
                            let c = choose|c: int| 0 <= c < keys@.len() && c < values@.len() && (#[trigger] keys@[c])@ == key@
                                && forall|j: int| 0 <= j < c ==> keys@[j]@ != key@;
                            assert(c == i as int) by {
                                if c < i { assert(keys@[c]@ != key@); }
                                if c > i { assert(keys@[i as int]@ != key@); }
                            }
                            assert(json_get(*self, key@) == Some(values@[i as int]));
                        }
                        return Some(&values[i]);
                    }
                    i += 1;
                }
                None
            },
            _ => None,
        }
    }

    /// Whether this is an array.
    pub fn is_array(&self) -> (b: bool)
        ensures
            b == (*self is Array),
    {
        match self {
            JsonValue::Array(_) => true,
            _ => false,
        }
    }

    /// Whether this is an object.
    pub fn is_object(&self) -> (b: bool)
        ensures
            b == (*self is Object),
    {
        match self {
            JsonValue::Object(..) => true,
            _ => false,
        }
    }
}

/// The integer a value holds, when it is an integer within `i64`.
pub fn as_i64(v: Option<&JsonValue>) -> (r: Option<i64>)
    ensures
        r == json_as_i64(match v { Some(x) => Some(*x), None => None }),
{
    match v {
        Some(JsonValue::Int(n)) => Some(*n),
        _ => None,
    }
}

/// The text a value holds, when it is a string.
pub fn as_str(v: Option<&JsonValue>) -> (r: Option<&String>)
    ensures
        match r {
            Some(s) => json_as_str(match v { Some(x) => Some(*x), None => None }) == Some(s@),
            None => json_as_str(match v { Some(x) => Some(*x), None => None }) is None,
        },
{
    match v {
        Some(JsonValue::Str(s)) => Some(s),
        _ => None,
    }
}

} // verus!
