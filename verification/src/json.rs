//! A plain model of a decoded JSON document. The process boundary decodes
//! manifest files into this shape; the library reads fields from it. Only
//! the shape of a number is kept: no field the library consumes is numeric.

use vstd::prelude::*;

verus! {

broadcast use vstd::std_specs::vec::axiom_vec_index_decreases;

/// A decoded JSON value.
pub enum JsonValue {
    Null,
    Bool(bool),
    Number,
    String(String),
    Array(Vec<JsonValue>),
    Object(Vec<(String, JsonValue)>),
}

/// Well-formedness: every object's keys are distinct, recursively. The
/// decoder guarantees this (a JSON object maps each key once).
pub open spec fn json_wf(v: JsonValue) -> bool
    decreases v, 0int,
{
    match v {
        JsonValue::Array(items) => forall|i: int|
            0 <= i < items@.len() ==> json_wf(#[trigger] items@[i]),
        JsonValue::Object(fields) => {
            &&& forall|i: int, j: int|
                0 <= i < j < fields@.len() ==> (#[trigger] fields@[i].0)@ != (#[trigger] fields@[
                    j
                ].0)@
            &&& forall|i: int| 0 <= i < fields@.len() ==> json_wf((#[trigger] fields@[i]).1)
        },
        _ => true,
    }
}

/// The value of the field named `key`, scanning from index `i`; the first
/// match wins.
pub open spec fn field_from(fields: Seq<(String, JsonValue)>, i: int, key: Seq<char>) -> Option<
    JsonValue,
>
    decreases fields.len() - i,
{
    if i < 0 || i >= fields.len() {
        None
    } else if fields[i].0@ == key {
        Some(fields[i].1)
    } else {
        field_from(fields, i + 1, key)
    }
}

/// The value of the field named `key` of `v`, when `v` is an object that
/// has one.
pub open spec fn json_field(v: JsonValue, key: Seq<char>) -> Option<JsonValue> {
    match v {
        JsonValue::Object(fields) => field_from(fields@, 0, key),
        _ => None,
    }
}

/// Looks up the field named `key` of an object; `None` on any other shape
/// or when the field is absent.
#[verifier::loop_isolation(false)]
pub fn json_get<'a>(v: &'a JsonValue, key: &str) -> (r: Option<&'a JsonValue>)
    ensures
        match r {
            Some(f) => json_field(*v, key@) == Some(*f),
            None => json_field(*v, key@) is None,
        },
{
    match v {
        JsonValue::Object(fields) => {
            let mut i: usize = 0;
            while i < fields.len()
                invariant
                    i <= fields@.len(),
                    field_from(fields@, 0, key@) == field_from(fields@, i as int, key@),
                decreases fields@.len() - i,
            {
                if crate::strutil::str_eq_str(fields[i].0.as_str(), key) {
                    return Some(&fields[i].1);
                }
                i = i + 1;
            }
            None
        },
        _ => None,
    }
}

proof fn lemma_field_from_wf(fields: Seq<(String, JsonValue)>, i: int, key: Seq<char>)
    requires
        forall|j: int| 0 <= j < fields.len() ==> json_wf((#[trigger] fields[j]).1),
        field_from(fields, i, key) is Some,
    ensures
        json_wf(field_from(fields, i, key).unwrap()),
    decreases fields.len() - i,
{
    if 0 <= i < fields.len() && fields[i].0@ != key {
        lemma_field_from_wf(fields, i + 1, key);
    }
}

/// A field of a well-formed value is itself well-formed.
pub proof fn lemma_json_field_wf(v: JsonValue, key: Seq<char>)
    requires
        json_wf(v),
        json_field(v, key) is Some,
    ensures
        json_wf(json_field(v, key).unwrap()),
{
    match v {
        JsonValue::Object(fields) => {
            lemma_field_from_wf(fields@, 0, key);
        },
        _ => {},
    }
}

/// The text of a JSON string value.
pub open spec fn json_as_str(v: JsonValue) -> Option<Seq<char>> {
    match v {
        JsonValue::String(s) => Some(s@),
        _ => None,
    }
}

} // verus!
