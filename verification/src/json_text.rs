//! Reading a JSON document from bytes: serde_json parses, and the parsed
//! value is read node by node into the library's JSON value.

use vstd::prelude::*;
use serde_json::{Number, Value};
use crate::json::{elems_view, fields_view, lemma_array_view, lemma_object_view, Json, JsonNumber, JsonView};

verus! {

/// `serde_json::Value`, a parsed JSON document.
#[verifier::external_type_specification]
#[verifier::external_body]
pub struct ExValue(Value);

/// `serde_json::Number`, a parsed JSON number.
#[verifier::external_type_specification]
#[verifier::external_body]
pub struct ExNumber(Number);

/// The document a `serde_json::Value` holds: object fields in the map's
/// iteration order.
pub uninterp spec fn value_view(v: Value) -> JsonView;

/// The number a `serde_json::Number` holds, in its own form: an unsigned
/// integer, a negative integer, or the bits of a finite float.
pub uninterp spec fn number_view(n: Number) -> JsonNumber;

/// The document that `serde_json::from_slice` reads from `b`; `None` when `b`
/// is not a JSON document.
pub uninterp spec fn json_of_bytes(b: Seq<u8>) -> Option<JsonView>;

/// The text of the error `serde_json::from_slice` reports for `b`.
pub uninterp spec fn json_error_of(b: Seq<u8>) -> Seq<char>;

/// `serde_json::from_slice::<Value>`: the parsed document, or the parser's
/// error text.
#[verifier::external_body]
fn parse_value(bytes: &[u8]) -> (r: Result<Value, String>)
    ensures
        r is Ok <==> json_of_bytes(bytes@) is Some,
        r matches Ok(v) ==> json_of_bytes(bytes@) == Some(value_view(v)),
        r matches Err(m) ==> m@ == json_error_of(bytes@),
{
    serde_json::from_slice(bytes).map_err(|e| e.to_string())
}

/// One node of a parsed document, its children by reference.
pub enum ValueNode<'a> {
    Null,
    Bool(bool),
    Number(&'a Number),
    Str(&'a String),
    Array(Vec<&'a Value>),
    Object(Vec<(&'a String, &'a Value)>),
}

/// The node at the top of a `serde_json::Value` (its variant, with the
/// array elements or object entries in order).
#[verifier::external_body]
fn value_node<'a>(v: &'a Value) -> (r: ValueNode<'a>)
    ensures
        match value_view(*v) {
            JsonView::Null => r is Null,
            JsonView::Bool(b) => r == ValueNode::<'a>::Bool(b),
            JsonView::Number(n) => r matches ValueNode::Number(x) && number_view(*x) == n,
            JsonView::Str(s) => r matches ValueNode::Str(t) && t@ == s,
            JsonView::Array(items) => r matches ValueNode::Array(c) && c@.len() == items.len()
                && forall|i: int| 0 <= i < items.len() ==> value_view(*c@[i]) == items[i],
            JsonView::Object(fields) => r matches ValueNode::Object(c) && c@.len() == fields.len()
                && forall|i: int|
                0 <= i < fields.len() ==> c@[i].0@ == fields[i].0 && value_view(*c@[i].1)
                    == fields[i].1,
        },
{
    match v {
        Value::Null => ValueNode::Null,
        Value::Bool(b) => ValueNode::Bool(*b),
        Value::Number(n) => ValueNode::Number(n),
        Value::String(s) => ValueNode::Str(s),
        Value::Array(a) => ValueNode::Array(a.iter().collect()),
        Value::Object(m) => ValueNode::Object(m.iter().collect()),
    }
}

/// `Number::as_u64`: the number when it is an unsigned integer.
#[verifier::external_body]
fn number_as_u64(n: &Number) -> (r: Option<u64>)
    ensures
        r == match number_view(*n) {
            JsonNumber::PosInt(u) => Some(u),
            _ => None::<u64>,
        },
{
    n.as_u64()
}

/// `Number::as_i64`: the number when it is an integer that fits in `i64`.
#[verifier::external_body]
fn number_as_i64(n: &Number) -> (r: Option<i64>)
    ensures
        r == match number_view(*n) {
            JsonNumber::PosInt(u) => if u <= i64::MAX {
                Some(u as i64)
            } else {
                None::<i64>
            },
            JsonNumber::NegInt(i) => Some(i),
            JsonNumber::Float(_) => None::<i64>,
        },
{
    n.as_i64()
}

/// `Number::as_f64`, as IEEE-754 bits: always some value; for a float, its
/// own bits.
#[verifier::external_body]
fn number_float_bits(n: &Number) -> (r: Option<u64>)
    ensures
        r is Some,
        number_view(*n) matches JsonNumber::Float(b) ==> r == Some(b),
{
    n.as_f64().map(|x| x.to_bits())
}

/// A parsed number in the library's form.
fn number_of(n: &Number) -> (r: JsonNumber)
    ensures
        r == number_view(*n),
{
    match number_as_u64(n) {
        Some(u) => JsonNumber::PosInt(u),
        None => match number_as_i64(n) {
            Some(i) => JsonNumber::NegInt(i),
            None => match number_float_bits(n) {
                Some(b) => JsonNumber::Float(b),
                None => JsonNumber::Float(0),
            },
        },
    }
}

/// A parsed document as the library's JSON value.
fn json_of_value(v: &Value) -> (r: Json)
    ensures
        r@ == value_view(*v),
    decreases value_view(*v),
{
    let node = value_node(v);
    match node {
        ValueNode::Null => Json::Null,
        ValueNode::Bool(b) => Json::Bool(b),
        ValueNode::Number(n) => Json::Number(number_of(n)),
        ValueNode::Str(s) => Json::Str(s.clone()),
        ValueNode::Array(c) => {
            let ghost items = value_view(*v)->Array_0;
            let mut out: Vec<Json> = Vec::new();
            let mut i: usize = 0;
            while i < c.len()
                invariant
                    i <= c@.len(),
                    value_view(*v) == JsonView::Array(items),
                    c@.len() == items.len(),
                    forall|k: int| 0 <= k < items.len() ==> value_view(*c@[k]) == items[k],
                    out@.len() == i,
                    forall|k: int| 0 <= k < i ==> (#[trigger] out@[k])@ == items[k],
                decreases c@.len() - i,
            {
                proof {
                    assert(decreases_to!(value_view(*v) => value_view(*v)->Array_0));
                    assert(decreases_to!(items => items[i as int]));
                }
                let e = json_of_value(c[i]);
                out.push(e);
                i = i + 1;
            }
            proof {
                lemma_array_view(out);
                assert(elems_view(out@) =~= items);
            }
            Json::Array(out)
        },
        ValueNode::Object(c) => {
            let ghost fields = value_view(*v)->Object_0;
            let mut out: Vec<(String, Json)> = Vec::new();
            let mut i: usize = 0;
            while i < c.len()
                invariant
                    i <= c@.len(),
                    value_view(*v) == JsonView::Object(fields),
                    c@.len() == fields.len(),
                    forall|k: int|
                        0 <= k < fields.len() ==> c@[k].0@ == fields[k].0 && value_view(*c@[k].1)
                            == fields[k].1,
                    out@.len() == i,
                    forall|k: int|
                        0 <= k < i ==> (#[trigger] out@[k]).0@ == fields[k].0 && out@[k].1@
                            == fields[k].1,
                decreases c@.len() - i,
            {
                proof {
                    assert(decreases_to!(value_view(*v) => value_view(*v)->Object_0));
                    assert(decreases_to!(fields => fields[i as int]));
                    assert(decreases_to!(fields[i as int] => fields[i as int].1));
                }
                let (k, child) = c[i];
                let e = json_of_value(child);
                out.push((k.clone(), e));
                i = i + 1;
            }
            proof {
                lemma_object_view(out);
                assert(fields_view(out@) =~= fields);
            }
            Json::Object(out)
        },
    }
}

/// Parses a JSON document: the document that `bytes` holds, or the parser's
/// error text.
pub fn parse_json(bytes: &[u8]) -> (r: Result<Json, String>)
    ensures
        json_of_bytes(bytes@) matches Some(d) ==> (r matches Ok(j) && j@ == d),
        json_of_bytes(bytes@) is None ==> (r matches Err(m) && m@ == json_error_of(bytes@)),
{
    match parse_value(bytes) {
        Ok(v) => Ok(json_of_value(&v)),
        Err(m) => Err(m),
    }
}

} // verus!
