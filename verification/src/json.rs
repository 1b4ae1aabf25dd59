//! A JSON value as the library reads it. Numbers keep the exact form the
//! parser produced (an unsigned or signed integer, or the IEEE-754 bits of a
//! float); object fields keep their order.

use vstd::prelude::*;

verus! {

/// A JSON number.
#[derive(Clone, Copy, Debug, PartialEq, Eq, Structural)]
pub enum JsonNumber {
    PosInt(u64),
    NegInt(i64),
    /// IEEE-754 binary64 bit pattern.
    Float(u64),
}

/// A JSON value.
#[derive(Debug)]
pub enum Json {
    Null,
    Bool(bool),
    Number(JsonNumber),
    Str(String),
    Array(Vec<Json>),
    Object(Vec<(String, Json)>),
}

/// A JSON value as mathematics: strings as characters, arrays and objects as
/// sequences.
pub enum JsonView {
    Null,
    Bool(bool),
    Number(JsonNumber),
    Str(Seq<char>),
    Array(Seq<JsonView>),
    Object(Seq<(Seq<char>, JsonView)>),
}

/// The view of a JSON value.
pub open spec fn json_view(j: Json) -> JsonView
    decreases j,
{
    match j {
        Json::Null => JsonView::Null,
        Json::Bool(b) => JsonView::Bool(b),
        Json::Number(n) => JsonView::Number(n),
        Json::Str(s) => JsonView::Str(s@),
        Json::Array(a) => JsonView::Array(
            Seq::new(
                a@.len(),
                |i: int|
                    if 0 <= i < a@.len() {
                        json_view(a@[i])
                    } else {
                        JsonView::Null
                    },
            ),
        ),
        Json::Object(f) => JsonView::Object(
            Seq::new(
                f@.len(),
                |i: int|
                    if 0 <= i < f@.len() {
                        (f@[i].0@, json_view(f@[i].1))
                    } else {
                        (Seq::empty(), JsonView::Null)
                    },
            ),
        ),
    }
}

impl View for Json {
    type V = JsonView;

    open spec fn view(&self) -> JsonView {
        json_view(*self)
    }
}

/// The value of the first field named `key`.
pub open spec fn field_of(fields: Seq<(Seq<char>, JsonView)>, key: Seq<char>) -> Option<JsonView>
    decreases fields.len(),
{
    if fields.len() == 0 {
        None
    } else if fields[0].0 == key {
        Some(fields[0].1)
    } else {
        field_of(fields.drop_first(), key)
    }
}

/// `v.get(key)`: the field `key` of an object, `None` for anything else.
pub open spec fn get_spec(v: Option<JsonView>, key: Seq<char>) -> Option<JsonView> {
    match v {
        Some(JsonView::Object(fields)) => field_of(fields, key),
        _ => None,
    }
}

/// `v.as_str()`.
pub open spec fn as_text_spec(v: Option<JsonView>) -> Option<Seq<char>> {
    match v {
        Some(JsonView::Str(s)) => Some(s),
        _ => None,
    }
}

/// A number's value, `None` for anything else.
pub open spec fn as_number_spec(v: Option<JsonView>) -> Option<JsonNumber> {
    match v {
        Some(JsonView::Number(n)) => Some(n),
        _ => None,
    }
}

/// `v.as_array()`.
pub open spec fn as_array_spec(v: Option<JsonView>) -> Option<Seq<JsonView>> {
    match v {
        Some(JsonView::Array(a)) => Some(a),
        _ => None,
    }
}

/// `v.as_object()`.
pub open spec fn as_object_spec(v: Option<JsonView>) -> Option<Seq<(Seq<char>, JsonView)>> {
    match v {
        Some(JsonView::Object(f)) => Some(f),
        _ => None,
    }
}

/// `v.as_bool()`.
pub open spec fn as_bool_spec(v: Option<JsonView>) -> Option<bool> {
    match v {
        Some(JsonView::Bool(b)) => Some(b),
        _ => None,
    }
}

/// The view behind an optional reference.
pub open spec fn view_opt(o: Option<&Json>) -> Option<JsonView> {
    match o {
        Some(x) => Some(x@),
        None => None,
    }
}

/// The view of an optional value.
pub open spec fn view_owned(o: Option<Json>) -> Option<JsonView> {
    match o {
        Some(x) => Some(x@),
        None => None,
    }
}

/// An optional string as characters.
pub open spec fn text_opt(o: Option<String>) -> Option<Seq<char>> {
    match o {
        Some(s) => Some(s@),
        None => None,
    }
}

/// The entries of an object, as views.
pub open spec fn fields_view(f: Seq<(String, Json)>) -> Seq<(Seq<char>, JsonView)> {
    Seq::new(f.len(), |i: int| (f[i].0@, f[i].1@))
}

/// The elements of an array, as views.
pub open spec fn elems_view(a: Seq<Json>) -> Seq<JsonView> {
    Seq::new(a.len(), |i: int| a[i]@)
}

/// The view of an object is the view of its fields.
pub proof fn lemma_object_view(f: Vec<(String, Json)>)
    ensures
        Json::Object(f)@ == JsonView::Object(fields_view(f@)),
{
    let j = Json::Object(f);
    let v = json_view(j);
    let s1 = v->Object_0;
    assert(s1 =~= fields_view(f@));
}

/// The view of an array is the view of its elements.
pub proof fn lemma_array_view(a: Vec<Json>)
    ensures
        Json::Array(a)@ == JsonView::Array(elems_view(a@)),
{
    let j = Json::Array(a);
    let v = json_view(j);
    let s1 = v->Array_0;
    assert(s1 =~= elems_view(a@));
}

proof fn lemma_field_of_skip(s: Seq<(Seq<char>, JsonView)>, i: int, key: Seq<char>)
    requires
        0 <= i <= s.len(),
        forall|j: int| 0 <= j < i ==> (#[trigger] s[j]).0 != key,
    ensures
        field_of(s, key) == field_of(s.skip(i), key),
    decreases i,
{
    if i == 0 {
        assert(s.skip(0) =~= s);
    } else {
        lemma_field_of_skip(s, i - 1, key);
        let t = s.skip(i - 1);
        assert(t.len() > 0);
        assert(t[0] == s[i - 1]);
        assert(t.drop_first() =~= s.skip(i));
        assert(field_of(t, key) == field_of(t.drop_first(), key));
    }
}

/// `v.get(key)`.
pub fn get_field<'a>(v: &'a Json, key: &str) -> (r: Option<&'a Json>)
    ensures
        view_opt(r) == get_spec(Some(v@), key@),
{
    match v {
        Json::Object(fields) => {
            proof {
                lemma_object_view(*fields);
            }
            let ghost fv = fields_view(fields@);
            let k = String::from_str(key);
            let mut i: usize = 0;
            while i < fields.len()
                invariant
                    i <= fields@.len(),
                    k@ == key@,
                    fv == fields_view(fields@),
                    v@ == JsonView::Object(fv),
                    forall|j: int| 0 <= j < i ==> (#[trigger] fv[j]).0 != key@,
                decreases fields@.len() - i,
            {
                if fields[i].0 == k {
                    proof {
                        lemma_field_of_skip(fv, i as int, key@);
                        assert(fv[i as int] == (fields@[i as int].0@, fields@[i as int].1@));
                        assert(fv.skip(i as int).len() > 0);
                        assert(fv.skip(i as int)[0] == fv[i as int]);
                        assert(fv[i as int].0 == key@);
                        assert(field_of(fv.skip(i as int), key@) == Some(fv[i as int].1));
                    }
                    return Some(&fields[i].1);
                }
                i = i + 1;
            }
            proof {
                lemma_field_of_skip(fv, i as int, key@);
                assert(fv.skip(i as int).len() == 0);
            }
            None
        },
        _ => None,
    }
}

/// `v.get(key)` on an optional value.
pub fn get<'a>(v: Option<&'a Json>, key: &str) -> (r: Option<&'a Json>)
    ensures
        view_opt(r) == get_spec(view_opt(v), key@),
{
    match v {
        Some(x) => get_field(x, key),
        None => None,
    }
}

/// `v.as_str().map(String::from)`.
pub fn as_string(v: Option<&Json>) -> (r: Option<String>)
    ensures
        text_opt(r) == as_text_spec(view_opt(v)),
{
    match v {
        Some(Json::Str(s)) => Some(s.clone()),
        _ => None,
    }
}

/// A number's value.
pub fn as_number(v: Option<&Json>) -> (r: Option<JsonNumber>)
    ensures
        r == as_number_spec(view_opt(v)),
{
    match v {
        Some(Json::Number(n)) => Some(*n),
        _ => None,
    }
}

/// `v.as_bool()`.
pub fn as_bool(v: Option<&Json>) -> (r: Option<bool>)
    ensures
        r == as_bool_spec(view_opt(v)),
{
    match v {
        Some(Json::Bool(b)) => Some(*b),
        _ => None,
    }
}

/// A copy of a JSON value.
pub fn copy_json(j: &Json) -> (r: Json)
    ensures
        r@ == j@,
    decreases j,
{
    match j {
        Json::Null => Json::Null,
        Json::Bool(b) => Json::Bool(*b),
        Json::Number(n) => Json::Number(*n),
        Json::Str(s) => Json::Str(s.clone()),
        Json::Array(a) => {
            let mut out: Vec<Json> = Vec::new();
            let mut i: usize = 0;
            while i < a.len()
                invariant
                    i <= a@.len(),
                    out@.len() == i,
                    *j == Json::Array(*a),
                    forall|k: int| 0 <= k < i ==> (#[trigger] out@[k])@ == a@[k]@,
                decreases a@.len() - i,
            {
                proof {
                    broadcast use vstd::std_specs::vec::group_vec_axioms;
                    assert(decreases_to!(*j => (*j)->Array_0));
                    assert(decreases_to!(*a => a@));
                    assert(decreases_to!(a@ => a@[i as int]));
                }
                let c = copy_json(&a[i]);
                out.push(c);
                i = i + 1;
            }
            proof {
                lemma_array_view(*a);
                lemma_array_view(out);
                assert(elems_view(out@) =~= elems_view(a@));
            }
            Json::Array(out)
        },
        Json::Object(f) => {
            let mut out: Vec<(String, Json)> = Vec::new();
            let mut i: usize = 0;
            while i < f.len()
                invariant
                    i <= f@.len(),
                    out@.len() == i,
                    *j == Json::Object(*f),
                    forall|k: int| 0 <= k < i ==> (#[trigger] out@[k]).0@ == f@[k].0@ && out@[k].1@ == f@[k].1@,
                decreases f@.len() - i,
            {
                proof {
                    broadcast use vstd::std_specs::vec::group_vec_axioms;
                    assert(decreases_to!(*j => (*j)->Object_0));
                    assert(decreases_to!(*f => f@));
                    assert(decreases_to!(f@ => f@[i as int]));
                    assert(decreases_to!(f@[i as int] => f@[i as int].1));
                }
                let c = copy_json(&f[i].1);
                out.push((f[i].0.clone(), c));
                i = i + 1;
            }
            proof {
                lemma_object_view(*f);
                lemma_object_view(out);
                assert(fields_view(out@) =~= fields_view(f@));
            }
            Json::Object(out)
        },
    }
}

impl Clone for Json {
    fn clone(&self) -> (r: Self)
        ensures
            r@ == self@,
    {
        copy_json(self)
    }
}

} // verus!
