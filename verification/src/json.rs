//! JSON values, kept in `serde_json::Value`.

use serde_json::Value;
use vstd::prelude::*;

verus! {

/// What a JSON value holds.
pub enum Json {
    Null,
    Bool(bool),
    /// A number: its value where that is an unsigned integer, and how it is written.
    Number(Option<u64>, Seq<char>),
    Text(Seq<char>),
    List(Seq<Json>),
    Object(Map<Seq<char>, Json>),
}

/// `serde_json::Value`.
#[verifier::external_type_specification]
#[verifier::external_body]
pub struct ExValue(serde_json::Value);

/// What a `serde_json::Value` holds.
pub uninterp spec fn model(v: serde_json::Value) -> Json;

/// What `serde_json::from_str` reads from a text, or why it reads nothing.
pub uninterp spec fn document(text: Seq<char>) -> Result<Json, Seq<char>>;

/// How `serde_json` writes a value.
pub uninterp spec fn json_text(v: Json) -> Seq<char>;

/// Lists and objects are nested at most `depth` deep.
pub open spec fn within(v: Json, depth: nat) -> bool
    decreases depth,
{
    match v {
        Json::List(items) => depth > 0 && forall|i: int|
            0 <= i < items.len() ==> within(#[trigger] items[i], (depth - 1) as nat),
        Json::Object(fields) => depth > 0 && forall|k: Seq<char>|
            #[trigger] fields.contains_key(k) ==> within(fields[k], (depth - 1) as nat),
        _ => true,
    }
}

/// The fields of a value; none where it is no object.
pub open spec fn fields_of(v: Json) -> Map<Seq<char>, Json> {
    match v {
        Json::Object(fields) => fields,
        _ => Map::empty(),
    }
}

/// The field `key` of a value, if it is there.
pub open spec fn field(v: Json, key: Seq<char>) -> Option<Json> {
    if fields_of(v).contains_key(key) {
        Some(fields_of(v)[key])
    } else {
        None
    }
}

/// The text that the field `key` holds, if it is there and a text.
pub open spec fn text_field(v: Json, key: Seq<char>) -> Option<Seq<char>> {
    match field(v, key) {
        Some(Json::Text(t)) => Some(t),
        _ => None,
    }
}

/// The unsigned integer that the field `key` holds, if it is there and such a number.
pub open spec fn unsigned_field(v: Json, key: Seq<char>) -> Option<u64> {
    match field(v, key) {
        Some(Json::Number(n, _)) => n,
        _ => None,
    }
}

/// A number that is written with digits alone, or with a minus sign before them.
pub open spec fn is_integer_text(t: Seq<char>) -> bool {
    forall|i: int| 0 <= i < t.len() ==> #[trigger] t[i] == '-' || '0' <= t[i] <= '9'
}

/// A value whose numbers are integers, with lists and objects nested at most `depth` deep.
pub open spec fn exact(v: Json, depth: nat) -> bool
    decreases depth,
{
    match v {
        Json::Number(n, t) => n is Some || is_integer_text(t),
        Json::List(items) => depth > 0 && forall|i: int|
            0 <= i < items.len() ==> exact(#[trigger] items[i], (depth - 1) as nat),
        Json::Object(fields) => depth > 0 && forall|k: Seq<char>|
            #[trigger] fields.contains_key(k) ==> exact(fields[k], (depth - 1) as nat),
        _ => true,
    }
}

/// The field `key` is in `after` if it is in `before`, and with the same value unless that has
/// a number that is no integer in it.
pub open spec fn keeps_field(before: Json, after: Json, key: Seq<char>) -> bool {
    &&& field(after, key) is Some <==> field(before, key) is Some
    &&& field(before, key) matches Some(v) ==> exact(v, 126) ==> field(after, key) == Some(v)
}

/// `after` has the fields of `before`.
pub open spec fn keeps_fields(before: Json, after: Json) -> bool {
    forall|key: Seq<char>| #[trigger] keeps_field(before, after, key)
}

// ── reading and writing ─────────────────────────────────────────────────────

/// `serde_json::from_str`, with `serde_json` built without its `raw_value` and
/// `arbitrary_precision` features. What it accepts is nested at most 127 deep.
#[verifier::external_body]
pub(crate) fn parse_value(text: &str) -> (r: Result<Value, String>)
    ensures
        r is Ok <==> document(text@) is Ok,
        r is Ok ==> model(r->Ok_0) == document(text@)->Ok_0 && within(model(r->Ok_0), 127),
        r is Err ==> r->Err_0@ == document(text@)->Err_0,
{
    serde_json::from_str::<Value>(text).map_err(|err| err.to_string())
}

/// `ToString` of `serde_json::Value`, with `serde_json` built without its `raw_value` and
/// `arbitrary_precision` features. An object starts with its brace. Where its nesting can be
/// read at all, it is read back as an object with the same fields; their values are the same,
/// except that a number with a fraction or an exponent need not be read back to the last digit.
#[verifier::external_body]
pub(crate) fn value_text(v: &Value) -> (r: String)
    ensures
        r@ == json_text(model(*v)),
        model(*v) is Object ==> r@.len() > 0 && r@[0] == '{',
        model(*v) is Object && within(model(*v), 127) ==> {
            &&& document(r@) is Ok
            &&& document(r@)->Ok_0 is Object
            &&& keeps_fields(model(*v), document(r@)->Ok_0)
        },
{
    v.to_string()
}

// ── looking into values ─────────────────────────────────────────────────────

/// `serde_json::Value::is_object`.
#[verifier::external_body]
pub(crate) fn is_object(v: &Value) -> (r: bool)
    ensures
        r == (model(*v) is Object),
{
    v.is_object()
}

/// `serde_json::Value::is_null`.
#[verifier::external_body]
pub(crate) fn is_null(v: &Value) -> (r: bool)
    ensures
        r == (model(*v) is Null),
{
    v.is_null()
}

/// `serde_json::Value::get` with a key: the field of an object; none of anything else.
#[verifier::external_body]
pub(crate) fn get<'a>(v: &'a Value, key: &str) -> (r: Option<&'a Value>)
    ensures
        match r {
            Some(x) => field(model(*v), key@) == Some(model(*x)),
            None => field(model(*v), key@) is None,
        },
{
    v.get(key)
}

/// `serde_json::Value::as_str`.
#[verifier::external_body]
pub(crate) fn as_text(v: &Value) -> (r: Option<&str>)
    ensures
        match r {
            Some(s) => model(*v) == Json::Text(s@),
            None => model(*v) !is Text,
        },
{
    v.as_str()
}

/// `serde_json::Value::as_u64`.
#[verifier::external_body]
pub(crate) fn as_unsigned(v: &Value) -> (r: Option<u64>)
    ensures
        r == (match model(*v) {
            Json::Number(n, _) => n,
            _ => None,
        }),
{
    v.as_u64()
}

/// `serde_json::Value::is_number`.
#[verifier::external_body]
pub(crate) fn is_number(v: &Value) -> (r: bool)
    ensures
        r == (model(*v) is Number),
{
    v.is_number()
}

/// What some values hold.
pub open spec fn models(v: Seq<Value>) -> Seq<Json> {
    v.map_values(|x: Value| model(x))
}

/// `serde_json::Value::as_array`.
#[verifier::external_body]
pub(crate) fn as_list(v: &Value) -> (r: Option<&Vec<Value>>)
    ensures
        match r {
            Some(items) => model(*v) == Json::List(models(items@)),
            None => model(*v) !is List,
        },
{
    v.as_array()
}

// ── making values ───────────────────────────────────────────────────────────

/// `serde_json::Value::String`.
#[verifier::external_body]
pub(crate) fn text_value(s: &str) -> (r: Value)
    ensures
        model(r) == Json::Text(s@),
{
    Value::String(s.to_string())
}

/// `serde_json::Value::Bool`.
#[verifier::external_body]
pub(crate) fn bool_value(b: bool) -> (r: Value)
    ensures
        model(r) == Json::Bool(b),
{
    Value::Bool(b)
}

/// `serde_json::Value::Object` of an empty `serde_json::Map`.
#[verifier::external_body]
pub(crate) fn empty_object() -> (r: Value)
    ensures
        model(r) == Json::Object(Map::<Seq<char>, Json>::empty()),
{
    Value::Object(serde_json::Map::new())
}

/// Assignment to `serde_json::Value` indexed by a key: the field of an object is put in or
/// replaced; null counts as an empty object.
#[verifier::external_body]
pub(crate) fn set_field(v: &mut Value, key: &str, x: Value)
    requires
        model(*old(v)) is Object || model(*old(v)) is Null,
    ensures
        model(*final(v)) == Json::Object(fields_of(model(*old(v))).insert(key@, model(x))),
{
    v[key] = x;
}

/// The text that the field `key` of `v` holds.
pub fn get_text<'a>(v: &'a Value, key: &str) -> (r: Option<&'a str>)
    ensures
        match r {
            Some(s) => text_field(model(*v), key@) == Some(s@),
            None => text_field(model(*v), key@) is None,
        },
{
    match get(v, key) {
        Some(x) => as_text(x),
        None => None,
    }
}

/// The unsigned integer that the field `key` of `v` holds.
pub fn get_unsigned(v: &Value, key: &str) -> (r: Option<u64>)
    ensures
        r == unsigned_field(model(*v), key@),
{
    match get(v, key) {
        Some(x) => as_unsigned(x),
        None => None,
    }
}

/// A text that reads as an object with the text `value` in the field `key`.
pub open spec fn reads_field(raw: Seq<char>, key: Seq<char>, value: Seq<char>) -> bool {
    document(raw) matches Ok(v) && text_field(v, key) == Some(value)
}

/// A text in a field is still there.
pub proof fn lemma_keeps_text(before: Json, after: Json, key: Seq<char>, value: Seq<char>)
    requires
        keeps_fields(before, after),
        text_field(before, key) == Some(value),
    ensures
        text_field(after, key) == Some(value),
{
    assert(keeps_field(before, after, key));
}

/// Writes an object out. It can be read again, with all of its fields.
pub fn object_text(v: &Value) -> (r: String)
    requires
        model(*v) is Object,
        within(model(*v), 127),
    ensures
        r@ == json_text(model(*v)),
        r@.len() > 0,
        r@[0] == '{',
        document(r@) matches Ok(d) && d is Object && keeps_fields(model(*v), d),
        forall|key: Seq<char>, value: Seq<char>|
            text_field(model(*v), key) == Some(value) ==> #[trigger] reads_field(r@, key, value),
{
    let raw = value_text(v);
    proof {
        assert forall|key: Seq<char>, value: Seq<char>| text_field(model(*v), key) == Some(value) implies
            #[trigger] reads_field(raw@, key, value) by {
            lemma_keeps_text(model(*v), document(raw@)->Ok_0, key, value);
        }
    }
    raw
}

/// Putting a text into an object nests it no deeper than an object is anyway.
pub proof fn lemma_set_within(v: Json, key: Seq<char>, t: Seq<char>, depth: nat)
    requires
        within(v, depth),
        v is Object,
        depth > 0,
    ensures
        within(Json::Object(fields_of(v).insert(key, Json::Text(t))), depth),
{
    let f = fields_of(v).insert(key, Json::Text(t));
    assert forall|k: Seq<char>| #[trigger] f.contains_key(k) implies within(f[k], (depth - 1) as nat) by {
        if k != key {
            assert(fields_of(v).contains_key(k));
        }
    }
}

/// A field is found in an object by its key, and its text or number is what it holds.
pub proof fn law_fields_are_found(fields: Map<Seq<char>, Json>, key: Seq<char>, t: Seq<char>, n: u64)
    ensures
        fields.contains_key(key) <==> field(Json::Object(fields), key) == Some(fields[key]),
        fields.contains_key(key) && fields[key] == Json::Text(t) <==> text_field(Json::Object(fields), key) == Some(t),
        unsigned_field(Json::Object(fields), key) == Some(n) ==> fields.contains_key(key) && fields[key] is Number,
        fields.contains_key(key) && fields[key] is Text ==> unsigned_field(Json::Object(fields), key) is None,
        field(Json::Null, key) is None,
{
}

} // verus!
