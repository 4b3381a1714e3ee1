//! The state that a viewer keeps between two calls: a JSON object with its page, sheet or
//! chapter.

use crate::json;
use crate::json::Json;
use crate::text;
use crate::text::{parse_index, trim};
use serde_json::Value;
use vstd::prelude::*;
use vstd::string::*;

verus! {

/// What a stored state holds: the object it is, and nothing where it is none.
pub open spec fn state_of(raw: Seq<char>) -> Json {
    if text::trimmed(raw).len() == 0 {
        Json::Object(Map::empty())
    } else {
        match json::document(raw) {
            Ok(Json::Object(fields)) => Json::Object(fields),
            _ => Json::Object(Map::empty()),
        }
    }
}

/// Reads a stored state.
pub fn parse_state(raw: &str) -> (r: Value)
    ensures
        json::model(r) == state_of(raw@),
        json::model(r) is Object,
        json::within(json::model(r), 127),
{
    let t = trim(raw);
    if t.as_str().unicode_len() == 0 {
        return json::empty_object();
    }
    match json::parse_value(raw) {
        Ok(v) => {
            if json::is_object(&v) {
                v
            } else {
                json::empty_object()
            }
        },
        Err(_) => json::empty_object(),
    }
}

/// The index that the field `key` of a state holds: a number, or a text that reads as one;
/// `default` otherwise.
pub open spec fn index_in(state: Json, key: Seq<char>, default: usize) -> usize {
    match json::field(state, key) {
        Some(Json::Number(n, _)) => match n {
            Some(u) => u as usize,
            None => default,
        },
        Some(Json::Text(s)) => match text::index_value(s) {
            Some(u) => u,
            None => default,
        },
        _ => default,
    }
}

/// The index that the field `key` of a state holds.
pub fn state_u(state: &Value, key: &str, default: usize) -> (r: usize)
    ensures
        r == index_in(json::model(*state), key@, default),
{
    match json::get(state, key) {
        Some(x) => {
            if json::is_number(x) {
                match json::as_unsigned(x) {
                    Some(u) => u as usize,
                    None => default,
                }
            } else {
                match json::as_text(x) {
                    Some(s) => match parse_index(s) {
                        Some(u) => u,
                        None => default,
                    },
                    None => default,
                }
            }
        },
        None => default,
    }
}

/// A state with the text `value` in the field `key`.
pub open spec fn with_text(state: Json, key: Seq<char>, value: Seq<char>) -> Json {
    Json::Object(json::fields_of(state).insert(key, Json::Text(value)))
}

/// Puts the text `value` into the field `key`.
pub fn put_text(state: &mut Value, key: &str, value: &str)
    requires
        json::model(*old(state)) is Object,
        json::within(json::model(*old(state)), 127),
    ensures
        json::model(*final(state)) == with_text(json::model(*old(state)), key@, value@),
        json::within(json::model(*final(state)), 127),
{
    proof {
        json::lemma_set_within(json::model(*state), key@, value@, 127);
    }
    json::set_field(state, key, json::text_value(value));
}

/// What a key press does.
pub struct ViewerHandleKeyResult {
    pub consumed: bool,
    pub state_json: String,
}

/// Writes a state out. Its fields are there when it is read again.
pub fn write_state(state: &Value) -> (r: String)
    requires
        json::model(*state) is Object,
        json::within(json::model(*state), 127),
    ensures
        r@ == json::json_text(json::model(*state)),
        json::keeps_fields(json::model(*state), state_of(r@)),
{
    let raw = json::object_text(state);
    proof {
        lemma_brace_not_blank(raw@);
    }
    raw
}

/// What is written with a text put into the field `key` has that text there, and every other
/// field as it was.
pub proof fn lemma_text_put(before: Json, key: Seq<char>, value: Seq<char>, after: Json)
    requires
        json::keeps_fields(with_text(before, key, value), after),
    ensures
        json::text_field(after, key) == Some(value),
        forall|k: Seq<char>| k != key ==> #[trigger] json::keeps_field(before, after, k),
{
    json::lemma_keeps_text(with_text(before, key, value), after, key, value);
    assert forall|k: Seq<char>| k != key implies #[trigger] json::keeps_field(before, after, k) by {
        assert(json::keeps_field(with_text(before, key, value), after, k));
    }
}

proof fn lemma_brace_not_blank(s: Seq<char>)
    requires
        s.len() > 0,
        s[0] == '{',
    ensures
        text::trimmed(s).len() > 0,
{
    assert(text::trim_front(s, text::CharClass::White) == s);
    lemma_trim_back_keeps_first(s);
}

proof fn lemma_trim_back_keeps_first(s: Seq<char>)
    requires
        s.len() > 0,
        s[0] == '{',
    ensures
        text::trim_back(s, text::CharClass::White).len() > 0,
    decreases s.len(),
{
    if text::is_white(s.last()) {
        assert(s.len() > 1);
        lemma_trim_back_keeps_first(s.drop_last());
    }
}

/// An index that a state holds as a decimal number is the index that is read from it.
pub proof fn law_stored_index_is_read(state: Json, key: Seq<char>, n: nat, default: usize)
    requires
        n <= usize::MAX,
        json::text_field(state, key) == Some(text::decimal(n as int)),
    ensures
        index_in(state, key, default) == n,
{
    text::law_decimal_reads_back(n);
}

/// A stored object is the state; anything else counts as no state at all.
pub proof fn law_stored_object_is_the_state(raw: Seq<char>)
    ensures
        text::solid(raw).len() > 0 && json::document(raw) is Ok && json::document(raw)->Ok_0 is Object
            ==> state_of(raw) == json::document(raw)->Ok_0,
        json::document(raw) is Err || !(json::document(raw)->Ok_0 is Object) ==> state_of(raw) == Json::Object(
            Map::empty(),
        ),
        text::solid(raw).len() == 0 ==> state_of(raw) == Json::Object(Map::empty()),
{
    text::lemma_trimmed_solid(raw);
    text::lemma_trim_both_ends(raw, text::CharClass::White);
    let t = text::trimmed(raw);
    if t.len() > 0 {
        assert(text::solid(t).len() > 0);
    } else {
        assert(text::solid(t).len() == 0);
    }
}

/// An index is read from a number, or from a text of decimal digits; whatever else is there, or not
/// there, is the default.
pub proof fn law_index_is_read(state: Json, key: Seq<char>, default: usize)
    ensures
        json::unsigned_field(state, key) matches Some(n) ==> n <= u32::MAX ==> index_in(state, key, default) == n,
        json::field(state, key) is None ==> index_in(state, key, default) == default,
        json::text_field(state, key) matches Some(t) ==> t.len() > 0 && '0' <= t[0] <= '9' && text::digits_value(t)
            is Some && text::digits_value(t)->0 <= usize::MAX ==> index_in(state, key, default)
            == text::digits_value(t)->0,
        json::text_field(state, key) matches Some(t) ==> text::digits_value(t) is None && t.len() > 0 && t[0] != '+'
            ==> index_in(state, key, default) == default,
{
}

/// A text that was put in is there, and no other field has changed.
pub proof fn law_text_that_was_put_is_there(state: Json, key: Seq<char>, value: Seq<char>, other: Seq<char>)
    ensures
        json::text_field(with_text(state, key, value), key) == Some(value),
        other != key ==> json::field(with_text(state, key, value), other) == json::field(state, other),
{
}

} // verus!
