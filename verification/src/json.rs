//! The JSON documents of the operator's responses.
//!
//! A response body is parsed by `serde_json` and converted, one
//! constructor for one, into the library's own tree [`JsonValue`], whose
//! ghost model is [`JsonV`].  What the parser returns for a given text is
//! deterministic — a function of the text alone — and is named by the
//! bodiless [`json_of`]; the one trusted parsing function is specified
//! against that name, and everything that walks the tree afterwards is
//! verified code.
//!
//! Numbers are carried as their decimal text: the verified callers decide
//! what numeric shapes they accept.

use vstd::prelude::*;
use crate::text::str_eq;

verus! {

/// Ghost model of a JSON document.
pub enum JsonV {
    Null,
    Bool(bool),
    Number(Seq<char>),
    Text(Seq<char>),
    Array(Seq<JsonV>),
    Object(Seq<MemberV>),
}

/// Ghost model of one object member.
pub struct MemberV {
    pub key: Seq<char>,
    pub value: JsonV,
}

/// A JSON document: the library's copy of what the parser returned.
/// Numbers are kept as the decimal text the parser would print for them.
pub enum JsonValue {
    Null,
    Bool(bool),
    Number(String),
    Text(String),
    Array(Vec<JsonValue>),
    Object(Vec<JsonMember>),
}

/// One key/value member of a JSON object.
pub struct JsonMember {
    pub key: String,
    pub value: JsonValue,
}

/// The ghost model of a [`JsonValue`].  The range tests keep the
/// recursion on elements of the vectors, where the tree shrinks;
/// `Seq::new` never evaluates its function out of range, so the
/// fallback values are unobservable.
pub open spec fn jv_of(v: JsonValue) -> JsonV
    decreases v,
    via jv_of_dec
{
    match v {
        JsonValue::Null => JsonV::Null,
        JsonValue::Bool(b) => JsonV::Bool(b),
        JsonValue::Number(t) => JsonV::Number(t@),
        JsonValue::Text(t) => JsonV::Text(t@),
        JsonValue::Array(a) => JsonV::Array(
            Seq::new(
                a@.len(),
                |i: int|
                    if 0 <= i < a@.len() {
                        jv_of(a@[i])
                    } else {
                        JsonV::Null
                    },
            ),
        ),
        JsonValue::Object(ms) => JsonV::Object(
            Seq::new(
                ms@.len(),
                |i: int|
                    if 0 <= i < ms@.len() {
                        MemberV { key: ms@[i].key@, value: jv_of(ms@[i].value) }
                    } else {
                        MemberV { key: Seq::empty(), value: JsonV::Null }
                    },
            ),
        ),
    }
}

#[via_fn]
proof fn jv_of_dec(v: JsonValue) {
    match v {
        JsonValue::Array(a) => {
            assert forall|i: int| 0 <= i < a@.len() implies decreases_to!(v => a@[i]) by {
                vstd::std_specs::vec::axiom_vec_index_decreases(a, i);
                assert(decreases_to!(v => a));
            }
        },
        JsonValue::Object(ms) => {
            assert forall|i: int| 0 <= i < ms@.len() implies decreases_to!(v => ms@[i].value) by {
                vstd::std_specs::vec::axiom_vec_index_decreases(ms, i);
                assert(decreases_to!(v => ms));
                assert(decreases_to!(ms@[i] => ms@[i].value));
            }
        },
        _ => {},
    }
}

impl DeepView for JsonValue {
    type V = JsonV;

    open spec fn deep_view(&self) -> JsonV {
        jv_of(*self)
    }
}

impl DeepView for JsonMember {
    type V = MemberV;

    open spec fn deep_view(&self) -> MemberV {
        MemberV { key: self.key@, value: jv_of(self.value) }
    }
}

/// What parsing a text as JSON yields: the document for well-formed
/// JSON, nothing otherwise.  Deterministic, so the result is a function
/// of the text; only [`parse_json`] is believed about its value.
pub uninterp spec fn json_of(s: Seq<char>) -> Option<JsonV>;

/// Relies on `serde_json::from_str::<serde_json::Value>` for parsing and
/// on [`json_tree`] for the conversion of the parsed document.
#[verifier::external_body]
pub(crate) fn parse_json(s: &str) -> (r: Option<JsonValue>)
    ensures
        r is Some <==> json_of(s@) is Some,
        r is Some ==> json_of(s@) == Some(r->Some_0.deep_view()),
{
    match serde_json::from_str::<serde_json::Value>(s) {
        Ok(v) => Some(json_tree(&v)),
        Err(_) => None,
    }
}

/// Relies on the public constructors of `serde_json::Value` and on the
/// `Display` of `serde_json::Number`: converts a parsed document to the
/// library's tree, one arm per constructor, moving fields only, numbers
/// as their decimal text.
#[verifier::external_body]
fn json_tree(v: &serde_json::Value) -> JsonValue {
    match v {
        serde_json::Value::Null => JsonValue::Null,
        serde_json::Value::Bool(b) => JsonValue::Bool(*b),
        serde_json::Value::Number(n) => JsonValue::Number(n.to_string()),
        serde_json::Value::String(s) => JsonValue::Text(s.clone()),
        serde_json::Value::Array(a) => JsonValue::Array(a.iter().map(json_tree).collect()),
        serde_json::Value::Object(o) => JsonValue::Object(
            o.iter().map(|(k, x)| JsonMember { key: k.clone(), value: json_tree(x) }).collect(),
        ),
    }
}

#[verifier::external_type_specification]
#[verifier::external_body]
pub struct ExValue(serde_json::Value);

// ---------------------------------------------------------------------------
// Verified readers over the tree
// ---------------------------------------------------------------------------

/// The first member of an object member list carrying a key.
pub open spec fn member_find(ms: Seq<MemberV>, key: Seq<char>) -> Option<JsonV>
    decreases ms.len(),
{
    if ms.len() == 0 {
        None
    } else if ms[0].key == key {
        Some(ms[0].value)
    } else {
        member_find(ms.drop_first(), key)
    }
}

/// The member of a JSON object under a key, absent when the value is no
/// object or has no such member.
pub open spec fn jv_get(j: JsonV, key: Seq<char>) -> Option<JsonV> {
    match j {
        JsonV::Object(ms) => member_find(ms, key),
        _ => None,
    }
}

/// `member_find` finds the first matching member.
proof fn lemma_member_find_at(ms: Seq<MemberV>, key: Seq<char>, i: int)
    requires
        0 <= i < ms.len(),
        ms[i].key == key,
        forall|j: int| 0 <= j < i ==> (#[trigger] ms[j].key) != key,
    ensures
        member_find(ms, key) == Some(ms[i].value),
    decreases i,
{
    if i > 0 {
        let t = ms.drop_first();
        assert(t[i - 1] == ms[i]);
        assert forall|j: int| 0 <= j < i - 1 implies (#[trigger] t[j].key) != key by {
            assert(t[j] == ms[j + 1]);
        }
        lemma_member_find_at(t, key, i - 1);
    }
}

/// `member_find` misses exactly when no member matches.
proof fn lemma_member_find_absent(ms: Seq<MemberV>, key: Seq<char>)
    requires
        forall|j: int| 0 <= j < ms.len() ==> (#[trigger] ms[j].key) != key,
    ensures
        member_find(ms, key) is None,
    decreases ms.len(),
{
    if ms.len() > 0 {
        let t = ms.drop_first();
        assert forall|j: int| 0 <= j < t.len() implies (#[trigger] t[j].key) != key by {
            assert(t[j] == ms[j + 1]);
        }
        lemma_member_find_absent(t, key);
    }
}

/// Looks a key up in a JSON object.
pub fn get_member<'a>(v: &'a JsonValue, key: &str) -> (r: Option<&'a JsonValue>)
    ensures
        r is Some <==> jv_get(v.deep_view(), key@) is Some,
        r is Some ==> jv_get(v.deep_view(), key@) == Some(r->Some_0.deep_view()),
{
    match v {
        JsonValue::Object(members) => {
            let ghost ms = v.deep_view()->Object_0;
            proof {
                assert(ms.len() == members@.len());
            }
            let n = members.len();
            let mut i: usize = 0;
            while i < n
                invariant
                    i <= n,
                    n == members@.len(),
                    v.deep_view() is Object,
                    ms == v.deep_view()->Object_0,
                    ms.len() == members@.len(),
                    forall|k: int|
                        0 <= k < ms.len() ==> (#[trigger] ms[k]) == (MemberV {
                            key: members@[k].key@,
                            value: jv_of(members@[k].value),
                        }),
                    forall|j: int| 0 <= j < i ==> (#[trigger] ms[j].key) != key@,
                decreases n - i,
            {
                proof {
                    assert(ms[i as int].key == members@[i as int].key@);
                }
                if str_eq(members[i].key.as_str(), key) {
                    proof {
                        lemma_member_find_at(ms, key@, i as int);
                        assert(ms[i as int].value == jv_of(members@[i as int].value));
                    }
                    return Some(&members[i].value);
                }
                i = i + 1;
            }
            proof {
                lemma_member_find_absent(ms, key@);
            }
            None
        },
        _ => None,
    }
}

/// The payload of a JSON string.
pub fn get_text<'a>(v: &'a JsonValue) -> (r: Option<&'a String>)
    ensures
        r is Some <==> v.deep_view() is Text,
        r is Some ==> v.deep_view() == JsonV::Text(r->Some_0@),
{
    match v {
        JsonValue::Text(t) => Some(t),
        _ => None,
    }
}

/// The decimal text of a JSON number.
pub fn get_number_text<'a>(v: &'a JsonValue) -> (r: Option<&'a String>)
    ensures
        r is Some <==> v.deep_view() is Number,
        r is Some ==> v.deep_view() == JsonV::Number(r->Some_0@),
{
    match v {
        JsonValue::Number(t) => Some(t),
        _ => None,
    }
}

/// The elements of a JSON array.
pub fn get_array<'a>(v: &'a JsonValue) -> (r: Option<&'a Vec<JsonValue>>)
    ensures
        r is Some <==> v.deep_view() is Array,
        r is Some ==> v.deep_view() == JsonV::Array(r->Some_0.deep_view()),
{
    match v {
        JsonValue::Array(a) => {
            proof {
                assert(v.deep_view()->Array_0 =~= a.deep_view());
            }
            Some(a)
        },
        _ => None,
    }
}

} // verus!
