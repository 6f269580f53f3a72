//! JSON documents: the parse (by `serde_json`) into a plain value, and the members that the
//! assignment files and the model replies are read from.
use vstd::prelude::*;

use crate::labeling::{AssignmentDoc, AssignmentEntry};
use crate::manifest::opt_view;
use crate::vision::{clean_reply, cleaned_reply};

verus! {

#[verifier::external_type_specification]
#[verifier::external_body]
pub struct ExJsonValue(serde_json::Value);

/// A JSON value. A number is kept as the text `serde_json` writes for it; an object's members
/// are kept in the order the parser holds them, each name once.
#[derive(Debug)]
pub enum JsonValue {
    Null,
    Bool(bool),
    Number(String),
    Str(String),
    Array(Vec<JsonValue>),
    Object(Vec<(String, JsonValue)>),
}

/// What `serde_json::from_str::<serde_json::Value>` gives for a text, as a `JsonValue`:
/// `None` where the text is not a JSON document.
pub uninterp spec fn json_of(text: Seq<char>) -> Option<JsonValue>;

/// Turns a parsed `serde_json::Value` into a `JsonValue`, variant for variant: numbers by
/// their `Display` text, arrays and objects member for member. Nothing is stated of it; the
/// contract of `parse_json` speaks of the whole.
#[verifier::external_body]
fn json_from_value(v: serde_json::Value) -> JsonValue {
    match v {
        serde_json::Value::Null => JsonValue::Null,
        serde_json::Value::Bool(b) => JsonValue::Bool(b),
        serde_json::Value::Number(n) => JsonValue::Number(n.to_string()),
        serde_json::Value::String(s) => JsonValue::Str(s),
        serde_json::Value::Array(a) => JsonValue::Array(a.into_iter().map(json_from_value).collect()),
        serde_json::Value::Object(m) => JsonValue::Object(
            m.into_iter().map(|(k, x)| (k, json_from_value(x))).collect(),
        ),
    }
}

/// Calls `serde_json::from_str::<serde_json::Value>`. Claimed: the result is the named
/// `json_of` of the text, a function of the text alone (`None` where it fails to parse).
#[verifier::external_body]
pub(crate) fn parse_json(text: &str) -> (r: Option<JsonValue>)
    ensures
        r == json_of(text@),
{
    serde_json::from_str::<serde_json::Value>(text).ok().map(json_from_value)
}

/// Index of the first member named `key`, from `from` on.
pub open spec fn member_index(m: Seq<(String, JsonValue)>, key: Seq<char>, from: int) -> Option<
    int,
>
    decreases m.len() - from,
{
    if from < 0 || from >= m.len() {
        None
    } else if m[from].0@ == key {
        Some(from)
    } else {
        member_index(m, key, from + 1)
    }
}

/// The member `key` of an object: `None` for a value that is no object or has no such member.
pub open spec fn member(v: JsonValue, key: Seq<char>) -> Option<JsonValue> {
    match v {
        JsonValue::Object(m) => match member_index(m@, key, 0) {
            Some(i) => Some(m@[i].1),
            None => None,
        },
        _ => None,
    }
}

/// The member `key` when it is a string.
pub open spec fn str_member(v: JsonValue, key: Seq<char>) -> Option<Seq<char>> {
    match member(v, key) {
        Some(JsonValue::Str(s)) => Some(s@),
        _ => None,
    }
}

/// The member `key` when it is a number: its text.
pub open spec fn number_member(v: JsonValue, key: Seq<char>) -> Option<Seq<char>> {
    match member(v, key) {
        Some(JsonValue::Number(s)) => Some(s@),
        _ => None,
    }
}

fn member_at(m: &Vec<(String, JsonValue)>, key: &String) -> (r: Option<usize>)
    ensures
        match r {
            Some(k) => k < m.len() && member_index(m@, key@, 0) == Some(k as int),
            None => member_index(m@, key@, 0) is None,
        },
{
    let mut k: usize = 0;
    while k < m.len()
        invariant
            k <= m.len(),
            member_index(m@, key@, 0) == member_index(m@, key@, k as int),
        decreases m.len() - k,
    {
        if m[k].0 == *key {
            return Some(k);
        }
        k = k + 1;
    }
    None
}

/// The member `key` of `v` when it is a string.
pub fn string_member(v: &JsonValue, key: &String) -> (r: Option<String>)
    ensures
        opt_view(r) == str_member(*v, key@),
{
    match v {
        JsonValue::Object(m) => match member_at(m, key) {
            Some(k) => match &m[k].1 {
                JsonValue::Str(s) => Some(s.clone()),
                _ => None,
            },
            None => None,
        },
        _ => None,
    }
}

/// The member `key` of `v` when it is a number: the number's text.
pub fn number_text_member(v: &JsonValue, key: &String) -> (r: Option<String>)
    ensures
        opt_view(r) == number_member(*v, key@),
{
    match v {
        JsonValue::Object(m) => match member_at(m, key) {
            Some(k) => match &m[k].1 {
                JsonValue::Number(s) => Some(s.clone()),
                _ => None,
            },
            None => None,
        },
        _ => None,
    }
}

/// `d` is the assignments document that the JSON value `v` holds: its `sequence` member when
/// that is a string; and, when `v` is an object, one entry per member, named by the member
/// and holding its `unicode` and `name` members where they are strings.
pub open spec fn is_assignment_doc(d: AssignmentDoc, v: JsonValue) -> bool {
    &&& opt_view(d.sequence) == str_member(v, "sequence"@)
    &&& match v {
        JsonValue::Object(m) => match d.entries {
            Some(e) => {
                &&& e.len() == m.len()
                &&& forall|i: int|
                    0 <= i < m.len() ==> {
                        &&& (#[trigger] e@[i]).id@ == m@[i].0@
                        &&& opt_view(e@[i].unicode) == str_member(m@[i].1, "unicode"@)
                        &&& opt_view(e@[i].name) == str_member(m@[i].1, "name"@)
                    }
            },
            None => false,
        },
        _ => d.entries is None,
    }
}

/// The assignments document held by a JSON value.
pub fn assignment_doc(v: &JsonValue) -> (d: AssignmentDoc)
    ensures
        is_assignment_doc(d, *v),
{
    let sequence = string_member(v, &String::from_str("sequence"));
    let entries = match v {
        JsonValue::Object(m) => {
            let unicode_key = String::from_str("unicode");
            let name_key = String::from_str("name");
            let mut e: Vec<AssignmentEntry> = Vec::new();
            let mut i: usize = 0;
            while i < m.len()
                invariant
                    i <= m.len(),
                    e.len() == i,
                    unicode_key@ == "unicode"@,
                    name_key@ == "name"@,
                    forall|k: int|
                        0 <= k < i ==> {
                            &&& (#[trigger] e@[k]).id@ == m@[k].0@
                            &&& opt_view(e@[k].unicode) == str_member(m@[k].1, "unicode"@)
                            &&& opt_view(e@[k].name) == str_member(m@[k].1, "name"@)
                        },
                decreases m.len() - i,
            {
                let entry = AssignmentEntry {
                    id: m[i].0.clone(),
                    unicode: string_member(&m[i].1, &unicode_key),
                    name: string_member(&m[i].1, &name_key),
                };
                e.push(entry);
                i = i + 1;
            }
            Some(e)
        },
        _ => None,
    };
    AssignmentDoc { sequence, entries }
}

/// Read an assignments file: `None` when the text is not JSON, else the document it holds.
pub fn read_assignments(text: &str) -> (r: Option<AssignmentDoc>)
    ensures
        match json_of(text@) {
            Some(v) => r matches Some(d) && is_assignment_doc(d, v),
            None => r is None,
        },
{
    match parse_json(text) {
        Some(v) => Some(assignment_doc(&v)),
        None => None,
    }
}

/// The JSON value of a model reply, once stripped of fences and surrounding space: `None`
/// when what is left is not JSON.
pub fn read_reply(reply: &str) -> (r: Option<JsonValue>)
    ensures
        r == json_of(cleaned_reply(reply@)),
{
    let cleaned = clean_reply(reply);
    parse_json(cleaned.as_str())
}

/// The `unicode` and `name` members of a reply, where they are strings.
pub fn reply_fields(v: &JsonValue) -> (r: (Option<String>, Option<String>))
    ensures
        opt_view(r.0) == str_member(*v, "unicode"@),
        opt_view(r.1) == str_member(*v, "name"@),
{
    (
        string_member(v, &String::from_str("unicode")),
        string_member(v, &String::from_str("name")),
    )
}

} // verus!
