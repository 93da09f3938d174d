//! The JSON document model that the mushaf file is read into and the export
//! is written from.

use vstd::prelude::*;
use crate::text::chars_eq;
use crate::text::to_chars;

verus! {

/// A JSON value. A number keeps what `serde_json::Number::as_u64` gives
/// (`None` for negative and fractional numbers) and its text as serde_json
/// writes it; an object keeps its members as a list, in the order
/// `serde_json::Map` gives them when read. serde_json itself keeps an
/// object's members ordered by key, so when a document goes back to
/// serde_json the order of this list does not carry over.
#[derive(Debug)]
pub enum Json {
    Null,
    Bool(bool),
    Number(Option<u64>, String),
    Str(String),
    Array(Vec<Json>),
    Object(Vec<(String, Json)>),
}

/// The mathematical value of a `Json`: texts as character sequences.
pub enum JsonV {
    Null,
    Bool(bool),
    Number(Option<u64>, Seq<char>),
    Str(Seq<char>),
    Array(Seq<JsonV>),
    Object(Seq<(Seq<char>, JsonV)>),
}

/// The value of a `Json`.
pub open spec fn json_view(j: Json) -> JsonV
    decreases j,
{
    match j {
        Json::Null => JsonV::Null,
        Json::Bool(b) => JsonV::Bool(b),
        Json::Number(n, t) => JsonV::Number(n, t@),
        Json::Str(s) => JsonV::Str(s@),
        Json::Array(a) => JsonV::Array(
            Seq::new(
                a@.len(),
                |i: int|
                    if 0 <= i < a@.len() {
                        json_view(a@[i])
                    } else {
                        JsonV::Null
                    },
            ),
        ),
        Json::Object(m) => JsonV::Object(
            Seq::new(
                m@.len(),
                |i: int|
                    if 0 <= i < m@.len() {
                        (m@[i].0@, json_view(m@[i].1))
                    } else {
                        (Seq::empty(), JsonV::Null)
                    },
            ),
        ),
    }
}

impl View for Json {
    type V = JsonV;

    open spec fn view(&self) -> JsonV {
        json_view(*self)
    }
}

/// The values of the elements of an array.
pub open spec fn elements_view(a: Seq<Json>) -> Seq<JsonV> {
    a.map_values(|x: Json| x@)
}

/// The values of the members of an object.
pub open spec fn members_view(m: Seq<(String, Json)>) -> Seq<(Seq<char>, JsonV)> {
    m.map_values(|p: (String, Json)| (p.0@, p.1@))
}

/// The value of an array is the values of its elements.
pub proof fn lemma_array_view(a: Vec<Json>)
    ensures
        Json::Array(a)@ == JsonV::Array(elements_view(a@)),
{
    let v = json_view(Json::Array(a));
    if let JsonV::Array(s) = v {
        assert forall|i: int| 0 <= i < a@.len() implies s[i] == elements_view(a@)[i] by {
            assert(s[i] == json_view(a@[i]));
        }
        assert(s =~= elements_view(a@));
    }
}

/// The value of an object is the values of its members.
pub proof fn lemma_object_view(m: Vec<(String, Json)>)
    ensures
        Json::Object(m)@ == JsonV::Object(members_view(m@)),
{
    let v = json_view(Json::Object(m));
    if let JsonV::Object(s) = v {
        assert forall|i: int| 0 <= i < m@.len() implies s[i] == members_view(m@)[i] by {
            assert(s[i] == (m@[i].0@, json_view(m@[i].1)));
        }
        assert(s =~= members_view(m@));
    }
}

/// No two members have the same key.
pub open spec fn distinct_keys(m: Seq<(Seq<char>, JsonV)>) -> bool {
    forall|i: int, j: int| 0 <= i < j < m.len() ==> m[i].0 != m[j].0
}

#[verifier::external_type_specification]
#[verifier::external_body]
pub struct ExValue(serde_json::Value);

/// What `serde_json::from_str::<serde_json::Value>` makes of a text, as a
/// value: `None` where serde_json reports an error.
pub uninterp spec fn json_parse(text: Seq<char>) -> Option<JsonV>;

/// Converts a `serde_json::Value` into this library's model, variant by
/// variant; nothing is claimed of it.
#[verifier::external_body]
fn json_from_value(v: serde_json::Value) -> Json {
    match v {
        serde_json::Value::Null => Json::Null,
        serde_json::Value::Bool(b) => Json::Bool(b),
        serde_json::Value::Number(n) => Json::Number(n.as_u64(), n.to_string()),
        serde_json::Value::String(s) => Json::Str(s),
        serde_json::Value::Array(a) => Json::Array(a.into_iter().map(json_from_value).collect()),
        serde_json::Value::Object(m) => Json::Object(
            m.into_iter().map(|(k, x)| (k, json_from_value(x))).collect(),
        ),
    }
}

/// Calls `serde_json::from_str::<serde_json::Value>` on `text`. Claimed: the
/// value of the result is the named parse of `text`, `None` on a serde_json
/// error (parsing is a function of the text alone); and an object at the top
/// holds each key once, as the `serde_json::Map` it comes from does.
#[verifier::external_body]
pub(crate) fn parse_json(text: &str) -> (res: Option<Json>)
    ensures
        match res {
            Some(j) => json_parse(text@) == Some(j@),
            None => json_parse(text@) is None,
        },
        match res {
            Some(j) => j@ matches JsonV::Object(m) ==> distinct_keys(m),
            None => true,
        },
{
    serde_json::from_str::<serde_json::Value>(text).ok().map(json_from_value)
}

/// What `serde_json::to_string_pretty` writes for the serde_json value that
/// `doc` stands for; `None` where serde_json reports an error.
pub uninterp spec fn json_pretty(doc: JsonV) -> Option<Seq<char>>;

/// Converts this library's model back into a `serde_json::Value`, variant by
/// variant (a number from its text); `None` when a number's text is not a
/// JSON number. Nothing is claimed of it.
#[verifier::external_body]
fn value_from_json(j: &Json) -> Option<serde_json::Value> {
    Some(match j {
        Json::Null => serde_json::Value::Null,
        Json::Bool(b) => serde_json::Value::Bool(*b),
        Json::Number(_, t) => serde_json::Value::Number(serde_json::from_str(t).ok()?),
        Json::Str(s) => serde_json::Value::String(s.clone()),
        Json::Array(a) => serde_json::Value::Array(a.iter().map(value_from_json).collect::<Option<_>>()?),
        Json::Object(m) => serde_json::Value::Object(
            m.iter().map(|(k, x)| Some((k.clone(), value_from_json(x)?))).collect::<Option<_>>()?,
        ),
    })
}

/// Calls `serde_json::to_string_pretty` on the serde_json value that `doc`
/// stands for. Claimed: the text is the named pretty writing of `doc`'s
/// value, `None` where serde_json reports an error; writing is a function
/// of the value alone.
#[verifier::external_body]
pub(crate) fn to_pretty_json(doc: &Json) -> (text: Option<String>)
    ensures
        match text {
            Some(t) => json_pretty(doc@) == Some(t@),
            None => json_pretty(doc@) is None,
        },
{
    value_from_json(doc).and_then(|v| serde_json::to_string_pretty(&v).ok())
}

/// The value of the first member of `members` whose key is `key`.
pub open spec fn member(members: Seq<(Seq<char>, JsonV)>, key: Seq<char>) -> Option<JsonV>
    decreases members.len(),
{
    if members.len() == 0 {
        None
    } else if members[0].0 == key {
        Some(members[0].1)
    } else {
        member(members.drop_first(), key)
    }
}

/// The number that `value[key].as_u64()` gives in serde_json: the member
/// `key` of an object when it is an unsigned integer, `None` otherwise.
pub open spec fn field_u64(value: JsonV, key: Seq<char>) -> Option<u64> {
    match value {
        JsonV::Object(members) => match member(members, key) {
            Some(JsonV::Number(n, _)) => n,
            _ => None,
        },
        _ => None,
    }
}

/// The value of the first member of `members` whose key is `key`.
pub fn find_member<'a>(members: &'a Vec<(String, Json)>, key: &Vec<char>) -> (res: Option<&'a Json>)
    ensures
        match res {
            Some(v) => member(members_view(members@), key@) == Some(v@),
            None => member(members_view(members@), key@) is None,
        },
{
    let n: usize = members.len();
    let ghost mv = members_view(members@);
    assert(mv.skip(0) == mv);
    for i in 0..n
        invariant
            n == members@.len(),
            mv == members_view(members@),
            member(mv, key@) == member(mv.skip(i as int), key@),
    {
        let name = to_chars(members[i].0.as_str());
        assert(mv.skip(i as int).drop_first() == mv.skip(i + 1));
        assert(mv.skip(i as int)[0] == (members@[i as int].0@, members@[i as int].1@));
        if chars_eq(&name, key) {
            return Some(&members[i].1);
        }
    }
    None
}

/// `value[key].as_u64()`.
pub fn get_field_u64(value: &Json, key: &Vec<char>) -> (res: Option<u64>)
    ensures
        res == field_u64(value@, key@),
{
    match value {
        Json::Object(members) => {
            proof {
                lemma_object_view(*members);
            }
            match find_member(members, key) {
                Some(Json::Number(n, _)) => *n,
                _ => None,
            }
        },
        _ => None,
    }
}

} // verus!
