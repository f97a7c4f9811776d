//! JSON values, of `serde_json`.
use serde_json::Value as Json;
use vstd::prelude::*;

verus! {

/// Declares `serde_json::Value`, a JSON value.
#[verifier::external_type_specification]
#[verifier::external_body]
pub struct ExJson(Json);

/// Declares `serde_json::Map`, the members of a JSON object.
#[verifier::external_type_specification]
#[verifier::external_body]
#[verifier::reject_recursive_types(K)]
#[verifier::reject_recursive_types(V)]
pub struct ExMembers<K, V>(serde_json::Map<K, V>);

/// What a `serde_json::Map` holds.
pub uninterp spec fn members(m: serde_json::Map<String, Json>) -> Map<Seq<char>, Json>;

/// The members of a JSON value that is an object, as `Value::as_object` gives
/// them.
pub uninterp spec fn fields(v: Json) -> Option<Map<Seq<char>, Json>>;

/// The text of a JSON value that is a string, as `Value::as_str` gives it.
pub uninterp spec fn string_in(v: Json) -> Option<Seq<char>>;

/// A JSON value written out, as its `Display` does it.
pub uninterp spec fn json_text(v: Json) -> Seq<char>;

/// Wraps `serde_json::Map::new`: it holds nothing.
#[verifier::external_body]
pub(crate) fn no_members() -> (out: serde_json::Map<String, Json>)
    ensures
        forall|k: Seq<char>| !(#[trigger] members(out).contains_key(k)),
{
    serde_json::Map::new()
}

/// Wraps `serde_json::Map::insert`: the value stands under the key then, in
/// place of any that stood there.
#[verifier::external_body]
pub(crate) fn insert_member(m: &mut serde_json::Map<String, Json>, key: String, value: Json)
    ensures
        members(*final(m)) == members(*old(m)).insert(key@, value),
{
    m.insert(key, value);
}

/// Wraps `Value::String`: the value is a string of that text.
#[verifier::external_body]
pub(crate) fn string_value(s: String) -> (v: Json)
    ensures
        string_in(v) == Some(s@),
{
    Json::String(s)
}

/// Wraps `Value::Object`: the value is an object of those members.
#[verifier::external_body]
pub(crate) fn object_value(m: serde_json::Map<String, Json>) -> (v: Json)
    ensures
        fields(v) == Some(members(m)),
{
    Json::Object(m)
}

/// Wraps `Value::to_string`: how a value is written out is a matter of the
/// value alone.
#[verifier::external_body]
pub(crate) fn write_value(v: &Json) -> (s: String)
    ensures
        s@ == json_text(*v),
{
    v.to_string()
}

/// The number of 64 bits without a sign that a JSON value is, as
/// `Value::as_u64` gives it.
pub uninterp spec fn unsigned_in(v: Json) -> Option<u64>;

/// Wraps `Value::get` by a key: the member of an object under the key.
#[verifier::external_body]
pub(crate) fn member<'a>(v: &'a Json, key: &str) -> (r: Option<&'a Json>)
    ensures
        match r {
            Some(m) => fields(*v) matches Some(f) && f.contains_key(key@) && f[key@] == *m,
            None => fields(*v) matches Some(f) ==> !f.contains_key(key@),
        },
{
    v.get(key)
}

/// Wraps `Value::as_str`.
#[verifier::external_body]
pub(crate) fn as_string<'a>(v: &'a Json) -> (r: Option<&'a str>)
    ensures
        match r {
            Some(s) => string_in(*v) == Some(s@),
            None => string_in(*v) is None,
        },
{
    v.as_str()
}

/// Wraps `Value::as_u64`.
#[verifier::external_body]
pub(crate) fn as_unsigned(v: &Json) -> (r: Option<u64>)
    ensures
        r == unsigned_in(*v),
{
    v.as_u64()
}

/// The text under a key of a JSON object.
pub open spec fn string_under(v: Json, key: Seq<char>) -> Option<Seq<char>> {
    match fields(v) {
        Some(f) => if f.contains_key(key) {
            string_in(f[key])
        } else {
            None
        },
        None => None,
    }
}

/// The text under a key of a JSON object.
pub fn string_member<'a>(v: &'a Json, key: &str) -> (r: Option<&'a str>)
    ensures
        match r {
            Some(s) => string_under(*v, key@) == Some(s@),
            None => string_under(*v, key@) is None,
        },
{
    match member(v, key) {
        Some(m) => as_string(m),
        None => None,
    }
}

} // verus!
