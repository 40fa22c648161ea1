//! JSON objects of `serde_json`, as far as this crate builds and writes them:
//! objects whose values are strings or objects of the same kind.
use vstd::prelude::*;

verus! {

#[verifier::external_type_specification]
#[verifier::external_body]
#[verifier::reject_recursive_types(K)]
#[verifier::reject_recursive_types(V)]
pub struct ExJsonMap<K, V>(serde_json::Map<K, V>);

#[verifier::external_type_specification]
#[verifier::external_body]
pub struct ExJsonValue(serde_json::Value);

#[verifier::external_type_specification]
#[verifier::external_body]
pub struct ExJsonError(serde_json::Error);

/// A JSON object of `serde_json` whose keys are strings.
pub type JsonObject = serde_json::Map<String, serde_json::Value>;

/// A JSON value that is a string or an object of such values.
pub enum JsonValue {
    Str(Seq<char>),
    Obj(Map<Seq<char>, JsonValue>),
}

/// An object whose values are all strings.
pub open spec fn string_object(m: Map<Seq<char>, Seq<char>>) -> Map<Seq<char>, JsonValue> {
    m.map_values(|v: Seq<char>| JsonValue::Str(v))
}

/// The object without entries.
pub open spec fn empty_object() -> Map<Seq<char>, JsonValue> {
    Map::empty()
}

/// The entries of a JSON object of `serde_json`.
pub uninterp spec fn json_object_entries(m: JsonObject) -> Map<
    Seq<char>,
    JsonValue,
>;

/// The compact text that `serde_json::to_string` writes for a value, or `None`
/// where it reports an error. A `serde_json` object keeps its keys ordered, so
/// the text depends on the entries alone.
pub uninterp spec fn json_text(v: JsonValue) -> Option<Seq<char>>;

/// The quoted and escaped JSON text that `serde_json::to_string` writes for a
/// string, or `None` where it reports an error.
pub uninterp spec fn json_string_text(s: Seq<char>) -> Option<Seq<char>>;

/// Calls `serde_json::Map::new`: an object without entries.
#[verifier::external_body]
pub(crate) fn json_object_new() -> (obj: JsonObject)
    ensures
        json_object_entries(obj) == empty_object(),
{
    serde_json::Map::new()
}

/// Calls `serde_json::Map::insert` with a string value: the key now maps to
/// the string, whatever it mapped to before, and no other entry changes.
#[verifier::external_body]
pub(crate) fn json_object_insert_string(
    m: &mut JsonObject,
    key: String,
    value: String,
)
    ensures
        json_object_entries(*final(m)) == json_object_entries(*old(m)).insert(
            key@,
            JsonValue::Str(value@),
        ),
{
    m.insert(key, serde_json::Value::String(value));
}

/// Calls `serde_json::Map::insert` with an object value: the key now maps to
/// that object, whatever it mapped to before, and no other entry changes.
#[verifier::external_body]
pub(crate) fn json_object_insert_object(
    m: &mut JsonObject,
    key: String,
    value: JsonObject,
)
    ensures
        json_object_entries(*final(m)) == json_object_entries(*old(m)).insert(
            key@,
            JsonValue::Obj(json_object_entries(value)),
        ),
{
    m.insert(key, serde_json::Value::Object(value));
}

/// Calls `serde_json::to_string` on an object: the text is named `json_text`
/// and depends on the entries of the object. As `serde_json` documents,
/// serializing fails only where a `Serialize` impl decides to fail or a map
/// has keys that are no strings; neither happens for a map of `String` keys
/// and `Value`s, so it succeeds.
#[verifier::external_body]
pub(crate) fn json_object_to_string(m: &JsonObject) -> (r: Result<
    String,
    serde_json::Error,
>)
    ensures
        r is Ok,
        match r {
            Ok(s) => json_text(JsonValue::Obj(json_object_entries(*m))) == Some(s@),
            Err(_) => json_text(JsonValue::Obj(json_object_entries(*m))) is None,
        },
{
    serde_json::to_string(m)
}

/// Calls `serde_json::to_string` on a string: the quoted text is named
/// `json_string_text`. Serializing a `String` does not fail.
#[verifier::external_body]
pub(crate) fn json_string_to_string(s: &String) -> (r: Result<String, serde_json::Error>)
    ensures
        r is Ok,
        match r {
            Ok(t) => json_string_text(s@) == Some(t@),
            Err(_) => json_string_text(s@) is None,
        },
{
    serde_json::to_string(s)
}


/// The entries of the JSON object that `text` holds, in the object's order
/// (by key), each value as a string where it is one; `None` where `text` is
/// no JSON or no object.
pub uninterp spec fn json_object_text_entries(text: Seq<char>) -> Option<
    Seq<(Seq<char>, Option<Seq<char>>)>,
>;

/// The views of a list of entries.
pub open spec fn text_entries_view(v: Seq<(String, Option<String>)>) -> Seq<
    (Seq<char>, Option<Seq<char>>),
> {
    v.map_values(
        |e: (String, Option<String>)|
            (
                e.0@,
                match e.1 {
                    Some(s) => Some(s@),
                    None => None,
                },
            ),
    )
}

/// Parses `text` with `serde_json::from_str` into a `serde_json::Value` and,
/// if it is an object, lists its entries with `serde_json::Map::iter`, each
/// value read with `Value::as_str`. The result is named
/// `json_object_text_entries`.
#[verifier::external_body]
pub(crate) fn parse_object_entries(text: &str) -> (r: Option<Vec<(String, Option<String>)>>)
    ensures
        match r {
            Some(v) => json_object_text_entries(text@) == Some(text_entries_view(v@)),
            None => json_object_text_entries(text@) is None,
        },
{
    let value: serde_json::Value = serde_json::from_str(text).ok()?;
    value.as_object().map(
        |o| o.iter().map(|(k, v)| (k.clone(), v.as_str().map(|s| s.to_string()))).collect(),
    )
}

/// The records of the JSON array that `text` holds: for each element, its
/// `tag` member as an `i64` and its `name` member as a string, where they are
/// such; `None` where `text` is no JSON array.
pub uninterp spec fn json_tag_records(text: Seq<char>) -> Option<Seq<(Option<i64>, Option<Seq<char>>)>>;

/// The views of a list of records.
pub open spec fn records_view(v: Seq<(Option<i64>, Option<String>)>) -> Seq<
    (Option<i64>, Option<Seq<char>>),
> {
    v.map_values(
        |e: (Option<i64>, Option<String>)|
            (
                e.0,
                match e.1 {
                    Some(s) => Some(s@),
                    None => None,
                },
            ),
    )
}

/// Parses `text` with `serde_json::from_str` into a `Vec<serde_json::Value>`
/// and reads, for each element, `element["tag"]` with `Value::as_i64` and
/// `element["name"]` with `Value::as_str`. The result is named
/// `json_tag_records`.
#[verifier::external_body]
pub(crate) fn parse_tag_records(text: &str) -> (r: Option<Vec<(Option<i64>, Option<String>)>>)
    ensures
        match r {
            Some(v) => json_tag_records(text@) == Some(records_view(v@)),
            None => json_tag_records(text@) is None,
        },
{
    let values: Vec<serde_json::Value> = serde_json::from_str(text).ok()?;
    Some(
        values.iter().map(|e| (e["tag"].as_i64(), e["name"].as_str().map(|s| s.to_string()))).collect(),
    )
}

/// What `text`, read as JSON, holds at `[section][name]`: `None` where
/// `text` is no JSON, else that member as a string, or `None` inside where it
/// is missing or no string.
pub uninterp spec fn json_section_member(text: Seq<char>, section: Seq<char>, name: Seq<char>) -> Option<
    Option<Seq<char>>,
>;

/// Parses `text` with `serde_json::from_str` into a `serde_json::Value` and
/// reads `value[section][name]` with `Value::as_str` (indexing a value that
/// is no object, or lacks the key, gives `Null`). The result is named
/// `json_section_member`.
#[verifier::external_body]
pub(crate) fn parse_section_member(text: &str, section: &str, name: &str) -> (r: Option<
    Option<String>,
>)
    ensures
        match r {
            None => json_section_member(text@, section@, name@) is None,
            Some(None) => json_section_member(text@, section@, name@) == Some(None::<Seq<char>>),
            Some(Some(s)) => json_section_member(text@, section@, name@) == Some(Some(s@)),
        },
{
    let value: serde_json::Value = serde_json::from_str(text).ok()?;
    Some(value[section][name].as_str().map(|s| s.to_string()))
}

/// The members of the JSON object that `text` holds, in the object's order
/// (by key): each key, its value as a string where it is one, and its value
/// written back as compact JSON text; `None` where `text` is no JSON object.
pub uninterp spec fn json_object_members(text: Seq<char>) -> Option<
    Seq<(Seq<char>, Option<Seq<char>>, Seq<char>)>,
>;

/// The views of a list of members.
pub open spec fn members_view(v: Seq<(String, Option<String>, String)>) -> Seq<
    (Seq<char>, Option<Seq<char>>, Seq<char>),
> {
    v.map_values(
        |m: (String, Option<String>, String)|
            (
                m.0@,
                match m.1 {
                    Some(s) => Some(s@),
                    None => None,
                },
                m.2@,
            ),
    )
}

/// Parses `text` with `serde_json::from_str` into a `serde_json::Value` and,
/// if it is an object, lists its members with `serde_json::Map::iter`: the
/// key, `Value::as_str` of the value, and the value's `to_string` (its
/// compact JSON text). The result is named `json_object_members`.
#[verifier::external_body]
pub(crate) fn parse_object_members(text: &str) -> (r: Option<Vec<(String, Option<String>, String)>>)
    ensures
        match r {
            Some(v) => json_object_members(text@) == Some(members_view(v@)),
            None => json_object_members(text@) is None,
        },
{
    let value: serde_json::Value = serde_json::from_str(text).ok()?;
    Some(
        value.as_object()?.iter().map(|(k, v)| (k.clone(), v.as_str().map(|s| s.to_string()), v.to_string())).collect(),
    )
}

/// The elements of the JSON array that `text` holds, each written back as
/// compact JSON text; `None` where `text` is no JSON array.
pub uninterp spec fn json_array_elements(text: Seq<char>) -> Option<Seq<Seq<char>>>;

/// The texts of a list of strings.
pub open spec fn string_texts(v: Seq<String>) -> Seq<Seq<char>> {
    v.map_values(|s: String| s@)
}

/// Parses `text` with `serde_json::from_str` into a `serde_json::Value` and,
/// if it is an array, writes each element back with `to_string`. The result
/// is named `json_array_elements`.
#[verifier::external_body]
pub(crate) fn parse_array_elements(text: &str) -> (r: Option<Vec<String>>)
    ensures
        match r {
            Some(v) => json_array_elements(text@) == Some(string_texts(v@)),
            None => json_array_elements(text@) is None,
        },
{
    let value: serde_json::Value = serde_json::from_str(text).ok()?;
    Some(value.as_array()?.iter().map(|e| e.to_string()).collect())
}

} // verus!
