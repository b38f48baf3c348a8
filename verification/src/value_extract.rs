//! Tile values as JSON documents, and the normalisation of the shapes Arches
//! stores them in: reference ids, URLs and language-tagged strings.

use vstd::prelude::*;
use crate::text::str_eq;

verus! {

/// A JSON document. Numbers keep their decimal text and whether they are
/// integral; objects keep their members in document order.
#[derive(Debug)]
pub enum JsonValue {
    Null,
    Bool(bool),
    Number { text: String, integral: bool },
    Str(String),
    Array(Vec<JsonValue>),
    Object(Vec<(String, JsonValue)>),
}

/// The first member of `fields` named `key`.
pub open spec fn field(fields: Seq<(String, JsonValue)>, key: Seq<char>) -> Option<JsonValue>
    decreases fields.len(),
{
    if fields.len() == 0 {
        None
    } else if fields[0].0@ == key {
        Some(fields[0].1)
    } else {
        field(fields.drop_first(), key)
    }
}

/// `v[key]`: the member `key` of an object, `None` for anything else.
pub open spec fn get(v: JsonValue, key: Seq<char>) -> Option<JsonValue> {
    match v {
        JsonValue::Object(fields) => field(fields@, key),
        _ => None,
    }
}

/// The text of a JSON string.
pub open spec fn as_str(v: JsonValue) -> Option<Seq<char>> {
    match v {
        JsonValue::Str(s) => Some(s@),
        _ => None,
    }
}

/// `get(key)` followed by `as_str`.
pub open spec fn str_member(v: JsonValue, key: Seq<char>) -> Option<Seq<char>> {
    match get(v, key) {
        Some(x) => as_str(x),
        None => None,
    }
}

/// The id of an object: the first of `resourceId`, `id`, `value` that is
/// present, if it is a string.
pub open spec fn id_from_object(v: JsonValue) -> Option<Seq<char>> {
    if get(v, "resourceId"@) is Some {
        str_member(v, "resourceId"@)
    } else if get(v, "id"@) is Some {
        str_member(v, "id"@)
    } else {
        str_member(v, "value"@)
    }
}

/// The id an array element contributes: itself if a string, else its
/// object id.
pub open spec fn element_id(v: JsonValue) -> Seq<Seq<char>> {
    match v {
        JsonValue::Str(s) => seq![s@],
        _ => match id_from_object(v) {
            Some(id) => seq![id],
            None => Seq::empty(),
        },
    }
}

/// The ids of the elements of an array, in order.
pub open spec fn array_ids(items: Seq<JsonValue>) -> Seq<Seq<char>>
    decreases items.len(),
{
    if items.len() == 0 {
        Seq::empty()
    } else {
        array_ids(items.drop_last()) + element_id(items.last())
    }
}

/// The reference ids a tile value holds.
pub open spec fn reference_ids(v: JsonValue) -> Seq<Seq<char>> {
    match v {
        JsonValue::Str(s) => if s@.len() > 0 { seq![s@] } else { Seq::empty() },
        JsonValue::Array(items) => array_ids(items@),
        JsonValue::Object(_) => match id_from_object(v) {
            Some(id) => seq![id],
            None => Seq::empty(),
        },
        _ => Seq::empty(),
    }
}

/// The URL a tile value holds.
pub open spec fn url_of(v: JsonValue) -> Option<Seq<char>> {
    match v {
        JsonValue::Str(s) => Some(s@),
        JsonValue::Object(_) => str_member(v, "url"@),
        _ => None,
    }
}

/// A language-tagged text.
pub type LangText = (Option<Seq<char>>, Seq<char>);

/// The text of one member of a language map: a string, or an object's
/// `value` string.
pub open spec fn lang_member_text(v: JsonValue) -> Option<Seq<char>> {
    match v {
        JsonValue::Str(s) => Some(s@),
        JsonValue::Object(_) => str_member(v, "value"@),
        _ => None,
    }
}

/// What one member of a language map contributes: its language and
/// non-empty text.
pub open spec fn lang_member(m: (String, JsonValue)) -> Seq<LangText> {
    match lang_member_text(m.1) {
        Some(t) => if t.len() > 0 { seq![(Some(m.0@), t)] } else { Seq::empty() },
        None => Seq::empty(),
    }
}

/// The texts of a language map, in member order.
pub open spec fn lang_members(fields: Seq<(String, JsonValue)>) -> Seq<LangText>
    decreases fields.len(),
{
    if fields.len() == 0 {
        Seq::empty()
    } else {
        lang_members(fields.drop_last()) + lang_member(fields.last())
    }
}

/// The language-tagged strings a tile value holds; a plain string has no
/// language.
pub open spec fn localized_strings(v: JsonValue) -> Seq<LangText> {
    match v {
        JsonValue::Str(s) => seq![(None, s@)],
        JsonValue::Object(fields) => lang_members(fields@),
        _ => Seq::empty(),
    }
}

/// The view of an extracted language-tagged string.
pub open spec fn lang_text_view(p: (Option<String>, String)) -> LangText {
    (
        match p.0 {
            Some(l) => Some(l@),
            None => None,
        },
        p.1@,
    )
}

/// Find the first member of `fields` named `key`.
pub fn find_field<'a>(fields: &'a Vec<(String, JsonValue)>, key: &str) -> (r: Option<&'a JsonValue>)
    ensures
        match r {
            Some(x) => field(fields@, key@) == Some(*x),
            None => field(fields@, key@) is None,
        },
{
    let mut i: usize = 0;
    assert(fields@.skip(0) =~= fields@);
    while i < fields.len()
        invariant
            i <= fields@.len(),
            field(fields@, key@) == field(fields@.skip(i as int), key@),
        decreases fields@.len() - i,
    {
        if str_eq(fields[i].0.as_str(), key) {
            return Some(&fields[i].1);
        }
        assert(fields@.skip(i as int).drop_first() =~= fields@.skip(i + 1));
        i = i + 1;
    }
    None
}

/// `value.get(key)`.
pub fn get_member<'a>(v: &'a JsonValue, key: &str) -> (r: Option<&'a JsonValue>)
    ensures
        match r {
            Some(x) => get(*v, key@) == Some(*x),
            None => get(*v, key@) is None,
        },
{
    match v {
        JsonValue::Object(fields) => find_field(fields, key),
        _ => None,
    }
}

/// `value.get(key).and_then(as_str)`, copied out.
fn get_str_member(v: &JsonValue, key: &str) -> (r: Option<String>)
    ensures
        match r {
            Some(s) => str_member(*v, key@) == Some(s@),
            None => str_member(*v, key@) is None,
        },
{
    match get_member(v, key) {
        Some(JsonValue::Str(s)) => Some(s.clone()),
        _ => None,
    }
}

/// Try to extract an id from a JSON object, checking `resourceId`, `id` and
/// `value` in that order.
fn extract_id_from_object(v: &JsonValue) -> (r: Option<String>)
    ensures
        match r {
            Some(s) => id_from_object(*v) == Some(s@),
            None => id_from_object(*v) is None,
        },
{
    if get_member(v, "resourceId").is_some() {
        get_str_member(v, "resourceId")
    } else if get_member(v, "id").is_some() {
        get_str_member(v, "id")
    } else {
        get_str_member(v, "value")
    }
}

/// Extract reference ids (concept, resource-instance, domain-value) from a
/// tile value: a plain non-empty string, an array of strings or objects, or
/// a single object with `resourceId`, `id` or `value`.
pub fn extract_reference_ids(value: &JsonValue) -> (r: Vec<String>)
    ensures
        r@.map_values(|s: String| s@) == reference_ids(*value),
{
    let mut out: Vec<String> = Vec::new();
    match value {
        JsonValue::Str(s) => {
            if !s.as_str().is_empty() {
                out.push(s.clone());
            }
        },
        JsonValue::Array(items) => {
            let mut i: usize = 0;
            while i < items.len()
                invariant
                    i <= items@.len(),
                    out@.map_values(|s: String| s@) == array_ids(items@.take(i as int)),
                decreases items@.len() - i,
            {
                let item = &items[i];
                let ghost before = out@;
                match item {
                    JsonValue::Str(s) => {
                        out.push(s.clone());
                    },
                    _ => {
                        if let Some(id) = extract_id_from_object(item) {
                            out.push(id);
                        }
                    },
                }
                proof {
                    assert(items@.take(i + 1).drop_last() =~= items@.take(i as int));
                    assert(items@.take(i + 1).last() == items@[i as int]);
                    assert(out@.map_values(|s: String| s@) =~= before.map_values(|s: String| s@)
                        + element_id(items@[i as int]));
                }
                i = i + 1;
            }
            assert(items@.take(items@.len() as int) =~= items@);
        },
        JsonValue::Object(_) => {
            if let Some(id) = extract_id_from_object(value) {
                out.push(id);
            }
        },
        _ => {},
    }
    proof {
        assert(out@.map_values(|s: String| s@) =~= reference_ids(*value));
    }
    out
}

/// Extract a URL from a tile value: a plain string, or an object's `url`.
pub fn extract_url(value: &JsonValue) -> (r: Option<String>)
    ensures
        match r {
            Some(s) => url_of(*value) == Some(s@),
            None => url_of(*value) is None,
        },
{
    match value {
        JsonValue::Str(s) => Some(s.clone()),
        JsonValue::Object(_) => get_str_member(value, "url"),
        _ => None,
    }
}

/// Extract `(language, text)` pairs from a tile value: a plain string has no
/// language; a language map gives each non-empty text, whether stored as a
/// string or as an object with `value`.
pub fn extract_localized_strings(value: &JsonValue) -> (r: Vec<(Option<String>, String)>)
    ensures
        r@.map_values(|p: (Option<String>, String)| lang_text_view(p)) == localized_strings(*value),
{
    let mut out: Vec<(Option<String>, String)> = Vec::new();
    match value {
        JsonValue::Str(s) => {
            out.push((None, s.clone()));
        },
        JsonValue::Object(fields) => {
            let mut i: usize = 0;
            while i < fields.len()
                invariant
                    i <= fields@.len(),
                    out@.map_values(|p: (Option<String>, String)| lang_text_view(p))
                        == lang_members(fields@.take(i as int)),
                decreases fields@.len() - i,
            {
                let lang = &fields[i].0;
                let lang_val = &fields[i].1;
                let ghost before = out@;
                let text: Option<String> = match lang_val {
                    JsonValue::Str(s) => Some(s.clone()),
                    JsonValue::Object(_) => get_str_member(lang_val, "value"),
                    _ => None,
                };
                if let Some(t) = text {
                    if !t.as_str().is_empty() {
                        out.push((Some(lang.clone()), t));
                    }
                }
                proof {
                    assert(fields@.take(i + 1).drop_last() =~= fields@.take(i as int));
                    assert(fields@.take(i + 1).last() == fields@[i as int]);
                    assert(out@.map_values(|p: (Option<String>, String)| lang_text_view(p))
                        =~= before.map_values(|p: (Option<String>, String)| lang_text_view(p))
                        + lang_member(fields@[i as int]));
                }
                i = i + 1;
            }
            assert(fields@.take(fields@.len() as int) =~= fields@);
        },
        _ => {},
    }
    proof {
        assert(out@.map_values(|p: (Option<String>, String)| lang_text_view(p))
            =~= localized_strings(*value));
    }
    out
}

// ---------------------------------------------------------------------------
// Reading JSON text
// ---------------------------------------------------------------------------

#[verifier::external_type_specification]
#[verifier::external_body]
pub struct ExSerdeJsonValue(serde_json::Value);

/// The document `serde_json` reads from a text, in the library's model, when
/// the text is well-formed JSON.
pub uninterp spec fn parsed_json(s: Seq<char>) -> Option<JsonValue>;

/// The library model of a document that `serde_json` has read: each variant
/// of `serde_json::Value` becomes the same variant here, numbers keeping
/// their decimal text and whether they are integers.
///
/// Nothing is stated of it; `parse_json` states its result as a whole.
#[verifier::external_body]
fn json_model(v: &serde_json::Value) -> JsonValue {
    match v {
        serde_json::Value::Null => JsonValue::Null,
        serde_json::Value::Bool(b) => JsonValue::Bool(*b),
        serde_json::Value::Number(n) => JsonValue::Number { text: n.to_string(), integral: n.is_i64() || n.is_u64() },
        serde_json::Value::String(s) => JsonValue::Str(s.clone()),
        serde_json::Value::Array(items) => JsonValue::Array(items.iter().map(json_model).collect()),
        serde_json::Value::Object(map) => JsonValue::Object(map.iter().map(|(k, v)| (k.clone(), json_model(v))).collect()),
    }
}

/// Read a JSON document.
///
/// Calls `serde_json::from_str` into a `serde_json::Value`: it succeeds
/// exactly on well-formed JSON, and the document it reads depends on the text
/// alone, named `parsed_json` here. On failure the message is serde_json's,
/// of which nothing is stated.
#[verifier::external_body]
pub(crate) fn parse_json(s: &str) -> (r: Result<JsonValue, String>)
    ensures
        r is Ok <==> parsed_json(s@) is Some,
        r matches Ok(v) ==> parsed_json(s@) == Some(v),
{
    match serde_json::from_str::<serde_json::Value>(s) {
        Ok(v) => Ok(json_model(&v)),
        Err(e) => Err(e.to_string()),
    }
}

/// Whether a string starts with `{`.
fn starts_with_brace(s: &str) -> (r: bool)
    ensures
        r == (s@.len() > 0 && s@[0] == '{'),
{
    let mut r = false;
    let mut first = true;
    let ghost mut n: int = 0;
    for c in it: s.chars()
        invariant
            it.seq() == s@,
            n == it.index(),
            first == (n == 0),
            r == (n > 0 && s@[0] == '{'),
    {
        proof {
            assert(s@[n] == c);
        }
        if first && c == '{' {
            r = true;
        }
        first = false;
        proof {
            n = n + 1;
        }
    }
    r
}

/// The plain text of a label: a label stored as a JSON object whose `value`
/// member is a string gives that string; any other label is kept as it is.
pub open spec fn label_text(raw: Seq<char>) -> Seq<char> {
    if raw.len() > 0 && raw[0] == '{' && parsed_json(raw) is Some && str_member(
        parsed_json(raw).unwrap(),
        "value"@,
    ) is Some {
        str_member(parsed_json(raw).unwrap(), "value"@).unwrap()
    } else {
        raw
    }
}

/// The plain text of a label, stored either as text or as a JSON object
/// `{"id": ..., "value": ...}`.
pub fn extract_label_text(raw: &str) -> (r: String)
    ensures
        r@ == label_text(raw@),
{
    if starts_with_brace(raw) {
        match parse_json(raw) {
            Ok(parsed) => {
                match get_member(&parsed, "value") {
                    Some(JsonValue::Str(inner)) => {
                        return inner.clone();
                    },
                    _ => {},
                }
            },
            Err(_) => {},
        }
    }
    raw.to_string()
}

} // verus!
