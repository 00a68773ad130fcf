//! Reading the three formats from JSON and YAML, telling them apart, and writing
//! them back.
use vstd::prelude::*;
use crate::order::{
    differs_first_at, in_key_order, key_lt, lemma_in_key_order, lemma_key_lt_irreflexive, lt_at,
    same_entries, sorted_by_key, sorted_positions,
};
use crate::text::{ends_with, has_suffix};
use crate::types::{
    copy_note, entries_from, entry_view, file_view, has_key, lemma_entries_from_distinct, unique_keys,
    FileView,
    FormatJSWire, FormattedMessage, IntlFile, MessageMap, MessageView,
};
use std::collections::BTreeMap;

verus! {

#[verifier::external_type_specification]
#[verifier::external_body]
pub struct ExJsonError(serde_json::Error);

#[verifier::external_type_specification]
#[verifier::external_body]
pub struct ExYamlError(serde_yaml::Error);

#[verifier::external_type_specification]
#[verifier::external_body]
pub struct ExJsonValue(serde_json::Value);

/// Why a file could not be read.
#[derive(Debug)]
pub enum ParseError {
    Json(serde_json::Error),
    Yaml(serde_yaml::Error),
    UnknownFormat(&'static str),
}

/// The text of a `serde_json` error, as its `Display` writes it.
#[verifier::external_body]
fn json_error_text(e: &serde_json::Error) -> String {
    format!("{e}")
}

/// The text of a `serde_yaml` error, as its `Display` writes it.
#[verifier::external_body]
fn yaml_error_text(e: &serde_yaml::Error) -> String {
    format!("{e}")
}

impl ParseError {
    /// The message shown for the error: the kind of failure, then what the
    /// reader reported or the reason.
    pub fn describe(&self) -> (r: String)
        ensures
            match self {
                ParseError::Json(_) => "JSON parse error: "@.is_prefix_of(r@),
                ParseError::Yaml(_) => "YAML parse error: "@.is_prefix_of(r@),
                ParseError::UnknownFormat(s) => r@ == "Unknown format: "@ + s@,
            },
    {
        match self {
            ParseError::Json(e) => {
                let mut r = "JSON parse error: ".to_owned();
                r.append(json_error_text(e).as_str());
                r
            },
            ParseError::Yaml(e) => {
                let mut r = "YAML parse error: ".to_owned();
                r.append(yaml_error_text(e).as_str());
                r
            },
            ParseError::UnknownFormat(s) => {
                let mut r = "Unknown format: ".to_owned();
                r.append(s);
                r
            },
        }
    }
}

/// The refusal of a YAML document that is not a mapping.
pub const NOT_A_MAPPING: &'static str = "expected a YAML mapping at top level";

/// The refusal of a YAML mapping that is neither Rails nor Simple.
pub const NOT_RECOGNISED: &'static str = "YAML structure is not a recognised Rails or Simple format";

// ---------------------------------------------------------------------------
// What serde_json and serde_yaml read.

/// A JSON value when it is a string (`Some(Some(..))`) or null (`Some(None)`);
/// `None` for any other value.
pub type JsonScalar = Option<Option<Seq<char>>>;

/// A field of a JSON object: its name and its value.
pub type JsonField = (Seq<char>, JsonScalar);

/// The value of a member of the top-level JSON object: an object with its
/// fields, an array with its elements, or any other value.
pub enum JsonShape {
    Object(Seq<JsonField>),
    Array(Seq<JsonScalar>),
    Other,
}

/// A member of the top-level JSON object: its key and its value.
pub type JsonMember = (Seq<char>, JsonShape);

/// The members of the top-level object that `serde_json` reads from a text into
/// a `serde_json::Map`, in the map's order; `None` where the text is no JSON object.
pub uninterp spec fn json_members(text: Seq<char>) -> Option<Seq<JsonMember>>;

/// The entries that `serde_json` reads from a text into a `BTreeMap<String, String>`,
/// in the map's order; `None` where it reports an error.
pub uninterp spec fn json_strings(text: Seq<char>) -> Option<Seq<(Seq<char>, Seq<char>)>>;

/// A key and a value of a YAML mapping, each as a string where it is one.
pub type YamlPair = (Option<Seq<char>>, Option<Seq<char>>);

/// An entry of the top-level YAML mapping: its key and value as strings where
/// they are strings, and the value's own entries where the value is a mapping.
pub type YamlEntry = (Option<Seq<char>>, Option<Seq<char>>, Option<Seq<YamlPair>>);

/// The entries of the top-level mapping of the `serde_yaml::Value` read from a
/// text, in the mapping's order: `None` where `serde_yaml` reports an error,
/// `Some(None)` where the document is not a mapping.
pub uninterp spec fn yaml_document(text: Seq<char>) -> Option<Option<Seq<YamlEntry>>>;

/// The value of a member as read: an object's fields or an array's elements,
/// each a string, null or something else.
enum JsonRead {
    Object(Vec<(String, Option<Option<String>>)>),
    Array(Vec<Option<Option<String>>>),
    Other,
}

impl View for JsonRead {
    type V = JsonShape;

    closed spec fn view(&self) -> JsonShape {
        match self {
            JsonRead::Object(fs) => JsonShape::Object(fs.deep_view()),
            JsonRead::Array(xs) => JsonShape::Array(xs.deep_view()),
            JsonRead::Other => JsonShape::Other,
        }
    }
}

/// The members as read, as plain values.
spec fn read_members_view(v: Seq<(String, JsonRead)>) -> Seq<JsonMember> {
    v.map_values(|m: (String, JsonRead)| (m.0@, m.1@))
}

/// Calls `serde_json::from_str::<serde_json::Map<String, Value>>` and keeps, for
/// each member, its key and its value's shape: where it is an object, each
/// field's name and whether its value is a string, null or something else;
/// where it is an array, the same of each element.
#[verifier::external_body]
fn read_json_members(s: &str) -> (r: Option<Vec<(String, JsonRead)>>)
    ensures
        match r {
            Some(v) => json_members(s@) == Some(read_members_view(v@)),
            None => json_members(s@) is None,
        },
{
    let m: serde_json::Map<String, serde_json::Value> = serde_json::from_str(s).ok()?;
    Some(m.into_iter().map(|(k, v)| (k, json_shape(v))).collect())
}

/// Tells a member's value apart: an object, an array, or anything else.
#[verifier::external_body]
fn json_shape(v: serde_json::Value) -> JsonRead {
    match v {
        serde_json::Value::Object(o) => JsonRead::Object(o.into_iter().map(|(f, x)| (f, json_field(x))).collect()),
        serde_json::Value::Array(a) => JsonRead::Array(a.into_iter().map(json_field).collect()),
        _ => JsonRead::Other,
    }
}

/// Tells a JSON value's variants apart: a string, null, or anything else.
#[verifier::external_body]
fn json_field(x: serde_json::Value) -> Option<Option<String>> {
    match x {
        serde_json::Value::String(t) => Some(Some(t)),
        serde_json::Value::Null => Some(None),
        _ => None,
    }
}

/// Calls `serde_json::from_str::<BTreeMap<String, String>>`.
#[verifier::external_body]
fn read_json_strings(s: &str) -> (r: Result<Vec<(String, String)>, serde_json::Error>)
    ensures
        match r {
            Ok(v) => json_strings(s@) == Some(v.deep_view()),
            Err(_) => json_strings(s@) is None,
        },
{
    serde_json::from_str::<BTreeMap<String, String>>(s).map(|m| m.into_iter().collect())
}

/// Calls `serde_yaml::from_str::<serde_yaml::Value>` and keeps, where the value
/// is a mapping, each entry's key and value as strings (`Value::as_str`) and the
/// value's entries where it is a mapping itself (`Value::as_mapping`).
#[verifier::external_body]
fn read_yaml(s: &str) -> (r: Result<Option<Vec<(Option<String>, Option<String>, Option<Vec<(Option<String>, Option<String>)>>)>>, serde_yaml::Error>)
    ensures
        match r {
            Ok(v) => yaml_document(s@) == Some(v.deep_view()),
            Err(_) => yaml_document(s@) is None,
        },
{
    let root: serde_yaml::Value = serde_yaml::from_str(s)?;
    let text = |v: &serde_yaml::Value| v.as_str().map(String::from);
    let pairs = |m: &serde_yaml::Mapping| m.iter().map(|(a, b)| (text(a), text(b))).collect();
    Ok(root.as_mapping().map(|m| m.iter().map(|(k, v)| (text(k), text(v), v.as_mapping().map(pairs))).collect()))
}

// ---------------------------------------------------------------------------
// FormatJS.

/// The value of the last field named `name`, if any.
pub open spec fn field_value(fields: Seq<JsonField>, name: Seq<char>) -> Option<Option<Option<Seq<char>>>>
    decreases fields.len(),
{
    if fields.len() == 0 {
        None
    } else if fields.last().0 == name {
        Some(fields.last().1)
    } else {
        field_value(fields.drop_last(), name)
    }
}

/// The FormatJS descriptor held by an object's fields: `defaultMessage` must be a
/// string and becomes the text; `description`, where present, must be a string
/// or null and becomes the note.
pub open spec fn formatjs_message(fields: Seq<JsonField>) -> Option<MessageView> {
    match field_value(fields, "defaultMessage"@) {
        Some(Some(Some(text))) => match field_value(fields, "description"@) {
            None => Some((text, None)),
            Some(Some(note)) => Some((text, note)),
            Some(None) => None,
        },
        _ => None,
    }
}

/// The FormatJS descriptor written as an array, as `serde` reads a struct from a
/// sequence: exactly two elements, the default message (a string) and the
/// description (a string or null).
pub open spec fn formatjs_array_message(items: Seq<JsonScalar>) -> Option<MessageView> {
    if items.len() == 2 && items[0] is Some && items[0]->0 is Some && items[1] is Some {
        Some((items[0]->0->0, items[1]->0))
    } else {
        None
    }
}

/// The FormatJS descriptor that a member's value holds, as an object or an array.
pub open spec fn descriptor_of(v: JsonShape) -> Option<MessageView> {
    match v {
        JsonShape::Object(fields) => formatjs_message(fields),
        JsonShape::Array(items) => formatjs_array_message(items),
        JsonShape::Other => None,
    }
}

/// The messages of a JSON object all of whose members are FormatJS descriptors.
pub open spec fn formatjs_messages(members: Seq<JsonMember>) -> Option<Seq<(Seq<char>, MessageView)>>
    decreases members.len(),
{
    if members.len() == 0 {
        Some(Seq::empty())
    } else {
        match formatjs_messages(members.drop_last()) {
            Some(ms) => match descriptor_of(members.last().1) {
                Some(m) => Some(ms.push((members.last().0, m))),
                None => None,
            },
            None => None,
        }
    }
}

/// Flat string entries as messages without notes.
pub open spec fn simple_entries(kv: Seq<(Seq<char>, Seq<char>)>) -> Seq<(Seq<char>, MessageView)> {
    kv.map_values(|p: (Seq<char>, Seq<char>)| (p.0, (p.1, None::<Seq<char>>)))
}

/// What a JSON text reads as: FormatJS where every member of the object is a
/// FormatJS descriptor and there is at least one; otherwise Simple where it is a
/// flat string map; otherwise nothing (a JSON error).
pub open spec fn json_reading(text: Seq<char>) -> Option<FileView> {
    let formatjs = match json_members(text) {
        Some(ms) => formatjs_messages(ms),
        None => None,
    };
    if formatjs is Some && formatjs->0.len() > 0 {
        Some(FileView::FormatJS(entries_from(formatjs->0)))
    } else {
        match json_strings(text) {
            Some(kv) => Some(FileView::Simple(entries_from(simple_entries(kv)))),
            None => None,
        }
    }
}

/// The value of the last field named `name` (compared by characters).
fn find_field<'a>(fields: &'a Vec<(String, Option<Option<String>>)>, name: &str) -> (r: Option<&'a Option<Option<String>>>)
    ensures
        r.deep_view() == field_value(fields.deep_view(), name@),
{
    let key = name.to_owned();
    let mut i = fields.len();
    assert(fields.deep_view().take(i as int) =~= fields.deep_view());
    while i > 0
        invariant
            i <= fields@.len(),
            key@ == name@,
            field_value(fields.deep_view(), name@) == field_value(fields.deep_view().take(i as int), name@),
        decreases i,
    {
        proof {
            let d = fields.deep_view();
            assert(d.take(i as int).drop_last() =~= d.take(i - 1));
            assert(d.take(i as int).last() == d[i - 1]);
        }
        if fields[i - 1].0 == key {
            return Some(&fields[i - 1].1);
        }
        i -= 1;
    }
    None
}

/// The FormatJS message of an object's fields.
fn read_formatjs_message(fields: &Vec<(String, Option<Option<String>>)>) -> (r: Option<FormattedMessage>)
    ensures
        match r {
            Some(m) => formatjs_message(fields.deep_view()) == Some(m@),
            None => formatjs_message(fields.deep_view()) is None,
        },
{
    let text = match find_field(fields, "defaultMessage") {
        Some(Some(Some(t))) => t.clone(),
        _ => return None,
    };
    let note = match find_field(fields, "description") {
        None => None,
        Some(Some(d)) => crate::types::copy_note(d),
        Some(None) => return None,
    };
    Some(FormatJSWire { default_message: text, description: note }.into_message())
}

/// The FormatJS message of a member's value.
fn read_descriptor(v: &JsonRead) -> (r: Option<FormattedMessage>)
    ensures
        match r {
            Some(m) => descriptor_of(v@) == Some(m@),
            None => descriptor_of(v@) is None,
        },
{
    match v {
        JsonRead::Object(fields) => read_formatjs_message(fields),
        JsonRead::Array(items) => {
            if items.len() != 2 {
                return None;
            }
            assert(items.deep_view()[0] == items@[0].deep_view());
            assert(items.deep_view()[1] == items@[1].deep_view());
            match (&items[0], &items[1]) {
                (Some(Some(t)), Some(d)) => {
                    let note = crate::types::copy_note(d);
                    Some(FormatJSWire { default_message: t.clone(), description: note }.into_message())
                },
                _ => None,
            }
        },
        JsonRead::Other => None,
    }
}

/// The FormatJS messages of the members, where all of them are descriptors.
fn read_formatjs(members: &Vec<(String, JsonRead)>) -> (r: Option<Vec<(String, FormattedMessage)>>)
    ensures
        match r {
            Some(v) => formatjs_messages(read_members_view(members@)) == Some(
                v@.map_values(|e: (String, FormattedMessage)| entry_view(e)),
            ),
            None => formatjs_messages(read_members_view(members@)) is None,
        },
{
    let mut out: Vec<(String, FormattedMessage)> = Vec::new();
    let mut i: usize = 0;
    while i < members.len()
        invariant
            i <= members@.len(),
            formatjs_messages(read_members_view(members@).take(i as int)) == Some(
                out@.map_values(|e: (String, FormattedMessage)| entry_view(e)),
            ),
        decreases members.len() - i,
    {
        let ghost d = read_members_view(members@);
        proof {
            assert(d.take(i + 1).drop_last() =~= d.take(i as int));
            assert(d.take(i + 1).last() == d[i as int]);
            assert(d[i as int] == (members@[i as int].0@, members@[i as int].1@));
        }
        match read_descriptor(&members[i].1) {
            Some(m) => {
                let ghost before = out@;
                out.push((members[i].0.clone(), m));
                assert(out@.map_values(|e: (String, FormattedMessage)| entry_view(e)) =~= before.map_values(
                    |e: (String, FormattedMessage)| entry_view(e),
                ).push((d[i as int].0, m@)));
            },
            None => {
                proof {
                    lemma_formatjs_prefix_fails(d, i + 1);
                }
                return None;
            },
        }
        i += 1;
    }
    proof {
        assert(read_members_view(members@).take(members@.len() as int) =~= read_members_view(members@));
    }
    Some(out)
}

/// Once a prefix of the members fails to be FormatJS, so do all of them.
proof fn lemma_formatjs_prefix_fails(d: Seq<JsonMember>, n: int)
    requires
        0 <= n <= d.len(),
        formatjs_messages(d.take(n)) is None,
    ensures
        formatjs_messages(d) is None,
    decreases d.len() - n,
{
    if n < d.len() {
        assert(d.take(n + 1).drop_last() =~= d.take(n));
        lemma_formatjs_prefix_fails(d, n + 1);
    } else {
        assert(d.take(n) =~= d);
    }
}

/// Whether the result of a read is what a reading describes: the file for
/// `Some`, the given kind of error for `None`.
pub open spec fn json_outcome(r: Result<IntlFile, ParseError>, expected: Option<FileView>) -> bool {
    match expected {
        Some(fv) => r is Ok && file_view(r->Ok_0) == fv,
        None => r is Err && r->Err_0 is Json,
    }
}

/// Parses JSON: FormatJS where every value of the object is a message descriptor
/// (and there is one), otherwise a flat string map.
pub fn parse_json(s: &str) -> (r: Result<IntlFile, ParseError>)
    ensures
        json_outcome(r, json_reading(s@)),
{
    // Try FormatJS first: values are objects containing `defaultMessage`.
    let members = read_json_members(s);
    let formatjs = match &members {
        Some(ms) => read_formatjs(ms),
        None => None,
    };
    match formatjs {
        Some(entries) => {
            if entries.len() > 0 {
                return Ok(IntlFile::FormatJS(MessageMap::from_pairs(entries)));
            }
        },
        None => {},
    }
    // Fall back to a flat string map.
    match read_json_strings(s) {
        Ok(kv) => {
            let mut pairs: Vec<(String, FormattedMessage)> = Vec::new();
            let mut i: usize = 0;
            while i < kv.len()
                invariant
                    i <= kv@.len(),
                    pairs@.map_values(|e: (String, FormattedMessage)| entry_view(e)) == simple_entries(
                        kv.deep_view().take(i as int),
                    ),
                decreases kv.len() - i,
            {
                let ghost before = pairs@;
                let k = kv[i].0.clone();
                let v = kv[i].1.clone();
                pairs.push((k, FormattedMessage { text: v, note: None }));
                proof {
                    let d = kv.deep_view();
                    assert(d[i as int] == (k@, v@));
                    assert(d.take(i + 1) =~= d.take(i as int).push((k@, v@)));
                    assert(simple_entries(d.take(i + 1)) =~= simple_entries(d.take(i as int)).push(
                        (k@, (v@, None::<Seq<char>>)),
                    ));
                    assert(pairs@.map_values(|e: (String, FormattedMessage)| entry_view(e)) =~= before.map_values(
                        |e: (String, FormattedMessage)| entry_view(e),
                    ).push((k@, (v@, None::<Seq<char>>))));
                }
                i += 1;
            }
            proof {
                assert(kv.deep_view().take(kv@.len() as int) =~= kv.deep_view());
            }
            Ok(IntlFile::Simple(MessageMap::from_pairs(pairs)))
        },
        Err(e) => Err(ParseError::Json(e)),
    }
}

// ---------------------------------------------------------------------------
// YAML.

/// The entries of a mapping whose key and value are both strings, as messages
/// without notes.
pub open spec fn yaml_messages(pairs: Seq<YamlPair>) -> Seq<(Seq<char>, MessageView)>
    decreases pairs.len(),
{
    if pairs.len() == 0 {
        Seq::empty()
    } else {
        let rest = yaml_messages(pairs.drop_last());
        let p = pairs.last();
        if p.0 is Some && p.1 is Some {
            rest.push((p.0->0, (p.1->0, None)))
        } else {
            rest
        }
    }
}

/// Every value of the mapping is a string.
pub open spec fn all_string_values(pairs: Seq<YamlPair>) -> bool {
    forall|i: int| 0 <= i < pairs.len() ==> (#[trigger] pairs[i]).1 is Some
}

/// The keys and values of the top-level entries.
pub open spec fn top_pairs(es: Seq<YamlEntry>) -> Seq<YamlPair> {
    es.map_values(|e: YamlEntry| (e.0, e.1))
}

/// The Rails shape: one entry, whose key is a string and whose value is a
/// mapping of strings.
pub open spec fn is_rails(es: Seq<YamlEntry>) -> bool {
    &&& es.len() == 1
    &&& es[0].0 is Some
    &&& es[0].2 is Some
    &&& all_string_values(es[0].2->0)
}

/// The error is `UnknownFormat` with the given reason.
pub open spec fn unknown_format(e: ParseError, why: Seq<char>) -> bool {
    match e {
        ParseError::UnknownFormat(s) => s@ == why,
        _ => false,
    }
}

/// The file a YAML text reads as: Rails where the top-level mapping has the
/// Rails shape, Simple where all its values are strings; nothing otherwise.
pub open spec fn yaml_reading(text: Seq<char>) -> Option<FileView> {
    match yaml_document(text) {
        Some(Some(es)) => if is_rails(es) {
            Some(FileView::Rails(es[0].0->0, entries_from(yaml_messages(es[0].2->0))))
        } else if all_string_values(top_pairs(es)) {
            Some(FileView::Simple(entries_from(yaml_messages(top_pairs(es)))))
        } else {
            None
        },
        _ => None,
    }
}

/// What reading a YAML text gives: the file it reads as, or else a `Yaml` error
/// where `serde_yaml` fails, `UnknownFormat` where the document is not a
/// mapping, and `UnknownFormat` for a mapping of another shape.
pub open spec fn yaml_outcome(r: Result<IntlFile, ParseError>, text: Seq<char>) -> bool {
    match yaml_reading(text) {
        Some(fv) => r is Ok && file_view(r->Ok_0) == fv,
        None => r is Err && match yaml_document(text) {
            None => r->Err_0 is Yaml,
            Some(None) => unknown_format(r->Err_0, NOT_A_MAPPING@),
            Some(Some(_)) => unknown_format(r->Err_0, NOT_RECOGNISED@),
        },
    }
}

/// The messages of a YAML mapping: its entries whose key and value are both
/// strings, as messages without notes.
fn yaml_mapping_to_messages(m: &Vec<(Option<String>, Option<String>)>) -> (r: Vec<(String, FormattedMessage)>)
    ensures
        r@.map_values(|e: (String, FormattedMessage)| entry_view(e)) == yaml_messages(m.deep_view()),
{
    let mut out: Vec<(String, FormattedMessage)> = Vec::new();
    let mut i: usize = 0;
    while i < m.len()
        invariant
            i <= m@.len(),
            out@.map_values(|e: (String, FormattedMessage)| entry_view(e)) == yaml_messages(
                m.deep_view().take(i as int),
            ),
        decreases m.len() - i,
    {
        let ghost d = m.deep_view();
        proof {
            assert(d.take(i + 1).drop_last() =~= d.take(i as int));
            assert(d.take(i + 1).last() == d[i as int]);
        }
        match (&m[i].0, &m[i].1) {
            (Some(k), Some(v)) => {
                let ghost before = out@;
                let key = k.clone();
                let text = v.clone();
                out.push((key, FormattedMessage { text, note: None }));
                assert(out@.map_values(|e: (String, FormattedMessage)| entry_view(e)) =~= before.map_values(
                    |e: (String, FormattedMessage)| entry_view(e),
                ).push((key@, (text@, None::<Seq<char>>))));
            },
            _ => {},
        }
        i += 1;
    }
    proof {
        assert(m.deep_view().take(m@.len() as int) =~= m.deep_view());
    }
    out
}

/// Whether every value of the mapping is a string.
fn all_strings(m: &Vec<(Option<String>, Option<String>)>) -> (r: bool)
    ensures
        r == all_string_values(m.deep_view()),
{
    let mut i: usize = 0;
    while i < m.len()
        invariant
            i <= m@.len(),
            forall|j: int| 0 <= j < i ==> (#[trigger] m.deep_view()[j]).1 is Some,
        decreases m.len() - i,
    {
        if m[i].1.is_none() {
            assert(m.deep_view()[i as int].1 is None);
            return false;
        }
        i += 1;
    }
    true
}

/// The keys and values of the top-level entries, copied.
fn top_level_pairs(es: &Vec<(Option<String>, Option<String>, Option<Vec<(Option<String>, Option<String>)>>)>) -> (r: Vec<(Option<String>, Option<String>)>)
    ensures
        r.deep_view() == top_pairs(es.deep_view()),
{
    let mut out: Vec<(Option<String>, Option<String>)> = Vec::new();
    let mut i: usize = 0;
    while i < es.len()
        invariant
            i <= es@.len(),
            out.deep_view() =~= top_pairs(es.deep_view()).take(i as int),
        decreases es.len() - i,
    {
        let k = copy_note(&es[i].0);
        let v = copy_note(&es[i].1);
        let ghost before = out.deep_view();
        out.push((k, v));
        proof {
            let e = es.deep_view()[i as int];
            assert(e.0 == k.deep_view() && e.1 == v.deep_view());
            assert(out.deep_view() =~= before.push((k.deep_view(), v.deep_view())));
        }
        i += 1;
    }
    out
}

/// Parses YAML: Rails where the document is a mapping with one string key whose
/// value is a mapping of strings, otherwise Simple where all values are strings.
pub fn parse_yaml(s: &str) -> (r: Result<IntlFile, ParseError>)
    ensures
        yaml_outcome(r, s@),
{
    let root = match read_yaml(s) {
        Ok(root) => root,
        Err(e) => return Err(ParseError::Yaml(e)),
    };
    let mapping = match root {
        Some(m) => m,
        None => return Err(ParseError::UnknownFormat(NOT_A_MAPPING)),
    };
    // Rails format: exactly one top-level key whose value is a flat string map.
    if mapping.len() == 1 {
        match (&mapping[0].0, &mapping[0].2) {
            (Some(locale), Some(inner)) => {
                if all_strings(inner) {
                    let messages = yaml_mapping_to_messages(inner);
                    return Ok(IntlFile::Rails(locale.clone(), MessageMap::from_pairs(messages)));
                }
            },
            _ => {},
        }
    }
    // Plain flat string map.
    let top = top_level_pairs(&mapping);
    if all_strings(&top) {
        let messages = yaml_mapping_to_messages(&top);
        return Ok(IntlFile::Simple(MessageMap::from_pairs(messages)));
    }
    Err(ParseError::UnknownFormat(NOT_RECOGNISED))
}

/// Whether a file name has a YAML extension.
pub open spec fn is_yaml_name(filename: Seq<char>) -> bool {
    has_suffix(filename, ".yaml"@) || has_suffix(filename, ".yml"@)
}

/// The extension of a translated file: `yml` for a YAML input, `json` otherwise.
pub open spec fn output_extension_of(input: Seq<char>) -> Seq<char> {
    if is_yaml_name(input) {
        "yml"@
    } else {
        "json"@
    }
}

/// The name of the file written for a target language: its code and the
/// extension that the input's name calls for.
pub fn output_file_name(code: &str, input: &str) -> (r: String)
    ensures
        r@ == code@ + "."@ + output_extension_of(input@),
{
    let mut name = code.to_owned();
    name.append(".");
    if ends_with(input, ".yaml") || ends_with(input, ".yml") {
        name.append("yml");
    } else {
        name.append("json");
    }
    name
}

/// Detect the format from the file extension and parse accordingly.
pub fn parse_input(s: &str, filename: &str) -> (r: Result<IntlFile, ParseError>)
    ensures
        is_yaml_name(filename@) ==> yaml_outcome(r, s@),
        !is_yaml_name(filename@) ==> json_outcome(r, json_reading(s@)),
{
    if ends_with(filename, ".yaml") || ends_with(filename, ".yml") {
        parse_yaml(s)
    } else {
        parse_json(s)
    }
}

// ---------------------------------------------------------------------------
// Writing.

/// A value of a written JSON object: a string, or an object of string fields.
enum JsonOut {
    Text(String),
    Fields(Vec<(String, String)>),
}

/// A written JSON value as plain values.
pub enum JsonOutView {
    Text(Seq<char>),
    Fields(Seq<(Seq<char>, Seq<char>)>),
}

impl View for JsonOut {
    type V = JsonOutView;

    closed spec fn view(&self) -> JsonOutView {
        match self {
            JsonOut::Text(t) => JsonOutView::Text(t@),
            JsonOut::Fields(fs) => JsonOutView::Fields(fs.deep_view()),
        }
    }
}

/// The members of a written object as plain values.
spec fn members_view(ms: Seq<(String, JsonOut)>) -> Seq<(Seq<char>, JsonOutView)> {
    ms.map_values(|m: (String, JsonOut)| (m.0@, m.1@))
}

/// The members, and the fields of each member that is an object, are in
/// strictly increasing key order.
pub open spec fn json_object_ordered(ms: Seq<(Seq<char>, JsonOutView)>) -> bool {
    &&& sorted_by_key(ms)
    &&& forall|i: int| 0 <= i < ms.len() ==> match (#[trigger] ms[i]).1 {
        JsonOutView::Fields(fs) => sorted_by_key(fs),
        JsonOutView::Text(_) => true,
    }
}

/// What `serde_json` reads back into a `serde_json::Map` of a written member.
pub open spec fn member_reading(m: (Seq<char>, JsonOutView)) -> JsonMember {
    match m.1 {
        JsonOutView::Text(_) => (m.0, JsonShape::Other),
        JsonOutView::Fields(fs) => (m.0, JsonShape::Object(fields_reading(fs))),
    }
}

/// String fields as `serde_json` reads them back: each value a string.
pub open spec fn fields_reading(fs: Seq<(Seq<char>, Seq<char>)>) -> Seq<JsonField> {
    fs.map_values(|f: (Seq<char>, Seq<char>)| (f.0, Some(Some(f.1))))
}

/// The members as key and string, where every member is a string.
pub open spec fn text_members(ms: Seq<(Seq<char>, JsonOutView)>) -> Option<Seq<(Seq<char>, Seq<char>)>> {
    if forall|i: int| 0 <= i < ms.len() ==> (#[trigger] ms[i]).1 is Text {
        Some(ms.map_values(|m: (Seq<char>, JsonOutView)| (m.0, m.1->Text_0)))
    } else {
        None
    }
}

/// The text that `serde_json::to_string_pretty` writes for a JSON object with
/// these members, in this order.
pub uninterp spec fn json_pretty_text(members: Seq<(Seq<char>, JsonOutView)>) -> Seq<char>;

/// The text that `serde_yaml::to_string` writes for a mapping with one entry:
/// the locale, whose value is the mapping of these string entries, in this order.
pub uninterp spec fn yaml_text(locale: Seq<char>, entries: Seq<(Seq<char>, Seq<char>)>) -> Seq<char>;

/// Calls `serde_json::to_string_pretty` on the `serde_json::Map` holding the
/// members. Claims that it succeeds (its documentation names as the only
/// failures a `Serialize` impl that fails, which that of `serde_json::Value`
/// does not for strings and objects, and a map with keys that are not strings),
/// that the text is the one named by `json_pretty_text`, and that `serde_json`
/// reads it back: into a `serde_json::Map` as the same members, and into a
/// `BTreeMap<String, String>` where every member is a string (an error
/// otherwise). The members come in key order, which is the order of
/// `serde_json::Map`.
#[verifier::external_body]
fn json_pretty(members: &Vec<(String, JsonOut)>) -> (r: Result<String, serde_json::Error>)
    requires
        json_object_ordered(members_view(members@)),
    ensures
        r is Ok,
        r is Ok ==> r->Ok_0@ == json_pretty_text(members_view(members@)),
        r is Ok ==> json_members(r->Ok_0@) == Some(
            members_view(members@).map_values(|m: (Seq<char>, JsonOutView)| member_reading(m)),
        ),
        r is Ok ==> json_strings(r->Ok_0@) == text_members(members_view(members@)),
{
    let object: serde_json::Map<String, serde_json::Value> = members.iter().map(|(k, v)| (k.clone(), json_value(v))).collect();
    serde_json::to_string_pretty(&object)
}

/// The `serde_json::Value` of a written value.
#[verifier::external_body]
fn json_value(v: &JsonOut) -> serde_json::Value {
    match v {
        JsonOut::Text(t) => serde_json::Value::String(t.clone()),
        JsonOut::Fields(fs) => serde_json::Value::Object(fs.iter().map(|(a, b)| (a.clone(), serde_json::Value::String(b.clone()))).collect()),
    }
}

/// String entries as a YAML mapping reads them back: key and value both strings.
pub open spec fn string_pairs(kv: Seq<(Seq<char>, Seq<char>)>) -> Seq<YamlPair> {
    kv.map_values(|p: (Seq<char>, Seq<char>)| (Some(p.0), Some(p.1)))
}

/// Calls `serde_yaml::to_string` on a `serde_yaml::Mapping` with one entry: the
/// locale, whose value is the mapping of the entries in their order. Claims that
/// it succeeds (its documentation names as the only failure a `Serialize` impl
/// that fails, which that of `serde_yaml::Value` does not for strings and
/// mappings), that the text is the one named by `yaml_text`, and that
/// `serde_yaml` reads it back as that mapping (its strings are quoted where they
/// would read as another scalar).
#[verifier::external_body]
fn rails_yaml(locale: &str, entries: &Vec<(String, String)>) -> (r: Result<String, serde_yaml::Error>)
    requires
        unique_keys(entries.deep_view()),
    ensures
        r is Ok,
        r is Ok ==> r->Ok_0@ == yaml_text(locale@, entries.deep_view()),
        r is Ok ==> yaml_document(r->Ok_0@) == Some(
            Some(seq![(Some(locale@), None::<Seq<char>>, Some(string_pairs(entries.deep_view())))]),
        ),
{
    let text = |s: &String| serde_yaml::Value::String(s.clone());
    let inner: serde_yaml::Mapping = entries.iter().map(|(k, v)| (text(k), text(v))).collect();
    let mut outer = serde_yaml::Mapping::new();
    outer.insert(serde_yaml::Value::String(locale.to_string()), serde_yaml::Value::Mapping(inner));
    serde_yaml::to_string(&serde_yaml::Value::Mapping(outer))
}

/// Entries without their notes.
pub open spec fn without_notes(es: Seq<(Seq<char>, MessageView)>) -> Seq<(Seq<char>, MessageView)> {
    es.map_values(|e: (Seq<char>, MessageView)| (e.0, (e.1.0, None::<Seq<char>>)))
}

/// Each key with its message's text.
pub open spec fn texts_of(es: Seq<(Seq<char>, MessageView)>) -> Seq<(Seq<char>, Seq<char>)> {
    es.map_values(|e: (Seq<char>, MessageView)| (e.0, e.1.0))
}

/// The fields of a written FormatJS descriptor: `defaultMessage`, then
/// `description` where the message has a note.
pub open spec fn descriptor_fields(m: MessageView) -> Seq<(Seq<char>, Seq<char>)> {
    match m.1 {
        Some(d) => seq![("defaultMessage"@, m.0), ("description"@, d)],
        None => seq![("defaultMessage"@, m.0)],
    }
}

/// The JSON object written for Simple entries: each key with its text, in key
/// order.
pub open spec fn simple_json(es: Seq<(Seq<char>, MessageView)>) -> Seq<(Seq<char>, JsonOutView)> {
    in_key_order(es).map_values(|e: (Seq<char>, MessageView)| (e.0, JsonOutView::Text(e.1.0)))
}

/// The JSON object written for FormatJS entries: each key with its descriptor,
/// in key order.
pub open spec fn formatjs_json(es: Seq<(Seq<char>, MessageView)>) -> Seq<(Seq<char>, JsonOutView)> {
    in_key_order(es).map_values(
        |e: (Seq<char>, MessageView)| (e.0, JsonOutView::Fields(descriptor_fields(e.1))),
    )
}

/// What writing a file gives: for Simple and FormatJS the pretty JSON of its
/// object; for Rails the YAML of its mapping, in the table's order. Writing
/// always succeeds.
pub open spec fn serialised(f: FileView, r: Result<String, serde_json::Error>) -> bool {
    match f {
        FileView::Simple(es) => r matches Ok(t) && t@ == json_pretty_text(simple_json(es)),
        FileView::FormatJS(es) => r matches Ok(t) && t@ == json_pretty_text(formatjs_json(es)),
        FileView::Rails(l, es) => r matches Ok(t) && t@ == yaml_text(l, texts_of(es)),
    }
}

/// A written text reads back as the file it was written from: Simple and Rails
/// files keep their keys and texts (Simple in key order, Rails in table order),
/// a non-empty FormatJS file also keeps its notes and comes back in key order.
pub open spec fn reads_back(f: FileView, t: Seq<char>) -> bool {
    match f {
        FileView::Simple(es) => json_reading(t) == Some(FileView::Simple(without_notes(in_key_order(es)))),
        FileView::FormatJS(es) => es.len() > 0 ==> json_reading(t) == Some(FileView::FormatJS(in_key_order(es))),
        FileView::Rails(l, es) => yaml_reading(t) == Some(FileView::Rails(l, without_notes(es))),
    }
}

/// The members of a written JSON object hold each key of the entries exactly
/// once, and no other, in strictly increasing key order.
pub open spec fn keys_once_in_order(
    ms: Seq<(Seq<char>, JsonOutView)>,
    es: Seq<(Seq<char>, MessageView)>,
) -> bool {
    &&& sorted_by_key(ms)
    &&& ms.len() == es.len()
    &&& forall|k: Seq<char>| has_key(ms, k) <==> has_key(es, k)
}

/// The object written for a Simple or FormatJS file; empty for Rails.
pub open spec fn json_object_of(f: FileView) -> Seq<(Seq<char>, JsonOutView)> {
    match f {
        FileView::Simple(es) => simple_json(es),
        FileView::FormatJS(es) => formatjs_json(es),
        FileView::Rails(_, _) => Seq::empty(),
    }
}

/// The entries of a file.
pub open spec fn entries_of(f: FileView) -> Seq<(Seq<char>, MessageView)> {
    match f {
        FileView::Simple(es) => es,
        FileView::FormatJS(es) => es,
        FileView::Rails(_, es) => es,
    }
}

/// Where the entries have a key-sorted arrangement, the written object holds
/// each key once, in strictly increasing order.
proof fn lemma_keys_once_in_order(es: Seq<(Seq<char>, MessageView)>)
    requires
        sorted_by_key(in_key_order(es)),
        same_entries(in_key_order(es), es),
    ensures
        keys_once_in_order(simple_json(es), es),
        keys_once_in_order(formatjs_json(es), es),
{
    let o = in_key_order(es);
    assert forall|k: Seq<char>| has_key(o, k) <==> has_key(es, k) by {
        if has_key(o, k) {
            let i = choose|i: int| 0 <= i < o.len() && #[trigger] o[i].0 == k;
            assert(o.contains(o[i]));
            assert(es.contains(o[i]));
            let j = choose|j: int| 0 <= j < es.len() && es[j] == o[i];
            assert(es[j].0 == k);
        }
        if has_key(es, k) {
            let i = choose|i: int| 0 <= i < es.len() && #[trigger] es[i].0 == k;
            assert(es.contains(es[i]));
            assert(o.contains(es[i]));
            let j = choose|j: int| 0 <= j < o.len() && o[j] == es[i];
            assert(o[j].0 == k);
        }
    }
    let a = simple_json(es);
    let b = formatjs_json(es);
    assert forall|k: Seq<char>| has_key(a, k) <==> has_key(o, k) by {
        if has_key(a, k) {
            let i = choose|i: int| 0 <= i < a.len() && #[trigger] a[i].0 == k;
            assert(o[i].0 == k);
        }
        if has_key(o, k) {
            let i = choose|i: int| 0 <= i < o.len() && #[trigger] o[i].0 == k;
            assert(a[i].0 == k);
        }
    }
    assert forall|k: Seq<char>| has_key(b, k) <==> has_key(o, k) by {
        if has_key(b, k) {
            let i = choose|i: int| 0 <= i < b.len() && #[trigger] b[i].0 == k;
            assert(o[i].0 == k);
        }
        if has_key(o, k) {
            let i = choose|i: int| 0 <= i < o.len() && #[trigger] o[i].0 == k;
            assert(b[i].0 == k);
        }
    }
    assert forall|i: int, j: int| 0 <= i < j < a.len() implies key_lt(#[trigger] a[i].0, #[trigger] a[j].0) by {
        assert(a[i].0 == o[i].0 && a[j].0 == o[j].0);
    }
    assert forall|i: int, j: int| 0 <= i < j < b.len() implies key_lt(#[trigger] b[i].0, #[trigger] b[j].0) by {
        assert(b[i].0 == o[i].0 && b[j].0 == o[j].0);
    }
}

/// Writing depends only on the file's plain values: two files with the same
/// format, locale and entries, however built, are written as the same text.
pub proof fn lemma_serialised_determined(
    f: FileView,
    r1: Result<String, serde_json::Error>,
    r2: Result<String, serde_json::Error>,
)
    requires
        serialised(f, r1),
        serialised(f, r2),
    ensures
        r1 is Ok && r2 is Ok && r1->Ok_0@ == r2->Ok_0@,
{
}

/// A field of another name, wherever it stands, does not change the value read
/// under `name`.
proof fn lemma_field_value_other(a: Seq<JsonField>, f: JsonField, b: Seq<JsonField>, name: Seq<char>)
    requires
        f.0 != name,
    ensures
        field_value(a + seq![f] + b, name) == field_value(a + b, name),
    decreases b.len(),
{
    let x = a + seq![f] + b;
    let y = a + b;
    if b.len() == 0 {
        assert(x.drop_last() =~= y);
        assert(x.last() == f);
    } else {
        assert(x.last() == b.last());
        assert(y.last() == b.last());
        lemma_field_value_other(a, f, b.drop_last(), name);
        assert(x.drop_last() =~= a + seq![f] + b.drop_last());
        assert(y.drop_last() =~= a + b.drop_last());
    }
}

/// A FormatJS descriptor is read from its `defaultMessage` and `description`
/// fields alone: a field of any other name, wherever it stands in the object,
/// changes nothing.
pub proof fn lemma_other_fields_ignored(a: Seq<JsonField>, f: JsonField, b: Seq<JsonField>)
    requires
        f.0 != "defaultMessage"@,
        f.0 != "description"@,
    ensures
        formatjs_message(a + seq![f] + b) == formatjs_message(a + b),
{
    lemma_field_value_other(a, f, b, "defaultMessage"@);
    lemma_field_value_other(a, f, b, "description"@);
}

/// A YAML text reads as Rails only where its top-level mapping has exactly one
/// entry.
pub proof fn lemma_rails_has_one_entry(t: Seq<char>)
    ensures
        yaml_reading(t) matches Some(FileView::Rails(_, _)) ==> yaml_document(t) matches Some(
            Some(es),
        ) && es.len() == 1,
{
}

/// A top-level mapping of two or more entries, one of whose values is not a
/// string (such as a second locale section), is refused as an unknown format.
pub proof fn lemma_several_sections_refused(
    t: Seq<char>,
    es: Seq<YamlEntry>,
    i: int,
    r: Result<IntlFile, ParseError>,
)
    requires
        yaml_document(t) == Some(Some(es)),
        es.len() >= 2,
        0 <= i < es.len(),
        es[i].1 is None,
        yaml_outcome(r, t),
    ensures
        r is Err,
        unknown_format(r->Err_0, NOT_RECOGNISED@),
{
    assert(top_pairs(es)[i].1 is None);
}

/// Keys in strictly increasing order are distinct.
proof fn lemma_sorted_keys_unique<V>(s: Seq<(Seq<char>, V)>)
    requires
        sorted_by_key(s),
    ensures
        unique_keys(s),
{
    assert forall|i: int, j: int| 0 <= i < j < s.len() implies #[trigger] s[i].0 != #[trigger] s[j].0 by {
        if s[i].0 == s[j].0 {
            assert(key_lt(s[i].0, s[j].0));
            lemma_key_lt_irreflexive(s[i].0);
        }
    }
}

/// `defaultMessage` sorts before `description`.
proof fn lemma_descriptor_fields_sorted(m: MessageView)
    ensures
        sorted_by_key(descriptor_fields(m)),
{
    reveal_strlit("defaultMessage");
    reveal_strlit("description");
    let a = "defaultMessage"@;
    let b = "description"@;
    assert(a.take(2) =~= b.take(2));
    assert(differs_first_at(a, b, 2) && lt_at(a, b, 2));
}

/// A written descriptor reads back as its message.
proof fn lemma_descriptor_reading(m: MessageView)
    ensures
        formatjs_message(fields_reading(descriptor_fields(m))) == Some(m),
{
    reveal_strlit("defaultMessage");
    reveal_strlit("description");
    let fs = fields_reading(descriptor_fields(m));
    assert("defaultMessage"@ != "description"@) by {
        assert("defaultMessage"@[2] != "description"@[2]);
    }
    match m.1 {
        Some(d) => {
            assert(fs.drop_last().last() == ("defaultMessage"@, Some(Some(m.0))));
            assert(field_value(fs.drop_last(), "defaultMessage"@) == Some(Some(Some(m.0))));
            assert(field_value(fs, "defaultMessage"@) == Some(Some(Some(m.0))));
            assert(field_value(fs, "description"@) == Some(Some(Some(d))));
        },
        None => {
            assert(field_value(fs, "defaultMessage"@) == Some(Some(Some(m.0))));
            assert(field_value(fs.drop_last(), "description"@) is None);
        },
    }
}

/// Written descriptors read back as their messages.
proof fn lemma_descriptors_reading(o: Seq<(Seq<char>, MessageView)>)
    ensures
        formatjs_messages(
            o.map_values(|e: (Seq<char>, MessageView)| (e.0, JsonOutView::Fields(descriptor_fields(e.1)))).map_values(
                |m: (Seq<char>, JsonOutView)| member_reading(m),
            ),
        ) == Some(o),
    decreases o.len(),
{
    let w = o.map_values(|e: (Seq<char>, MessageView)| (e.0, JsonOutView::Fields(descriptor_fields(e.1))));
    let d = w.map_values(|m: (Seq<char>, JsonOutView)| member_reading(m));
    if o.len() == 0 {
        assert(d.len() == 0);
    } else {
        let o1 = o.drop_last();
        lemma_descriptors_reading(o1);
        let w1 = o1.map_values(|e: (Seq<char>, MessageView)| (e.0, JsonOutView::Fields(descriptor_fields(e.1))));
        assert(d.drop_last() =~= w1.map_values(|m: (Seq<char>, JsonOutView)| member_reading(m)));
        lemma_descriptor_reading(o.last().1);
        assert(o1.push(o.last()) =~= o);
    }
}

/// A mapping of strings reads as its entries without notes.
proof fn lemma_string_pairs_messages(kv: Seq<(Seq<char>, Seq<char>)>)
    ensures
        yaml_messages(string_pairs(kv)) == kv.map_values(|p: (Seq<char>, Seq<char>)| (p.0, (p.1, None::<Seq<char>>))),
        all_string_values(string_pairs(kv)),
    decreases kv.len(),
{
    if kv.len() > 0 {
        lemma_string_pairs_messages(kv.drop_last());
        assert(string_pairs(kv).drop_last() =~= string_pairs(kv.drop_last()));
        assert(yaml_messages(string_pairs(kv)) =~= kv.map_values(
            |p: (Seq<char>, Seq<char>)| (p.0, (p.1, None::<Seq<char>>)),
        ));
    }
}

/// A copy of the table's entries in increasing key order.
fn in_order(m: &MessageMap) -> (r: Vec<(String, FormattedMessage)>)
    ensures
        r@.map_values(|e: (String, FormattedMessage)| entry_view(e)) == in_key_order(m@),
        sorted_by_key(in_key_order(m@)),
        same_entries(in_key_order(m@), m@),
{
    let es = m.entries();
    let ghost mv = m@;
    let mut keys: Vec<String> = Vec::new();
    let mut i: usize = 0;
    while i < es.len()
        invariant
            i <= es@.len(),
            keys@.len() == i,
            mv == es@.map_values(|e: (String, FormattedMessage)| entry_view(e)),
            forall|j: int| 0 <= j < i ==> #[trigger] keys@[j]@ == mv[j].0,
        decreases es.len() - i,
    {
        keys.push(es[i].0.clone());
        i += 1;
    }
    assert forall|a: int, b: int| 0 <= a < b < keys@.len() implies keys@[a]@ != keys@[b]@ by {
        assert(keys@[a]@ == mv[a].0 && keys@[b]@ == mv[b].0);
    }
    let pos = sorted_positions(&keys);
    let mut out: Vec<(String, FormattedMessage)> = Vec::new();
    let mut j: usize = 0;
    while j < pos.len()
        invariant
            j <= pos@.len(),
            pos@.len() == keys@.len() == mv.len() == es@.len(),
            mv == es@.map_values(|e: (String, FormattedMessage)| entry_view(e)),
            forall|a: int| 0 <= a < pos@.len() ==> #[trigger] pos@[a] < keys@.len(),
            out@.len() == j,
            forall|a: int| 0 <= a < j ==> #[trigger] entry_view(out@[a]) == mv[pos@[a] as int],
        decreases pos.len() - j,
    {
        let p = pos[j];
        let k = es[p].0.clone();
        let v = es[p].1.duplicate();
        out.push((k, v));
        j += 1;
    }
    proof {
        let t = out@.map_values(|e: (String, FormattedMessage)| entry_view(e));
        assert forall|a: int| 0 <= a < t.len() implies #[trigger] t[a] == mv[pos@[a] as int] by {
            assert(t[a] == entry_view(out@[a]));
        }
        assert(sorted_by_key(t)) by {
            assert forall|a: int, b: int| 0 <= a < b < t.len() implies key_lt(#[trigger] t[a].0, #[trigger] t[b].0) by {
                assert(t[a] == mv[pos@[a] as int] && t[b] == mv[pos@[b] as int]);
                assert(keys@[pos@[a] as int]@ == mv[pos@[a] as int].0);
                assert(keys@[pos@[b] as int]@ == mv[pos@[b] as int].0);
            }
        }
        assert forall|x: (Seq<char>, MessageView)| t.contains(x) <==> mv.contains(x) by {
            if t.contains(x) {
                let a = choose|a: int| 0 <= a < t.len() && t[a] == x;
                assert(mv[pos@[a] as int] == x);
            }
            if mv.contains(x) {
                let b = choose|b: int| 0 <= b < mv.len() && mv[b] == x;
                assert(pos@.contains(b as usize));
                let a = choose|a: int| 0 <= a < pos@.len() && pos@[a] == b as usize;
                assert(t[a] == x);
            }
        }
        lemma_in_key_order(mv, t);
    }
    out
}

/// Each entry's key with its text, as a written JSON member.
fn simple_members(es: &Vec<(String, FormattedMessage)>) -> (r: Vec<(String, JsonOut)>)
    ensures
        members_view(r@) == es@.map_values(|e: (String, FormattedMessage)| entry_view(e)).map_values(
            |e: (Seq<char>, MessageView)| (e.0, JsonOutView::Text(e.1.0)),
        ),
{
    let ghost ev = es@.map_values(|e: (String, FormattedMessage)| entry_view(e));
    let mut out: Vec<(String, JsonOut)> = Vec::new();
    let mut i: usize = 0;
    while i < es.len()
        invariant
            i <= es@.len(),
            ev == es@.map_values(|e: (String, FormattedMessage)| entry_view(e)),
            members_view(out@) =~= ev.take(i as int).map_values(
                |e: (Seq<char>, MessageView)| (e.0, JsonOutView::Text(e.1.0)),
            ),
        decreases es.len() - i,
    {
        let ghost before = out@;
        let k = es[i].0.clone();
        let v = JsonOut::Text(es[i].1.text.clone());
        out.push((k, v));
        proof {
            assert(ev[i as int] == entry_view(es@[i as int]));
            assert(members_view(out@) =~= members_view(before).push((k@, v@)));
            assert(ev.take(i + 1) =~= ev.take(i as int).push(ev[i as int]));
        }
        i += 1;
    }
    assert(ev.take(i as int) =~= ev);
    out
}

/// The fields of a message's FormatJS descriptor.
fn descriptor(m: &FormattedMessage) -> (r: Vec<(String, String)>)
    ensures
        r.deep_view() == descriptor_fields(m@),
{
    let mut fs: Vec<(String, String)> = Vec::new();
    fs.push(("defaultMessage".to_owned(), m.text.clone()));
    match &m.note {
        Some(d) => fs.push(("description".to_owned(), d.clone())),
        None => {},
    }
    assert(fs.deep_view() =~= descriptor_fields(m@));
    fs
}

/// Each entry's key with its descriptor, as a written JSON member.
fn descriptor_members(es: &Vec<(String, FormattedMessage)>) -> (r: Vec<(String, JsonOut)>)
    ensures
        members_view(r@) == es@.map_values(|e: (String, FormattedMessage)| entry_view(e)).map_values(
            |e: (Seq<char>, MessageView)| (e.0, JsonOutView::Fields(descriptor_fields(e.1))),
        ),
{
    let ghost ev = es@.map_values(|e: (String, FormattedMessage)| entry_view(e));
    let mut out: Vec<(String, JsonOut)> = Vec::new();
    let mut i: usize = 0;
    while i < es.len()
        invariant
            i <= es@.len(),
            ev == es@.map_values(|e: (String, FormattedMessage)| entry_view(e)),
            members_view(out@) =~= ev.take(i as int).map_values(
                |e: (Seq<char>, MessageView)| (e.0, JsonOutView::Fields(descriptor_fields(e.1))),
            ),
        decreases es.len() - i,
    {
        let ghost before = out@;
        let k = es[i].0.clone();
        let v = JsonOut::Fields(descriptor(&es[i].1));
        out.push((k, v));
        proof {
            assert(ev[i as int] == entry_view(es@[i as int]));
            assert(members_view(out@) =~= members_view(before).push((k@, v@)));
            assert(ev.take(i + 1) =~= ev.take(i as int).push(ev[i as int]));
        }
        i += 1;
    }
    assert(ev.take(i as int) =~= ev);
    out
}

/// Each entry's key with its text, in the table's order.
fn text_pairs(m: &MessageMap) -> (r: Vec<(String, String)>)
    ensures
        r.deep_view() == texts_of(m@),
        unique_keys(m@),
{
    let es = m.entries();
    let ghost mv = m@;
    let mut out: Vec<(String, String)> = Vec::new();
    let mut i: usize = 0;
    while i < es.len()
        invariant
            i <= es@.len(),
            mv == es@.map_values(|e: (String, FormattedMessage)| entry_view(e)),
            out.deep_view() =~= texts_of(mv).take(i as int),
        decreases es.len() - i,
    {
        let ghost before = out.deep_view();
        let k = es[i].0.clone();
        let v = es[i].1.text.clone();
        out.push((k, v));
        proof {
            assert(mv[i as int] == entry_view(es@[i as int]));
            assert(out.deep_view() =~= before.push((k@, v@)));
        }
        i += 1;
    }
    out
}

/// Serialise an `IntlFile` back to its wire format.
/// Simple / FormatJS → pretty JSON in key order; Rails → YAML with the locale
/// wrapper, in the table's order.
pub fn serialise(file: &IntlFile) -> (r: Result<String, serde_json::Error>)
    ensures
        r is Ok,
        serialised(file_view(*file), r),
        r is Ok ==> reads_back(file_view(*file), r->Ok_0@),
        !(file is Rails) ==> sorted_by_key(in_key_order(file.table()@)) && same_entries(
            in_key_order(file.table()@),
            file.table()@,
        ),
        !(file is Rails) ==> keys_once_in_order(
            json_object_of(file_view(*file)),
            entries_of(file_view(*file)),
        ),
{
    match file {
        IntlFile::Simple(m) => {
            let ordered = in_order(m);
            let members = simple_members(&ordered);
            let ghost o = in_key_order(m@);
            proof {
                lemma_sorted_keys_unique(o);
                lemma_keys_once_in_order(m@);
                assert(json_object_ordered(simple_json(m@)));
            }
            match json_pretty(&members) {
                Ok(t) => {
                    proof {
                        let ms = simple_json(m@);
                        let d = ms.map_values(|x: (Seq<char>, JsonOutView)| member_reading(x));
                        if d.len() > 0 {
                            assert(d.last().1 is Other);
                        }
                        let kv = ms.map_values(|x: (Seq<char>, JsonOutView)| (x.0, x.1->Text_0));
                        assert(simple_entries(kv) =~= without_notes(o));
                        assert(sorted_by_key(without_notes(o)));
                        lemma_sorted_keys_unique(without_notes(o));
                        lemma_entries_from_distinct(without_notes(o));
                    }
                    Ok(t)
                },
                Err(e) => Err(e),
            }
        },
        IntlFile::FormatJS(m) => {
            let ordered = in_order(m);
            let members = descriptor_members(&ordered);
            let ghost o = in_key_order(m@);
            proof {
                lemma_sorted_keys_unique(o);
                lemma_keys_once_in_order(m@);
                let ms = formatjs_json(m@);
                assert forall|i: int| 0 <= i < ms.len() implies match (#[trigger] ms[i]).1 {
                    JsonOutView::Fields(fs) => sorted_by_key(fs),
                    JsonOutView::Text(_) => true,
                } by {
                    lemma_descriptor_fields_sorted(o[i].1);
                }
            }
            match json_pretty(&members) {
                Ok(t) => {
                    proof {
                        lemma_descriptors_reading(o);
                        lemma_entries_from_distinct(o);
                    }
                    Ok(t)
                },
                Err(e) => Err(e),
            }
        },
        IntlFile::Rails(locale, m) => {
            let pairs = text_pairs(m);
            proof {
                assert forall|i: int, j: int| 0 <= i < j < texts_of(m@).len() implies #[trigger] texts_of(m@)[i].0
                    != #[trigger] texts_of(m@)[j].0 by {
                    assert(m@[i].0 != m@[j].0);
                }
            }
            let t = rails_yaml(locale.as_str(), &pairs).unwrap();
            proof {
                let kv = texts_of(m@);
                lemma_string_pairs_messages(kv);
                assert(kv.map_values(|p: (Seq<char>, Seq<char>)| (p.0, (p.1, None::<Seq<char>>)))
                    =~= without_notes(m@));
                assert forall|i: int, j: int| 0 <= i < j < without_notes(m@).len() implies #[trigger] without_notes(m@)[i].0
                    != #[trigger] without_notes(m@)[j].0 by {
                    assert(m@[i].0 != m@[j].0);
                }
                lemma_entries_from_distinct(without_notes(m@));
            }
            Ok(t)
        },
    }
}

} // verus!
