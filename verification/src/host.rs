//! What the host program computes around the engine: the registration of
//! the native messaging host, and the report of a panic.
//!
//! The registry, the manifest file and the standard streams are the
//! program's part; the texts that go there are made here.

use vstd::prelude::*;
use vstd::string::*;
use crate::names::{decimal, decimal_text};
use crate::order::str_equal;

verus! {

/// The fields of a JSON object: each key with its value where that is a
/// string, with `None` where it is anything else.
pub type TextFields = Seq<(Seq<char>, Option<Seq<char>>)>;

/// What `serde_json` reads from a text as an object, its fields in
/// ascending order of their keys; `None` where the text is not a JSON
/// object.
pub uninterp spec fn json_fields(text: Seq<u8>) -> Option<TextFields>;

/// What `serde_json` writes for the object that has the fields `texts`,
/// whose values are strings, and the fields `lists`, whose values are
/// arrays of strings; `None` where it reports an error.
pub uninterp spec fn object_json(
    texts: Seq<(Seq<char>, Seq<char>)>,
    lists: Seq<(Seq<char>, Seq<Seq<char>>)>,
) -> Option<Seq<u8>>;

/// `serde_json::from_slice`, asked for a `BTreeMap` of `Value`s. Its result
/// is a function of the text alone; of each field the key is handed on,
/// and the value where it is a string.
#[verifier::external_body]
fn parse_object(text: &[u8]) -> (fields: Option<Vec<(String, Option<String>)>>)
    ensures
        fields.deep_view() == json_fields(text@),
{
    let parsed: std::collections::BTreeMap<String, serde_json::Value> =
        serde_json::from_slice(text).ok()?;
    let text_of = |value| match value {
        serde_json::Value::String(text) => Some(text),
        _ => None,
    };
    Some(parsed.into_iter().map(|(key, value)| (key, text_of(value))).collect())
}

/// `serde_json::to_vec`, given a `serde_json::Map` that holds the fields.
/// Its result is a function of the fields alone. (The text has them in
/// the order of their keys, which nothing here relies on.)
#[verifier::external_body]
fn write_object(texts: &Vec<(String, String)>, lists: &Vec<(String, Vec<String>)>) -> (text: Option<
    Vec<u8>,
>)
    ensures
        text.deep_view() == object_json(texts.deep_view(), lists.deep_view()),
{
    let mut object = serde_json::Map::new();
    for (key, value) in texts {
        object.insert(key.clone(), serde_json::Value::from(value.as_str()));
    }
    for (key, values) in lists {
        object.insert(key.clone(), serde_json::Value::from(values.clone()));
    }
    serde_json::to_vec(&object).ok()
}

/// The value of the first field with this key, where it is a string.
pub open spec fn field_text(fields: TextFields, key: Seq<char>) -> Option<Seq<char>>
    decreases fields.len(),
{
    if fields.len() == 0 {
        None
    } else if fields.first().0 == key {
        fields.first().1
    } else {
        field_text(fields.drop_first(), key)
    }
}

/// The value of the first field with this key, where it is a string.
pub fn find_text<'a>(fields: &'a Vec<(String, Option<String>)>, key: &str) -> (text: Option<
    &'a String,
>)
    ensures
        match text {
            Some(text) => field_text(fields.deep_view(), key@) == Some(text@),
            None => field_text(fields.deep_view(), key@) is None,
        },
{
    let ghost all = fields.deep_view();
    let mut i: usize = 0;
    assert(all.skip(0) =~= all);
    while i < fields.len()
        invariant
            i <= fields@.len(),
            all == fields.deep_view(),
            all.len() == fields@.len(),
            field_text(all, key@) == field_text(all.skip(i as int), key@),
        decreases fields@.len() - i,
    {
        proof {
            assert(all.skip(i as int).drop_first() =~= all.skip(i + 1));
            assert(all.skip(i as int).first() == all[i as int]);
            assert(all[i as int].0 == fields@[i as int].0@);
            assert(all[i as int].1 == fields@[i as int].1.deep_view());
        }
        if str_equal(fields[i].0.as_str(), key) {
            return match &fields[i].1 {
                Some(text) => Some(text),
                None => None,
            };
        }
        i = i + 1;
    }
    None
}

/// Whether the fields of a host manifest name this executable.
pub open spec fn names_executable(fields: Option<TextFields>, exe_path: Option<Seq<char>>) -> bool {
    fields is Some && exe_path is Some && field_text(fields->0, "path"@) == exe_path
}

/// Whether a host manifest that was read as these fields names this
/// executable under `path`.
pub fn manifest_names(fields: &Option<Vec<(String, Option<String>)>>, exe_path: Option<&str>) -> (
    answer: bool)
    ensures
        answer == names_executable(
            fields.deep_view(),
            match exe_path {
                Some(path) => Some(path@),
                None => None,
            },
        ),
{
    match (fields, exe_path) {
        (Some(fields), Some(exe_path)) => {
            match find_text(fields, "path") {
                Some(path) => str_equal(path.as_str(), exe_path),
                None => false,
            }
        },
        _ => false,
    }
}

/// Whether the host is installed, given the text of the manifest that the
/// registry points to, `None` where there is none, and the path of this
/// executable, `None` where it is not text: it is where the manifest is a
/// JSON object whose `path` is the path of this executable.
pub fn is_installed(manifest: Option<&[u8]>, exe_path: Option<&str>) -> (installed: bool)
    ensures
        installed == names_executable(
            match manifest {
                Some(text) => json_fields(text@),
                None => None,
            },
            match exe_path {
                Some(path) => Some(path@),
                None => None,
            },
        ),
{
    let fields = match manifest {
        Some(text) => parse_object(text),
        None => None,
    };
    manifest_names(&fields, exe_path)
}

/// The registry key under which a host of this name is registered.
pub fn registry_key(name: &str) -> (key: String)
    ensures
        key@ == "Software\\Google\\Chrome\\NativeMessagingHosts\\"@ + name@,
{
    let mut key = "Software\\Google\\Chrome\\NativeMessagingHosts\\".to_owned();
    key.append(name);
    key
}

/// The origin of the extension that may talk to the host.
pub fn allowed_origin(extension_id: &str) -> (origin: String)
    ensures
        origin@ == "chrome-extension://"@ + extension_id@ + "/"@,
{
    let mut origin = "chrome-extension://".to_owned();
    origin.append(extension_id);
    origin.append("/");
    origin
}

/// The fields of a host manifest whose values are strings.
pub open spec fn manifest_texts(
    name: Seq<char>,
    description: Seq<char>,
    exe_path: Seq<char>,
) -> Seq<(Seq<char>, Seq<char>)> {
    seq![
        ("name"@, name),
        ("description"@, description),
        ("path"@, exe_path),
        ("type"@, "stdio"@),
    ]
}

/// The field of a host manifest whose value is a list.
pub open spec fn manifest_lists(extension_id: Seq<char>) -> Seq<(Seq<char>, Seq<Seq<char>>)> {
    seq![("allowed_origins"@, seq!["chrome-extension://"@ + extension_id + "/"@])]
}

/// The text of the manifest of a host: its name, its description, the
/// path of its executable, `stdio` as its type, and the one extension
/// that may talk to it. `None` where `serde_json` reports an error.
pub fn host_manifest(name: &str, description: &str, exe_path: &str, extension_id: &str) -> (text:
    Option<Vec<u8>>)
    ensures
        text.deep_view() == object_json(
            manifest_texts(name@, description@, exe_path@),
            manifest_lists(extension_id@),
        ),
{
    let mut texts: Vec<(String, String)> = Vec::new();
    texts.push(("name".to_owned(), name.to_owned()));
    texts.push(("description".to_owned(), description.to_owned()));
    texts.push(("path".to_owned(), exe_path.to_owned()));
    texts.push(("type".to_owned(), "stdio".to_owned()));
    let mut origins: Vec<String> = Vec::new();
    origins.push(allowed_origin(extension_id));
    let mut lists: Vec<(String, Vec<String>)> = Vec::new();
    lists.push(("allowed_origins".to_owned(), origins));
    proof {
        assert(texts.deep_view() =~= manifest_texts(name@, description@, exe_path@));
        assert(origins.deep_view() =~= seq!["chrome-extension://"@ + extension_id@ + "/"@]);
        assert(lists.deep_view() =~= manifest_lists(extension_id@));
    }
    write_object(&texts, &lists)
}

/// The line of a panic in decimal digits; empty where it is not known.
pub open spec fn line_text(line: Option<u32>) -> Seq<char> {
    match line {
        Some(line) => decimal(line as nat),
        None => Seq::empty(),
    }
}

/// The report of a panic: its message, the file and the line where it
/// happened, each on a line of its own under a heading.
pub fn panic_report(message: &str, file: &str, line: Option<u32>) -> (report: String)
    ensures
        report@ == "Panic:\n"@ + message@ + "\n"@ + file@ + "\n"@ + line_text(line),
{
    let mut report = "Panic:\n".to_owned();
    report.append(message);
    report.append("\n");
    report.append(file);
    report.append("\n");
    match line {
        Some(line) => {
            report.append(decimal_text(line).as_str());
        },
        None => {
            assert(report@ + Seq::<char>::empty() =~= report@);
        },
    }
    report
}

} // verus!
