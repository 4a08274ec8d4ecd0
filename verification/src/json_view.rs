//! JSON values by what they hold.

use crate::project_document::{Json, JsonField};
use vstd::prelude::*;

verus! {

/// What a JSON value is.
#[verifier::ext_equal]
pub enum JsonView {
    Null,
    Bool(bool),
    Number(Seq<char>),
    String(Seq<char>),
    Array(Seq<JsonView>),
    Object(Seq<(Seq<char>, JsonView)>),
}

pub open spec fn json_view(json: Json) -> JsonView
    decreases json,
{
    match json {
        Json::Null => JsonView::Null,
        Json::Bool(value) => JsonView::Bool(value),
        Json::Number(text) => JsonView::Number(text@),
        Json::String(text) => JsonView::String(text@),
        Json::Array(list) => JsonView::Array(array_view(list@)),
        Json::Object(fields) => JsonView::Object(object_view(fields@)),
    }
}

pub open spec fn array_view(list: Seq<Json>) -> Seq<JsonView>
    decreases list,
{
    if list.len() == 0 {
        Seq::empty()
    } else {
        array_view(list.drop_last()).push(json_view(list.last()))
    }
}

pub open spec fn object_view(fields: Seq<JsonField>) -> Seq<(Seq<char>, JsonView)>
    decreases fields,
{
    if fields.len() == 0 {
        Seq::empty()
    } else {
        object_view(fields.drop_last()).push((fields.last().key@, json_view(fields.last().value)))
    }
}

pub proof fn lemma_array_pushed(list: Seq<Json>, value: Json)
    ensures
        array_view(list.push(value)) == array_view(list).push(json_view(value)),
{
    assert(list.push(value).drop_last() =~= list);
}

pub proof fn lemma_object_pushed(fields: Seq<JsonField>, added: JsonField)
    ensures
        object_view(fields.push(added)) == object_view(fields).push((added.key@, json_view(added.value))),
{
    assert(fields.push(added).drop_last() =~= fields);
}

/// A copy of a JSON value.
pub fn copy_json(json: &Json) -> (copy: Json)
    ensures
        json_view(copy) == json_view(*json),
    decreases json, 1int,
{
    match json {
        Json::Null => Json::Null,
        Json::Bool(value) => Json::Bool(*value),
        Json::Number(text) => Json::Number(text.clone()),
        Json::String(text) => Json::String(text.clone()),
        Json::Array(list) => {
            let mut copied: Vec<Json> = Vec::new();
            let mut at: usize = 0;
            proof {
                assert(list@.take(0) =~= Seq::empty());
            }
            while at < list.len()
                invariant
                    at <= list@.len(),
                    json matches Json::Array(held) && *list == held,
                    array_view(copied@) == array_view(list@.take(at as int)),
                decreases list@.len() - at,
            {
                proof {
                    assert(list@.take(at + 1) =~= list@.take(at as int).push(list@[at as int]));
                    lemma_array_pushed(list@.take(at as int), list@[at as int]);
                }
                let value: Json = copy_json(&list[at]);
                proof {
                    lemma_array_pushed(copied@, value);
                }
                copied.push(value);
                at = at + 1;
            }
            proof {
                assert(list@.take(list@.len() as int) =~= list@);
            }
            Json::Array(copied)
        },
        Json::Object(fields) => Json::Object(copy_fields(fields)),
    }
}

/// A copy of the fields of a JSON object.
pub fn copy_fields(fields: &Vec<JsonField>) -> (copied: Vec<JsonField>)
    ensures
        object_view(copied@) == object_view(fields@),
    decreases fields, 0int,
{
    let mut copied: Vec<JsonField> = Vec::new();
    let mut at: usize = 0;
    proof {
        assert(fields@.take(0) =~= Seq::empty());
    }
    while at < fields.len()
        invariant
            at <= fields@.len(),
            object_view(copied@) == object_view(fields@.take(at as int)),
        decreases fields@.len() - at,
    {
        let held: &JsonField = &fields[at];
        proof {
            assert(fields@.take(at + 1) =~= fields@.take(at as int).push(fields@[at as int]));
            lemma_object_pushed(fields@.take(at as int), fields@[at as int]);
        }
        let value: JsonField = JsonField { key: held.key.clone(), value: copy_json(&held.value) };
        proof {
            lemma_object_pushed(copied@, value);
        }
        copied.push(value);
        at = at + 1;
    }
    proof {
        assert(fields@.take(fields@.len() as int) =~= fields@);
    }
    copied
}

pub proof fn lemma_object_view(fields: Seq<JsonField>)
    ensures
        object_view(fields).len() == fields.len(),
        forall|k: int|
            0 <= k < fields.len() ==> #[trigger] object_view(fields)[k] == (fields[k].key@, json_view(fields[k].value)),
    decreases fields.len(),
{
    if fields.len() > 0 {
        let shorter = fields.drop_last();
        lemma_object_view(shorter);
        assert forall|k: int| 0 <= k < fields.len() implies #[trigger] object_view(fields)[k] == (
            fields[k].key@,
            json_view(fields[k].value),
        ) by {
            if k < shorter.len() {
                assert(object_view(shorter)[k] == (shorter[k].key@, json_view(shorter[k].value)));
            }
        }
    }
}

// ---------------------------------------------------------------------------
// Fields

/// The fields of a JSON object.
pub type Fields = Seq<(Seq<char>, JsonView)>;

/// The first field with a key.
pub open spec fn field_place(fields: Fields, key: Seq<char>, from: int) -> Option<int>
    decreases fields.len() - from,
{
    if from < 0 || from >= fields.len() {
        None
    } else if fields[from].0 == key {
        Some(from)
    } else {
        field_place(fields, key, from + 1)
    }
}

/// The fields with a value under a key: in the place of the one that was there, or
/// behind the others.
pub open spec fn with_field(fields: Fields, key: Seq<char>, value: JsonView) -> Fields {
    match field_place(fields, key, 0) {
        Some(at) => fields.update(at, (key, value)),
        None => fields.push((key, value)),
    }
}

/// A field of an object, by its key.
pub open spec fn field(fields: Fields, key: Seq<char>) -> Option<JsonView> {
    match field_place(fields, key, 0) {
        Some(at) => Some(fields[at].1),
        None => None,
    }
}

/// What a borrowed value is.
pub open spec fn viewed(value: Option<&Json>) -> Option<JsonView> {
    match value {
        Some(value) => Some(json_view(*value)),
        None => None,
    }
}

pub(crate) fn find_place(fields: &Vec<JsonField>, key: &str) -> (place: Option<usize>)
    ensures
        match field_place(object_view(fields@), key@, 0) {
            Some(at) => place matches Some(place) && place == at && 0 <= at < fields@.len(),
            None => place is None,
        },
{
    let ghost view = object_view(fields@);
    proof {
        lemma_object_view(fields@);
    }
    let mut at: usize = 0;
    while at < fields.len()
        invariant
            at <= fields@.len(),
            view == object_view(fields@),
            view.len() == fields@.len(),
            forall|k: int| 0 <= k < fields@.len() ==> (#[trigger] view[k]).0 == fields@[k].key@,
            field_place(view, key@, 0) == field_place(view, key@, at as int),
        decreases fields@.len() - at,
    {
        proof {
            assert(view[at as int].0 == fields@[at as int].key@);
        }
        if fields[at].key.as_str().eq(key) {
            return Some(at);
        }
        at = at + 1;
    }
    None
}

pub(crate) fn put_field(fields: Vec<JsonField>, key: &str, value: Json) -> (changed: Vec<JsonField>)
    ensures
        object_view(changed@) == with_field(object_view(fields@), key@, json_view(value)),
{
    let mut fields = fields;
    let ghost before = fields@;
    let ghost held = json_view(value);
    proof {
        lemma_object_view(before);
    }
    let place: Option<usize> = find_place(&fields, key);
    let added: JsonField = JsonField { key: key.to_owned(), value };
    match place {
        Some(at) => {
            fields.set(at, added);
            proof {
                lemma_object_view(fields@);
                assert(object_view(fields@) =~= object_view(before).update(at as int, (key@, held)));
            }
        },
        None => {
            proof {
                lemma_object_pushed(before, added);
            }
            fields.push(added);
        },
    }
    fields
}

/// Finds a field of an object, by its key.
pub(crate) fn find_field<'a>(fields: &'a Vec<JsonField>, key: &str) -> (found: Option<&'a Json>)
    ensures
        viewed(found) == field(object_view(fields@), key@),
{
    proof {
        lemma_object_view(fields@);
    }
    match find_place(fields, key) {
        Some(at) => Some(&fields[at].value),
        None => None,
    }
}

pub(crate) proof fn lemma_found(fields: Fields, key: Seq<char>, from: int)
    requires
        0 <= from,
    ensures
        match field_place(fields, key, from) {
            Some(at) => from <= at < fields.len() && fields[at].0 == key && forall|k: int|
                from <= k < at ==> (#[trigger] fields[k]).0 != key,
            None => forall|k: int| from <= k < fields.len() ==> (#[trigger] fields[k]).0 != key,
        },
    decreases fields.len() - from,
{
    if from < fields.len() && fields[from].0 != key {
        lemma_found(fields, key, from + 1);
    }
}

/// The place of a key stays where only the value under it changes.
pub(crate) proof fn lemma_same_place(fields: Fields, key: Seq<char>, at: int, value: JsonView, from: int)
    requires
        0 <= from <= at < fields.len(),
        field_place(fields, key, from) == Some(at),
    ensures
        field_place(fields.update(at, (key, value)), key, from) == Some(at),
    decreases at - from,
{
    if from < at {
        lemma_found(fields, key, from);
        assert(fields[from].0 != key);
        lemma_same_place(fields, key, at, value, from + 1);
    }
}

/// A field that is set is there; every other is kept.
pub(crate) proof fn lemma_kept_field(fields: Fields, key: Seq<char>, value: JsonView, other: Seq<char>)
    ensures
        field(with_field(fields, key, value), key) == Some(value),
        other != key ==> field(with_field(fields, key, value), other) == field(fields, other),
{
    let after = with_field(fields, key, value);
    lemma_found(fields, key, 0);
    lemma_found(after, key, 0);
    lemma_found(fields, other, 0);
    lemma_found(after, other, 0);
    match field_place(fields, key, 0) {
        Some(at) => {
            assert(after[at].0 == key);
            assert forall|k: int| 0 <= k < fields.len() implies (#[trigger] after[k]).0 == fields[k].0 by {}
            let found = field_place(after, key, 0)->0;
            assert(fields[found].0 == key);
            if other != key {
                match field_place(fields, other, 0) {
                    Some(place) => {
                        assert(after[place].0 == other);
                        let now = field_place(after, other, 0)->0;
                        assert(fields[now].0 == other);
                    },
                    None => {
                        if let Some(now) = field_place(after, other, 0) {
                            assert(fields[now].0 == other);
                        }
                    },
                }
            }
        },
        None => {
            let end = fields.len() as int;
            assert(after[end] == (key, value));
            let found = field_place(after, key, 0)->0;
            if found < end {
                assert(fields[found].0 == key);
            }
            if other != key {
                match field_place(fields, other, 0) {
                    Some(place) => {
                        assert(after[place].0 == other);
                        let now = field_place(after, other, 0)->0;
                        assert(now < end);
                        assert(fields[now].0 == other);
                    },
                    None => {
                        if let Some(now) = field_place(after, other, 0) {
                            if now < end {
                                assert(fields[now].0 == other);
                            }
                        }
                    },
                }
            }
        },
    }
}

// ---------------------------------------------------------------------------
// Reading

/// `serde_json::Value`, opaque to the proofs: what it holds is taken over when it is converted.
#[verifier::external_type_specification]
#[verifier::external_body]
pub struct ExJsonValue(serde_json::Value);

/// What bytes read as, or why they are not JSON.
pub uninterp spec fn json_parsed(bytes: Seq<u8>) -> Result<JsonView, Seq<char>>;

/// A `serde_json::Value` in the form that the library holds: variant by variant, with
/// the text that it shows numbers as. Nothing is claimed of it alone.
#[verifier::external_body]
fn convert(value: serde_json::Value) -> (json: Json) {
    match value {
        serde_json::Value::Null => Json::Null,
        serde_json::Value::Bool(value) => Json::Bool(value),
        serde_json::Value::Number(number) => Json::Number(number.to_string()),
        serde_json::Value::String(text) => Json::String(text),
        serde_json::Value::Array(list) => Json::Array(list.into_iter().map(convert).collect()),
        serde_json::Value::Object(fields) => Json::Object(
            fields.into_iter().map(|(key, value)| JsonField { key, value: convert(value) }).collect(),
        ),
    }
}

/// `serde_json::from_slice` into a `serde_json::Value`: the value, or the text of the
/// error, is a function of the bytes alone.
#[verifier::external_body]
pub(crate) fn read_json(bytes: &[u8]) -> (read: Result<Json, String>)
    ensures
        match json_parsed(bytes@) {
            Ok(view) => read matches Ok(json) && json_view(json) == view,
            Err(text) => read matches Err(reason) && reason@ == text,
        },
{
    match serde_json::from_slice::<serde_json::Value>(bytes) {
        Ok(value) => Ok(convert(value)),
        Err(error) => Err(error.to_string()),
    }
}

// ---------------------------------------------------------------------------
// Writing

/// The bytes that a value is printed as, or why it cannot be.
pub uninterp spec fn json_printed(value: JsonView) -> Result<Seq<u8>, Seq<char>>;

/// A `serde_json::Value` of a value that the library holds: variant by variant, with
/// numbers read by `serde_json::from_str`. Nothing is claimed of it alone.
#[verifier::external_body]
fn outward(value: &Json) -> (converted: Result<serde_json::Value, String>) {
    Ok(match value {
        Json::Null => serde_json::Value::Null,
        Json::Bool(value) => serde_json::Value::Bool(*value),
        Json::Number(number) => serde_json::from_str(number.as_str()).map_err(|error| error.to_string())?,
        Json::String(text) => serde_json::Value::String(text.clone()),
        Json::Array(list) => serde_json::Value::Array(list.iter().map(outward).collect::<Result<_, _>>()?),
        Json::Object(fields) => serde_json::Value::Object(
            fields.iter().map(|field| Ok((field.key.clone(), outward(&field.value)?))).collect::<Result<_, String>>()?,
        ),
    })
}

/// `serde_json::to_vec_pretty` of a `serde_json::Value`: the bytes, or the text of the
/// error, are a function of the value alone.
#[verifier::external_body]
fn print_json(value: &Json) -> (printed: Result<Vec<u8>, String>)
    ensures
        match json_printed(json_view(*value)) {
            Ok(bytes) => printed matches Ok(printed) && printed@ == bytes,
            Err(text) => printed matches Err(reason) && reason@ == text,
        },
{
    serde_json::to_vec_pretty(&outward(value)?).map_err(|error| error.to_string())
}

/// The bytes of the file that a document is written to: the document and a line break.
pub fn document_bytes(document: &Json) -> (bytes: Result<Vec<u8>, String>)
    ensures
        match json_printed(json_view(*document)) {
            Ok(printed) => bytes matches Ok(bytes) && bytes@ == printed.push(10u8),
            Err(text) => bytes matches Err(reason) && reason@ == text,
        },
{
    match print_json(document) {
        Ok(printed) => {
            let mut bytes: Vec<u8> = printed;
            bytes.push(10u8);
            Ok(bytes)
        },
        Err(reason) => Err(reason),
    }
}

} // verus!
