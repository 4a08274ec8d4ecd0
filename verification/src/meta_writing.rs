//! The metadata that is written beside mapped source.

use crate::extraction::{metadata_of, metadata_properties};
use crate::place_values::utf8_text;
use crate::reflection::Reflection;
use crate::snapshot::Snapshot;
use crate::source_metadata::SourceError;
use crate::text::{ref_chars, ref_text};
use crate::text_map::{Plain, TextMap};
use crate::variant::{AttributeValue, AttributeView, Properties, Variant, VariantView};
use crate::{Ref, NO_REF};
use vstd::prelude::*;
use vstd::utf8::{decode_utf8, valid_utf8};

verus! {

/// The metadata of an instance. References are properties as well, written as text.
#[derive(Debug)]
pub struct MetaDocument {
    pub id: Option<String>,
    pub references: TextMap<String>,
    pub properties: Properties,
    pub attributes: Option<TextMap<AttributeValue>>,
}

/// How a reference is written.
pub open spec fn written_reference(target: Ref) -> Seq<char> {
    if target == NO_REF {
        "null"@
    } else {
        ref_chars(target)
    }
}

/// An attribute as it is written: bytes have to be text.
pub open spec fn written_attribute(value: AttributeView) -> Option<AttributeView> {
    match value {
        AttributeView::BinaryString(bytes) => if valid_utf8(bytes) {
            Some(AttributeView::String(decode_utf8(bytes)))
        } else {
            None
        },
        other => Some(other),
    }
}

/// Attributes that can all be written.
pub open spec fn is_writable(values: Map<Seq<char>, AttributeView>) -> bool {
    forall|name: Seq<char>| values.dom().contains(name) ==> written_attribute(#[trigger] values[name]) is Some
}

/// Attributes as they are written, as far as they are among the listed names.
pub open spec fn written_attributes(values: Map<Seq<char>, AttributeView>, names: Set<Seq<char>>) -> Map<
    Seq<char>,
    AttributeView,
> {
    Map::new(|name: Seq<char>| names.contains(name), |name: Seq<char>| written_attribute(values[name])->0)
}

/// The references among the listed properties.
pub open spec fn references_in(values: Map<Seq<char>, VariantView>, names: Set<Seq<char>>) -> Map<Seq<char>, Seq<char>> {
    Map::new(
        |name: Seq<char>| names.contains(name) && name != "Attributes"@ && values[name] is Ref,
        |name: Seq<char>| written_reference(values[name]->Ref_0),
    )
}

/// The listed properties other than references and attributes.
pub open spec fn values_in(values: Map<Seq<char>, VariantView>, names: Set<Seq<char>>) -> Map<Seq<char>, VariantView> {
    Map::new(
        |name: Seq<char>| names.contains(name) && name != "Attributes"@ && !(values[name] is Ref),
        |name: Seq<char>| values[name],
    )
}

/// What is written of the attributes of an instance, or why they cannot be.
pub open spec fn attributes_written(values: Map<Seq<char>, VariantView>) -> Result<
    Option<Map<Seq<char>, AttributeView>>,
    Seq<char>,
> {
    if !values.dom().contains("Attributes"@) {
        Ok(None)
    } else {
        match values["Attributes"@] {
            VariantView::Attributes(attributes) => if is_writable(attributes) {
                Ok(Some(written_attributes(attributes, attributes.dom())))
            } else {
                Err("mapped string attribute is not valid UTF-8"@)
            },
            _ => Err("Attributes metadata is invalid"@),
        }
    }
}

/// What attributes stand for.
pub open spec fn attributes_view(attributes: Option<TextMap<AttributeValue>>) -> Option<Map<Seq<char>, AttributeView>> {
    match attributes {
        Some(attributes) => Some(attributes.deep()),
        None => None,
    }
}

proof fn lemma_one_key_more(keys: Seq<Seq<char>>, at: int)
    requires
        0 <= at < keys.len(),
    ensures
        keys.take(at + 1).to_set() == keys.take(at).to_set().insert(keys[at]),
{
    assert forall|name: Seq<char>| keys.take(at + 1).to_set().contains(name) == keys.take(at).to_set().insert(
        keys[at],
    ).contains(name) by {
        if keys.take(at + 1).contains(name) {
            let k = keys.take(at + 1).index_of(name);
            if k < at {
                assert(keys.take(at)[k] == name);
            }
        }
        if keys.take(at).contains(name) {
            let k = keys.take(at).index_of(name);
            assert(keys.take(at + 1)[k] == name);
        }
        assert(keys.take(at + 1)[at] == keys[at]);
    }
    assert(keys.take(at + 1).to_set() =~= keys.take(at).to_set().insert(keys[at]));
}

fn write_attributes(values: &TextMap<AttributeValue>) -> (written: Option<TextMap<AttributeValue>>)
    ensures
        match written {
            Some(written) => is_writable(values.deep()) && written.deep() == written_attributes(
                values.deep(),
                values.deep().dom(),
            ),
            None => !is_writable(values.deep()),
        },
{
    let mut written: TextMap<AttributeValue> = TextMap::new();
    let count: usize = values.len();
    let ghost keys = values.keys();
    let ghost all = values.deep();
    proof {
        assert(keys.take(0).to_set() =~= Set::empty());
        assert(written.deep() =~= written_attributes(all, keys.take(0).to_set()));
    }
    let mut at: usize = 0;
    while at < count
        invariant
            at <= count,
            count == values.keys().len(),
            keys == values.keys(),
            all == values.deep(),
            values.listed(),
            forall|k: int| 0 <= k < at ==> written_attribute(all[#[trigger] keys[k]]) is Some,
            written.deep() == written_attributes(all, keys.take(at as int).to_set()),
        decreases count - at,
    {
        let name: &String = values.key_at(at);
        let value: &AttributeValue = values.value_at(at);
        let ghost before = written.deep();
        proof {
            assert(keys.contains(keys[at as int]));
            assert(values@.dom().contains(name@));
            assert(all.dom() =~= values@.dom());
            assert(all[name@] == value@);
            lemma_one_key_more(keys, at as int);
        }
        let kept: AttributeValue = match value {
            AttributeValue::BinaryString(bytes) => match utf8_text(bytes.as_slice()) {
                Some(text) => AttributeValue::String(text.to_owned()),
                None => {
                    proof {
                        assert(written_attribute(all[name@]) is None);
                    }
                    return None;
                },
            },
            _ => value.copy(),
        };
        proof {
            assert(written_attribute(all[name@]) == Some(kept@));
        }
        written.insert(name.clone(), kept);
        proof {
            assert(written.deep() =~= before.insert(name@, kept@));
            assert(written.deep() =~= written_attributes(all, keys.take(at + 1).to_set()));
        }
        at = at + 1;
    }
    proof {
        assert(keys.take(keys.len() as int) =~= keys);
        assert(all.dom() =~= values@.dom());
        assert(keys.to_set() =~= all.dom());
        assert forall|name: Seq<char>| all.dom().contains(name) implies written_attribute(#[trigger] all[name]) is Some by {
            assert(keys.to_set().contains(name));
            let k = keys.index_of(name);
            assert(written_attribute(all[keys[k]]) is Some);
        }
    }
    Some(written)
}

fn refused(text: &str) -> (error: SourceError)
    ensures
        error.message@ == text@,
{
    SourceError { message: text.to_owned() }
}

/// The metadata of an instance, with its identity where it has to be written down.
pub fn snapshot_meta(snapshot: &Snapshot, persist_id: bool, reflection: &Reflection) -> (meta: Result<
    MetaDocument,
    SourceError,
>)
    ensures
        ({
            let values = metadata_of(snapshot.node(), *reflection);
            match attributes_written(values) {
                Ok(attributes) => meta matches Ok(meta) && {
                    &&& attributes_view(meta.attributes) == attributes
                    &&& meta.references.deep() == references_in(values, values.dom())
                    &&& meta.properties.deep() == values_in(values, values.dom())
                    &&& if persist_id {
                        meta.id matches Some(id) && id@ == ref_chars(snapshot.id)
                    } else {
                        meta.id is None
                    }
                },
                Err(text) => meta matches Err(error) && error.message@ == text,
            }
        }),
{
    let kept: Properties = metadata_properties(snapshot, reflection);
    let ghost all = kept.deep();
    proof {
        assert(all.dom() =~= kept@.dom());
    }
    let attributes: Option<TextMap<AttributeValue>> = match kept.get("Attributes") {
        Some(value) => {
            proof {
                assert(all["Attributes"@] == value@);
            }
            match value {
                Variant::Attributes(values) => match write_attributes(values) {
                    Some(written) => Some(written),
                    None => {
                        return Err(refused("mapped string attribute is not valid UTF-8"));
                    },
                },
                _ => {
                    return Err(refused("Attributes metadata is invalid"));
                },
            }
        },
        None => None,
    };
    let mut references: TextMap<String> = TextMap::new();
    let mut properties: Properties = TextMap::new();
    let count: usize = kept.len();
    let ghost keys = kept.keys();
    proof {
        assert(keys.take(0).to_set() =~= Set::empty());
        assert(references.deep() =~= references_in(all, keys.take(0).to_set()));
        assert(properties.deep() =~= values_in(all, keys.take(0).to_set()));
    }
    let mut at: usize = 0;
    while at < count
        invariant
            at <= count,
            count == kept.keys().len(),
            keys == kept.keys(),
            all == kept.deep(),
            kept.listed(),
            references.deep() == references_in(all, keys.take(at as int).to_set()),
            properties.deep() == values_in(all, keys.take(at as int).to_set()),
        decreases count - at,
    {
        let name: &String = kept.key_at(at);
        let value: &Variant = kept.value_at(at);
        let ghost earlier_references = references.deep();
        let ghost earlier_values = properties.deep();
        proof {
            assert(keys.contains(keys[at as int]));
            assert(kept@.dom().contains(name@));
            assert(all.dom() =~= kept@.dom());
            assert(all[name@] == value@);
            lemma_one_key_more(keys, at as int);
        }
        if !name.as_str().eq("Attributes") {
            match value {
                Variant::Ref(target) => {
                    let text: String = if *target == NO_REF {
                        "null".to_owned()
                    } else {
                        ref_text(*target)
                    };
                    references.insert(name.clone(), text);
                    proof {
                        assert(references.deep() =~= earlier_references.insert(name@, text@));
                    }
                },
                _ => {
                    properties.insert(name.clone(), value.copy());
                    proof {
                        assert(properties.deep() =~= earlier_values.insert(name@, value@));
                    }
                },
            }
        }
        proof {
            assert(references.deep() =~= references_in(all, keys.take(at + 1).to_set()));
            assert(properties.deep() =~= values_in(all, keys.take(at + 1).to_set()));
        }
        at = at + 1;
    }
    proof {
        assert(keys.take(keys.len() as int) =~= keys);
        assert(keys.to_set() =~= all.dom());
    }
    let id: Option<String> = if persist_id {
        Some(ref_text(snapshot.id))
    } else {
        None
    };
    Ok(MetaDocument { id, references, properties, attributes })
}

} // verus!
