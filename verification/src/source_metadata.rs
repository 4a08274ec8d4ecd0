//! What is declared of mapped instances: identity, properties and attributes, and
//! how contributions of several sources come together.

use crate::hierarchy::{flat, flat_list};
use crate::names::{
    filesystem_like, fold_name, folded, identity_ref, is_filesystem_class, named_identity, referred, refused_attribute,
    resolve_reference, validate_attribute_name, validate_explicit_id,
};
use crate::project_document::refused_id;
use crate::reflection::{property_fault, validate_property, PropertyFault, Reflection};
use crate::snapshot::{lemma_children, nodes, NodeView, Snapshot};
use crate::text::joined;
use crate::text_map::{lemma_listed_keys, ordered_keys, Plain, TextMap};
use crate::variant::{AttributeValue, AttributeView, Properties, Variant, VariantView};
use crate::Ref;
use vstd::prelude::*;

verus! {

/// Why mapped source is refused.
#[derive(Debug)]
pub struct SourceError {
    pub message: String,
}

/// An error that reads so.
pub(crate) fn refused(message: String) -> (error: SourceError)
    ensures
        error.message == message,
{
    SourceError { message }
}

/// What is declared of an instance, its values resolved.
#[derive(Debug)]
pub struct Metadata {
    pub id: Option<String>,
    pub properties: Properties,
    pub attributes: TextMap<AttributeValue>,
}

// ---------------------------------------------------------------------------
// Properties and attributes

/// How the fault of a property reads.
pub open spec fn property_fault_text(class: Seq<char>, property: Seq<char>, fault: PropertyFault) -> Seq<char> {
    match fault {
        PropertyFault::Managed => "property "@ + class + "."@ + property
            + " is structurally or internally managed and cannot be hydrated"@,
        PropertyFault::UnknownClass => "unknown Roblox class "@ + class,
        PropertyFault::UnknownProperty => "unknown property "@ + class + "."@ + property,
        PropertyFault::Restricted => "property "@ + class + "."@ + property + " is hidden or security-restricted"@,
        PropertyFault::NotSerializable => "property "@ + class + "."@ + property + " is not serializable"@,
    }
}

fn property_fault_message(class: &str, property: &str, fault: PropertyFault) -> (message: String)
    ensures
        message@ == property_fault_text(class@, property@, fault),
{
    let qualified: String = joined(joined(joined("property ", class).as_str(), ".").as_str(), property);
    match fault {
        PropertyFault::Managed => joined(
            qualified.as_str(),
            " is structurally or internally managed and cannot be hydrated",
        ),
        PropertyFault::UnknownClass => joined("unknown Roblox class ", class),
        PropertyFault::UnknownProperty => joined(
            joined(joined("unknown property ", class).as_str(), ".").as_str(),
            property,
        ),
        PropertyFault::Restricted => joined(qualified.as_str(), " is hidden or security-restricted"),
        PropertyFault::NotSerializable => joined(qualified.as_str(), " is not serializable"),
    }
}

/// A value that is declared for a property, before it is known what the property holds.
#[derive(Debug)]
pub enum DeclaredValue {
    /// A reference that is declared as one.
    Reference(Ref),
    Text(String),
    Other,
}

/// What a value that is declared for a property becomes: a reference where the property
/// holds one, else what it was resolved to.
pub open spec fn mapped_property(
    reflection: Reflection,
    class: Seq<char>,
    property: Seq<char>,
    value: DeclaredValue,
    resolved: Result<VariantView, Seq<char>>,
) -> Result<VariantView, Seq<char>> {
    if reflection.property_of(class, property) matches Some(info) && info.reference {
        match value {
            DeclaredValue::Reference(target) => Ok(VariantView::Ref(target)),
            DeclaredValue::Text(target) => Ok(VariantView::Ref(referred(target@))),
            DeclaredValue::Other => Err(
                "reference property "@ + class + "."@ + property
                    + " must be a filesystem identity or manifest identity string"@,
            ),
        }
    } else {
        match resolved {
            Ok(value) => Ok(value),
            Err(reason) => Err("failed to resolve mapped property "@ + class + "."@ + property + ": "@ + reason),
        }
    }
}

/// Settles what a property of a mapped instance holds. What it would hold by its declared
/// value alone is given: only a reference is read otherwise.
pub fn resolve_mapped_property(
    reflection: &Reflection,
    class: &str,
    property: &str,
    value: &DeclaredValue,
    resolved: Result<Variant, String>,
) -> (result: Result<Variant, SourceError>)
    ensures
        match mapped_property(
            *reflection,
            class@,
            property@,
            *value,
            match resolved {
                Ok(value) => Ok(value@),
                Err(reason) => Err(reason@),
            },
        ) {
            Ok(expected) => result matches Ok(found) && found@ == expected,
            Err(text) => result matches Err(error) && error.message@ == text,
        },
{
    let reference: bool = match reflection.property_info(class, property) {
        Some(info) => info.reference,
        None => false,
    };
    if reference {
        return match value {
            DeclaredValue::Reference(target) => Ok(Variant::Ref(*target)),
            DeclaredValue::Text(target) => Ok(Variant::Ref(resolve_reference(target.as_str()))),
            DeclaredValue::Other => {
                let mut message: String = joined(joined("reference property ", class).as_str(), ".");
                message.append(property);
                message.append(" must be a filesystem identity or manifest identity string");
                Err(refused(message))
            },
        };
    }
    match resolved {
        Ok(value) => Ok(value),
        Err(reason) => {
            let mut message: String = joined(joined("failed to resolve mapped property ", class).as_str(), ".");
            message.append(property);
            message.append(": ");
            message.append(reason.as_str());
            Err(refused(message))
        },
    }
}

/// Why one of the named properties may not be declared for a class: the first that
/// may not.
pub open spec fn refused_properties(reflection: Reflection, class: Seq<char>, keys: Seq<Seq<char>>) -> Option<Seq<char>>
    decreases keys.len(),
{
    if keys.len() == 0 {
        None
    } else {
        match refused_properties(reflection, class, keys.drop_last()) {
            Some(text) => Some(text),
            None => match property_fault(reflection, class, keys.last()) {
                Some(fault) => Some(property_fault_text(class, keys.last(), fault)),
                None => None,
            },
        }
    }
}

proof fn lemma_refused_properties(reflection: Reflection, class: Seq<char>, keys: Seq<Seq<char>>, at: int)
    requires
        0 <= at <= keys.len(),
        refused_properties(reflection, class, keys.take(at)) is Some,
    ensures
        refused_properties(reflection, class, keys) == refused_properties(reflection, class, keys.take(at)),
    decreases keys.len(),
{
    if at == keys.len() {
        assert(keys.take(at) =~= keys);
    } else {
        assert(keys.drop_last().take(at) =~= keys.take(at));
        lemma_refused_properties(reflection, class, keys.drop_last(), at);
    }
}

fn check_properties(reflection: &Reflection, class: &str, properties: &Properties) -> (result: Result<(), SourceError>)
    ensures
        match refused_properties(*reflection, class@, ordered_keys(properties.deep().dom())) {
            Some(text) => result matches Err(error) && error.message@ == text,
            None => result is Ok,
        },
{
    let len: usize = properties.len();
    let ghost keys = properties.keys();
    proof {
        lemma_listed_keys(*properties);
        assert(properties.deep().dom() =~= properties@.dom());
        assert(keys.take(0) =~= Seq::empty());
    }
    let mut at: usize = 0;
    while at < len
        invariant
            at <= len,
            len == keys.len(),
            keys == properties.keys(),
            keys == ordered_keys(properties.deep().dom()),
            refused_properties(*reflection, class@, keys.take(at as int)) is None,
        decreases len - at,
    {
        let property: &String = properties.key_at(at);
        proof {
            assert(keys.take(at + 1).drop_last() =~= keys.take(at as int));
            assert(keys.take(at + 1).last() == property@);
        }
        match validate_property(reflection, class, property.as_str()) {
            Ok(()) => {},
            Err(fault) => {
                proof {
                    lemma_refused_properties(*reflection, class@, keys, at + 1);
                }
                return Err(refused(property_fault_message(class, property.as_str(), fault)));
            },
        }
        at = at + 1;
    }
    proof {
        assert(keys.take(len as int) =~= keys);
    }
    Ok(())
}

/// The type of an attribute that may not be declared.
pub open spec fn refused_attribute_kind(value: AttributeView) -> Option<Seq<char>> {
    match value {
        AttributeView::BinaryString(_) => Some("BinaryString"@),
        AttributeView::Opaque { kind, bytes: _ } => if kind == "Ref"@ || kind == "Attributes"@ || kind == "SharedString"@
            || kind == "Content"@ {
            Some(kind)
        } else {
            None
        },
        AttributeView::String(_) => None,
    }
}

/// Why one of the named attributes may not be declared: the first that may not.
pub open spec fn refused_attributes(values: Map<Seq<char>, AttributeView>, keys: Seq<Seq<char>>) -> Option<Seq<char>>
    decreases keys.len(),
{
    if keys.len() == 0 {
        None
    } else {
        match refused_attributes(values, keys.drop_last()) {
            Some(text) => Some(text),
            None => match refused_attribute(keys.last()) {
                Some(text) => Some(text),
                None => match refused_attribute_kind(values[keys.last()]) {
                    Some(kind) => Some("unsupported attribute value type "@ + kind + " for "@ + keys.last()),
                    None => None,
                },
            },
        }
    }
}

proof fn lemma_refused_attributes(values: Map<Seq<char>, AttributeView>, keys: Seq<Seq<char>>, at: int)
    requires
        0 <= at <= keys.len(),
        refused_attributes(values, keys.take(at)) is Some,
    ensures
        refused_attributes(values, keys) == refused_attributes(values, keys.take(at)),
    decreases keys.len(),
{
    if at == keys.len() {
        assert(keys.take(at) =~= keys);
    } else {
        assert(keys.drop_last().take(at) =~= keys.take(at));
        lemma_refused_attributes(values, keys.drop_last(), at);
    }
}

fn unsupported_kind(value: &AttributeValue) -> (kind: Option<String>)
    ensures
        match refused_attribute_kind(value@) {
            Some(expected) => kind matches Some(kind) && kind@ == expected,
            None => kind is None,
        },
{
    match value {
        AttributeValue::BinaryString(_) => Some("BinaryString".to_owned()),
        AttributeValue::Opaque { kind, bytes: _ } => if kind.as_str().eq("Ref") || kind.as_str().eq("Attributes")
            || kind.as_str().eq("SharedString") || kind.as_str().eq("Content") {
            Some(kind.clone())
        } else {
            None
        },
        AttributeValue::String(_) => None,
    }
}

fn check_attributes(attributes: &TextMap<AttributeValue>) -> (result: Result<(), SourceError>)
    ensures
        match refused_attributes(attributes.deep(), ordered_keys(attributes.deep().dom())) {
            Some(text) => result matches Err(error) && error.message@ == text,
            None => result is Ok,
        },
{
    let len: usize = attributes.len();
    let ghost keys = attributes.keys();
    proof {
        lemma_listed_keys(*attributes);
        assert(attributes.deep().dom() =~= attributes@.dom());
        assert(keys.take(0) =~= Seq::empty());
    }
    let mut at: usize = 0;
    while at < len
        invariant
            at <= len,
            len == keys.len(),
            keys == attributes.keys(),
            attributes.listed(),
            keys == ordered_keys(attributes.deep().dom()),
            refused_attributes(attributes.deep(), keys.take(at as int)) is None,
        decreases len - at,
    {
        let name: &String = attributes.key_at(at);
        let value: &AttributeValue = attributes.value_at(at);
        proof {
            assert(keys.take(at + 1).drop_last() =~= keys.take(at as int));
            assert(keys.take(at + 1).last() == name@);
            assert(keys.contains(name@));
            assert(attributes.deep()[name@] == value@);
        }
        match validate_attribute_name(name.as_str()) {
            Ok(()) => {},
            Err(error) => {
                proof {
                    lemma_refused_attributes(attributes.deep(), keys, at + 1);
                }
                return Err(refused(error.message()));
            },
        }
        match unsupported_kind(value) {
            Some(kind) => {
                proof {
                    lemma_refused_attributes(attributes.deep(), keys, at + 1);
                }
                return Err(
                    refused(
                        joined(
                            joined(
                                joined("unsupported attribute value type ", kind.as_str()).as_str(),
                                " for ",
                            ).as_str(),
                            name.as_str(),
                        ),
                    ),
                );
            },
            None => {},
        }
        at = at + 1;
    }
    proof {
        assert(keys.take(len as int) =~= keys);
    }
    Ok(())
}

/// The properties of an instance with declared ones taken over.
pub open spec fn with_values(
    properties: Map<Seq<char>, VariantView>,
    declared: Map<Seq<char>, VariantView>,
    attributes: Map<Seq<char>, AttributeView>,
) -> Map<Seq<char>, VariantView> {
    let all = properties.union_prefer_right(declared);
    if attributes.dom() =~= Set::empty() {
        all
    } else {
        all.insert("Attributes"@, VariantView::Attributes(attributes))
    }
}

/// An instance with declared values taken over, or why one of them is refused.
pub open spec fn valued(node: NodeView, declared: Metadata, class: Seq<char>, reflection: Reflection) -> Result<
    NodeView,
    Seq<char>,
> {
    match refused_properties(reflection, class, ordered_keys(declared.properties.deep().dom())) {
        Some(text) => Err(text),
        None => match refused_attributes(
            declared.attributes.deep(),
            ordered_keys(declared.attributes.deep().dom()),
        ) {
            Some(text) => Err(text),
            None => Ok(
                NodeView {
                    properties: with_values(node.properties, declared.properties.deep(), declared.attributes.deep()),
                    ..node
                },
            ),
        },
    }
}

/// Takes over declared values. A refused one leaves the instance as it was.
pub fn apply_values(snapshot: &mut Snapshot, declared: &Metadata, class: &str, reflection: &Reflection) -> (result:
    Result<(), SourceError>)
    ensures
        match valued(old(snapshot).node(), *declared, class@, *reflection) {
            Ok(expected) => result is Ok && final(snapshot).node() == expected,
            Err(text) => (result matches Err(error) && error.message@ == text) && *final(snapshot) == *old(snapshot),
        },
{
    match check_properties(reflection, class, &declared.properties) {
        Ok(()) => {},
        Err(error) => {
            return Err(error);
        },
    }
    match check_attributes(&declared.attributes) {
        Ok(()) => {},
        Err(error) => {
            return Err(error);
        },
    }
    let ghost before = snapshot.node();
    snapshot.properties.extend_from(&declared.properties);
    let count: usize = declared.attributes.len();
    proof {
        assert(declared.attributes.deep().dom() =~= declared.attributes@.dom());
        if count == 0 {
            assert(declared.attributes.keys() =~= Seq::empty());
            assert(declared.attributes.deep().dom() =~= Set::empty());
        } else {
            assert(declared.attributes.keys().to_set().contains(declared.attributes.keys()[0]));
        }
    }
    if count > 0 {
        let ghost now = snapshot.properties.deep();
        let copy: TextMap<AttributeValue> = declared.attributes.copy();
        snapshot.properties.insert("Attributes".to_owned(), Variant::Attributes(copy));
        proof {
            assert(snapshot.properties.deep() =~= now.insert(
                "Attributes"@,
                VariantView::Attributes(declared.attributes.deep()),
            ));
        }
    }
    proof {
        assert(snapshot.node().children =~= before.children);
        assert(snapshot.node() =~= NodeView {
            properties: with_values(before.properties, declared.properties.deep(), declared.attributes.deep()),
            ..before
        });
    }
    Ok(())
}

// ---------------------------------------------------------------------------
// Identities

/// Where an identity was declared.
pub type Identities = TextMap<String>;

/// An instance after what is declared of it is taken over, and the identities that
/// were declared so far.
pub open spec fn with_metadata(
    node: NodeView,
    declared: Metadata,
    class: Seq<char>,
    reflection: Reflection,
    ids: Map<Seq<char>, Seq<char>>,
) -> Result<(NodeView, Map<Seq<char>, Seq<char>>), Seq<char>> {
    let location = "project node "@ + node.name;
    match declared.id {
        Some(id) => match refused_id(id@) {
            Some(text) => Err(text),
            None => if ids.dom().contains(id@) {
                Err("duplicate filesystem identity '"@ + id@ + "' at "@ + ids[id@] + " and "@ + location)
            } else {
                match valued(NodeView { id: named_identity(id@), ..node }, declared, class, reflection) {
                    Ok(valued) => Ok((valued, ids.insert(id@, location))),
                    Err(text) => Err(text),
                }
            },
        },
        None => match valued(node, declared, class, reflection) {
            Ok(valued) => Ok((valued, ids)),
            Err(text) => Err(text),
        },
    }
}

/// Takes over what is declared of an instance. Each identity may be declared once.
pub fn apply_metadata(
    snapshot: Snapshot,
    declared: &Metadata,
    class: &str,
    reflection: &Reflection,
    ids: &mut Identities,
) -> (result: Result<Snapshot, SourceError>)
    ensures
        match with_metadata(snapshot.node(), *declared, class@, *reflection, old(ids).deep()) {
            Ok((node, after)) => (result matches Ok(found) && found.node() == node) && final(ids).deep() == after,
            Err(text) => result matches Err(error) && error.message@ == text,
        },
{
    let mut snapshot: Snapshot = snapshot;
    match &declared.id {
        Some(id) => {
            match validate_explicit_id(id.as_str()) {
                Ok(()) => {},
                Err(error) => {
                    return Err(refused(error.message()));
                },
            }
            let location: String = joined("project node ", snapshot.name.as_str());
            proof {
                assert(ids.deep().dom() =~= ids@.dom());
            }
            match ids.get(id.as_str()) {
                Some(previous) => {
                    return Err(
                        refused(
                            joined(
                                joined(
                                    joined(
                                        joined(
                                            joined("duplicate filesystem identity '", id.as_str()).as_str(),
                                            "' at ",
                                        ).as_str(),
                                        previous.as_str(),
                                    ).as_str(),
                                    " and ",
                                ).as_str(),
                                location.as_str(),
                            ),
                        ),
                    );
                },
                None => {},
            }
            let ghost before = ids.deep();
            let ghost place = location@;
            ids.insert(id.clone(), location);
            proof {
                assert(ids.deep() =~= before.insert(id@, place));
            }
            let ghost given = snapshot.node();
            snapshot.id = identity_ref(id.as_str());
            proof {
                assert(snapshot.node().children =~= given.children);
                assert(snapshot.node() =~= NodeView { id: named_identity(id@), ..given });
            }
        },
        None => {},
    }
    match apply_values(&mut snapshot, declared, class, reflection) {
        Ok(()) => Ok(snapshot),
        Err(error) => Err(error),
    }
}

// ---------------------------------------------------------------------------
// Merging

/// The place of the first child of a name.
pub open spec fn child_place(children: Seq<NodeView>, name: Seq<char>) -> Option<int>
    decreases children.len(),
{
    if children.len() == 0 {
        None
    } else {
        match child_place(children.drop_last(), name) {
            Some(place) => Some(place),
            None => if children.last().name == name {
                Some(children.len() - 1)
            } else {
                None
            },
        }
    }
}

pub proof fn lemma_child_place(children: Seq<NodeView>, name: Seq<char>, at: int)
    requires
        0 <= at < children.len(),
        children[at].name == name,
        forall|k: int| 0 <= k < at ==> (#[trigger] children[k]).name != name,
    ensures
        child_place(children, name) == Some(at),
    decreases children.len(),
{
    let rest = children.drop_last();
    if at < rest.len() {
        lemma_child_place(rest, name, at);
    } else {
        lemma_no_child(rest, name);
    }
}

pub proof fn lemma_no_child(children: Seq<NodeView>, name: Seq<char>)
    requires
        forall|k: int| 0 <= k < children.len() ==> (#[trigger] children[k]).name != name,
    ensures
        child_place(children, name) is None,
    decreases children.len(),
{
    if children.len() > 0 {
        lemma_no_child(children.drop_last(), name);
    }
}

/// The place of the first child of a name.
pub fn find_child(children: &Vec<Snapshot>, name: &str) -> (place: Option<usize>)
    ensures
        match child_place(nodes(children@), name@) {
            Some(expected) => place matches Some(place) && place == expected && place < children@.len(),
            None => place is None,
        },
{
    let mut at: usize = 0;
    while at < children.len()
        invariant
            at <= children@.len(),
            forall|k: int| 0 <= k < at ==> (#[trigger] nodes(children@)[k]).name != name@,
        decreases children@.len() - at,
    {
        if children[at].name.as_str().eq(name) {
            proof {
                assert(nodes(children@)[at as int].name == name@);
                lemma_child_place(nodes(children@), name@, at as int);
            }
            return Some(at);
        }
        proof {
            assert(nodes(children@)[at as int].name == children@[at as int].name@);
        }
        at = at + 1;
    }
    proof {
        lemma_no_child(nodes(children@), name@);
    }
    None
}

/// Two contributions to one instance: the properties of the second stand, and
/// children of the same name are merged in turn.
pub open spec fn merged(base: NodeView, overlay: NodeView) -> Result<NodeView, Seq<char>>
    decreases overlay,
{
    if base.name != overlay.name || base.class != overlay.class {
        Err("cannot merge different mapped instances"@)
    } else {
        match merged_children(base.children, overlay.children) {
            Ok(children) => Ok(
                NodeView {
                    properties: base.properties.union_prefer_right(overlay.properties),
                    children,
                    ..base
                },
            ),
            Err(text) => Err(text),
        }
    }
}

pub open spec fn merged_children(children: Seq<NodeView>, overlays: Seq<NodeView>) -> Result<Seq<NodeView>, Seq<char>>
    decreases overlays,
{
    if overlays.len() == 0 {
        Ok(children)
    } else {
        match merged_children(children, overlays.drop_last()) {
            Err(text) => Err(text),
            Ok(before) => match child_place(before, overlays.last().name) {
                Some(place) => match merged(before[place], overlays.last()) {
                    Ok(child) => Ok(before.update(place, child)),
                    Err(text) => Err(text),
                },
                None => Ok(before.push(overlays.last())),
            },
        }
    }
}

proof fn lemma_merge_fails(children: Seq<NodeView>, overlays: Seq<NodeView>, at: int)
    requires
        0 <= at <= overlays.len(),
        merged_children(children, overlays.take(at)) is Err,
    ensures
        merged_children(children, overlays) == merged_children(children, overlays.take(at)),
    decreases overlays.len(),
{
    if at == overlays.len() {
        assert(overlays.take(at) =~= overlays);
    } else {
        assert(overlays.drop_last().take(at) =~= overlays.take(at));
        lemma_merge_fails(children, overlays.drop_last(), at);
    }
}

/// Merges a second contribution into a first one.
pub fn merge_snapshots(base: &Snapshot, overlay: &Snapshot) -> (result: Result<Snapshot, SourceError>)
    ensures
        match merged(base.node(), overlay.node()) {
            Ok(expected) => result matches Ok(found) && found.node() == expected,
            Err(text) => result matches Err(error) && error.message@ == text,
        },
    decreases overlay,
{
    if !base.name.as_str().eq(overlay.name.as_str()) || !base.class.as_str().eq(overlay.class.as_str()) {
        return Err(refused("cannot merge different mapped instances".to_owned()));
    }
    let mut whole: Snapshot = base.clone();
    let ghost start = base.node();
    let ghost overlays = overlay.node().children;
    proof {
        lemma_children(*overlay);
        lemma_children(whole);
        assert(overlays.take(0) =~= Seq::empty());
        assert(nodes(whole.children@) =~= start.children);
    }
    let mut children: Vec<Snapshot> = Vec::new();
    std::mem::swap(&mut children, &mut whole.children);
    let mut at: usize = 0;
    while at < overlay.children.len()
        invariant
            at <= overlay.children@.len(),
            overlays == overlay.node().children,
            overlays.len() == overlay.children@.len(),
            forall|k: int| 0 <= k < overlays.len() ==> #[trigger] overlays[k] == overlay.children@[k].node(),
            merged_children(start.children, overlays.take(at as int)) == Ok::<Seq<NodeView>, Seq<char>>(
                nodes(children@),
            ),
            start == base.node(),
            start.name == overlay.node().name,
            start.class == overlay.node().class,
        decreases overlay.children@.len() - at,
    {
        let child: &Snapshot = &overlay.children[at];
        let ghost before = nodes(children@);
        proof {
            assert(overlays.take(at + 1).drop_last() =~= overlays.take(at as int));
            assert(overlays.take(at + 1).last() == child.node());
        }
        match find_child(&children, child.name.as_str()) {
            Some(place) => match merge_snapshots(&children[place], child) {
                Ok(merged_child) => {
                    let ghost view = merged_child.node();
                    children.set(place, merged_child);
                    proof {
                        assert(nodes(children@) =~= before.update(place as int, view));
                    }
                },
                Err(error) => {
                    proof {
                        lemma_merge_fails(start.children, overlays, at + 1);
                    }
                    return Err(error);
                },
            },
            None => {
                children.push(child.clone());
                proof {
                    assert(nodes(children@) =~= before.push(child.node()));
                }
            },
        }
        at = at + 1;
    }
    proof {
        assert(overlays.take(overlays.len() as int) =~= overlays);
    }
    let ghost all = nodes(children@);
    whole.properties.extend_from(&overlay.properties);
    whole.children = children;
    proof {
        lemma_children(whole);
        assert(whole.node().children =~= all);
    }
    Ok(whole)
}

// ---------------------------------------------------------------------------
// What source on disk can hold

/// Two siblings that file systems may take for the same: the first that falls
/// together with an earlier one, and that one.
pub open spec fn collision(children: Seq<NodeView>) -> Option<(int, int)>
    decreases children.len(),
{
    if children.len() == 0 {
        None
    } else {
        match collision(children.drop_last()) {
            Some(found) => Some(found),
            None => match fold_place(children.drop_last(), folded(children.last().name)) {
                Some(earlier) => Some((earlier, children.len() - 1)),
                None => None,
            },
        }
    }
}

/// The place of the first child whose name folds so.
pub open spec fn fold_place(children: Seq<NodeView>, fold: Seq<char>) -> Option<int>
    decreases children.len(),
{
    if children.len() == 0 {
        None
    } else {
        match fold_place(children.drop_last(), fold) {
            Some(place) => Some(place),
            None => if folded(children.last().name) == fold {
                Some(children.len() - 1)
            } else {
                None
            },
        }
    }
}

/// How a collision of siblings reads.
pub open spec fn collision_text(path: Seq<char>, earlier: NodeView, later: NodeView) -> Seq<char> {
    "portable filesystem sibling collision in "@ + path + ": "@ + earlier.class + " '"@ + earlier.name + "' and "@
        + later.class + " '"@ + later.name + "'"@
}

/// Why siblings cannot stand beside each other on disk.
pub open spec fn refused_siblings(children: Seq<NodeView>, path: Seq<char>) -> Option<Seq<char>> {
    match collision(children) {
        Some((earlier, later)) => Some(collision_text(path, children[earlier], children[later])),
        None => None,
    }
}

proof fn lemma_collision(children: Seq<NodeView>, at: int)
    requires
        0 <= at <= children.len(),
        collision(children.take(at)) is Some,
    ensures
        collision(children) == collision(children.take(at)),
    decreases children.len(),
{
    if at == children.len() {
        assert(children.take(at) =~= children);
    } else {
        assert(children.drop_last().take(at) =~= children.take(at));
        lemma_collision(children.drop_last(), at);
    }
}

proof fn lemma_fold_place(children: Seq<NodeView>, fold: Seq<char>)
    ensures
        match fold_place(children, fold) {
            Some(place) => 0 <= place < children.len() && folded(children[place].name) == fold && forall|k: int|
                0 <= k < place ==> folded((#[trigger] children[k]).name) != fold,
            None => forall|k: int| 0 <= k < children.len() ==> folded((#[trigger] children[k]).name) != fold,
        },
    decreases children.len(),
{
    if children.len() > 0 {
        let rest = children.drop_last();
        lemma_fold_place(rest, fold);
        assert(forall|k: int| 0 <= k < rest.len() ==> #[trigger] children[k] == rest[k]);
    }
}

/// Siblings whose names fold differently can stand beside each other.
pub proof fn lemma_no_collision(children: Seq<NodeView>)
    ensures
        collision(children) is None <==> forall|i: int, j: int|
            0 <= i < j < children.len() ==> folded(#[trigger] children[i].name) != folded(#[trigger] children[j].name),
    decreases children.len(),
{
    if children.len() > 0 {
        let rest = children.drop_last();
        let last = children.len() - 1;
        lemma_no_collision(rest);
        lemma_fold_place(rest, folded(children.last().name));
        assert(forall|k: int| 0 <= k < rest.len() ==> #[trigger] children[k] == rest[k]);
        if collision(children) is None {
            assert forall|i: int, j: int| 0 <= i < j < children.len() implies folded(#[trigger] children[i].name)
                != folded(#[trigger] children[j].name) by {
                assert(children[i] == rest[i]);
                if j < last {
                    assert(children[j] == rest[j]);
                    assert(folded(rest[i].name) != folded(rest[j].name));
                }
            }
        } else if collision(rest) is Some {
            let (i, j) = choose|i: int, j: int|
                0 <= i < j < rest.len() && folded(#[trigger] rest[i].name) == folded(#[trigger] rest[j].name);
            assert(folded(children[i].name) == folded(children[j].name));
        } else {
            let i = fold_place(rest, folded(children.last().name))->0;
            assert(folded(children[i].name) == folded(children[last].name));
        }
    }
}

fn find_text(list: &Vec<String>, text: &str) -> (place: Option<usize>)
    ensures
        match place {
            Some(place) => place < list@.len() && list@[place as int]@ == text@ && forall|k: int|
                0 <= k < place ==> (#[trigger] list@[k])@ != text@,
            None => forall|k: int| 0 <= k < list@.len() ==> (#[trigger] list@[k])@ != text@,
        },
{
    let mut at: usize = 0;
    while at < list.len()
        invariant
            at <= list@.len(),
            forall|k: int| 0 <= k < at ==> (#[trigger] list@[k])@ != text@,
        decreases list@.len() - at,
    {
        if list[at].as_str().eq(text) {
            return Some(at);
        }
        at = at + 1;
    }
    None
}

/// Whether siblings can stand beside each other on every file system.
pub fn validate_sibling_names(children: &Vec<Snapshot>, path: &str) -> (result: Result<(), SourceError>)
    ensures
        match refused_siblings(nodes(children@), path@) {
            Some(text) => result matches Err(error) && error.message@ == text,
            None => result is Ok,
        },
{
    let mut seen: Vec<String> = Vec::new();
    let ghost all = nodes(children@);
    let mut at: usize = 0;
    proof {
        assert(all.take(0) =~= Seq::empty());
    }
    while at < children.len()
        invariant
            at <= children@.len(),
            all == nodes(children@),
            seen@.len() == at,
            forall|k: int| 0 <= k < at ==> (#[trigger] seen@[k])@ == folded(all[k].name),
            collision(all.take(at as int)) is None,
        decreases children@.len() - at,
    {
        let fold: String = fold_name(children[at].name.as_str());
        proof {
            assert(all[at as int] == children@[at as int].node());
            assert(all.take(at + 1).drop_last() =~= all.take(at as int));
            assert(all.take(at + 1).last() == all[at as int]);
            lemma_fold_place(all.take(at as int), fold@);
        }
        match find_text(&seen, fold.as_str()) {
            Some(earlier) => {
                proof {
                    let found = fold_place(all.take(at as int), fold@);
                    assert(seen@[earlier as int]@ == folded(all.take(at as int)[earlier as int].name));
                    assert(found is Some);
                    if found->0 < earlier {
                        assert(seen@[found->0]@ == folded(all[found->0].name));
                    }
                    assert(found == Some(earlier as int));
                    assert(collision(all.take(at + 1)) == Some((earlier as int, at as int)));
                    lemma_collision(all, at + 1);
                    assert(all[earlier as int] == children@[earlier as int].node());
                }
                let first: &Snapshot = &children[earlier];
                let second: &Snapshot = &children[at];
                let mut message: String = "portable filesystem sibling collision in ".to_owned();
                message.append(path);
                message.append(": ");
                message.append(first.class.as_str());
                message.append(" '");
                message.append(first.name.as_str());
                message.append("' and ");
                message.append(second.class.as_str());
                message.append(" '");
                message.append(second.name.as_str());
                message.append("'");
                return Err(refused(message));
            },
            None => {},
        }
        proof {
            let found = fold_place(all.take(at as int), fold@);
            if found is Some {
                assert(seen@[found->0]@ == folded(all[found->0].name));
            }
            assert(found is None);
        }
        seen.push(fold);
        at = at + 1;
    }
    proof {
        assert(all.take(children@.len() as int) =~= all);
    }
    Ok(())
}

/// Why a hierarchy cannot stand on disk: a class that source cannot hold, or
/// siblings that fall together.
pub open spec fn refused_subtree(node: NodeView, path: Seq<char>) -> Option<Seq<char>>
    decreases node,
{
    if !filesystem_like(node.class) {
        Some("unsupported instance "@ + node.class + " '"@ + node.name + "' below mapping barrier "@ + path)
    } else {
        match refused_siblings(node.children, path) {
            Some(text) => Some(text),
            None => refused_subtrees(node.children, path),
        }
    }
}

pub open spec fn refused_subtrees(list: Seq<NodeView>, path: Seq<char>) -> Option<Seq<char>>
    decreases list,
{
    if list.len() == 0 {
        None
    } else {
        match refused_subtrees(list.drop_last(), path) {
            Some(text) => Some(text),
            None => refused_subtree(list.last(), path),
        }
    }
}

proof fn lemma_refused_subtrees(list: Seq<NodeView>, path: Seq<char>, at: int)
    requires
        0 <= at <= list.len(),
        refused_subtrees(list.take(at), path) is Some,
    ensures
        refused_subtrees(list, path) == refused_subtrees(list.take(at), path),
    decreases list.len(),
{
    if at == list.len() {
        assert(list.take(at) =~= list);
    } else {
        assert(list.drop_last().take(at) =~= list.take(at));
        lemma_refused_subtrees(list.drop_last(), path, at);
    }
}

/// Whether a hierarchy can stand on disk.
pub fn validate_filesystem_subtree(snapshot: &Snapshot, path: &str) -> (result: Result<(), SourceError>)
    ensures
        match refused_subtree(snapshot.node(), path@) {
            Some(text) => result matches Err(error) && error.message@ == text,
            None => result is Ok,
        },
    decreases snapshot,
{
    proof {
        lemma_children(*snapshot);
    }
    if !is_filesystem_class(snapshot.class.as_str()) {
        let mut message: String = "unsupported instance ".to_owned();
        message.append(snapshot.class.as_str());
        message.append(" '");
        message.append(snapshot.name.as_str());
        message.append("' below mapping barrier ");
        message.append(path);
        return Err(refused(message));
    }
    match validate_sibling_names(&snapshot.children, path) {
        Ok(()) => {},
        Err(error) => {
            return Err(error);
        },
    }
    let ghost list = snapshot.node().children;
    let mut at: usize = 0;
    proof {
        assert(list.take(0) =~= Seq::empty());
    }
    while at < snapshot.children.len()
        invariant
            at <= snapshot.children@.len(),
            list == snapshot.node().children,
            list.len() == snapshot.children@.len(),
            forall|k: int| 0 <= k < list.len() ==> #[trigger] list[k] == snapshot.children@[k].node(),
            filesystem_like(snapshot.class@),
            refused_siblings(list, path@) is None,
            refused_subtrees(list.take(at as int), path@) is None,
        decreases snapshot.children@.len() - at,
    {
        proof {
            assert(list.take(at + 1).drop_last() =~= list.take(at as int));
            assert(list.take(at + 1).last() == snapshot.children@[at as int].node());
        }
        match validate_filesystem_subtree(&snapshot.children[at], path) {
            Ok(()) => {},
            Err(error) => {
                proof {
                    lemma_refused_subtrees(list, path@, at + 1);
                }
                return Err(error);
            },
        }
        at = at + 1;
    }
    proof {
        assert(list.take(list.len() as int) =~= list);
    }
    Ok(())
}

/// A hierarchy that may stand on disk holds only classes that source can hold.
pub proof fn lemma_accepted_classes(node: NodeView, parent: Option<Ref>, path: Seq<char>)
    requires
        refused_subtree(node, path) is None,
    ensures
        forall|k: int|
            0 <= k < flat(node, parent).len() ==> filesystem_like(#[trigger] flat(node, parent)[k].node.class),
    decreases node, 1int,
{
    let list = flat(node, parent);
    let below = flat_list(node.children, Some(node.id));
    lemma_accepted_children(node.children, Some(node.id), path);
    assert forall|k: int| 0 <= k < list.len() implies filesystem_like(#[trigger] list[k].node.class) by {
        if k > 0 {
            assert(list[k] == below[k - 1]);
        } else {
            assert(list[0].node == node);
        }
    }
}

proof fn lemma_accepted_children(list: Seq<NodeView>, parent: Option<Ref>, path: Seq<char>)
    requires
        refused_subtrees(list, path) is None,
    ensures
        forall|k: int|
            0 <= k < flat_list(list, parent).len() ==> filesystem_like(
                #[trigger] flat_list(list, parent)[k].node.class,
            ),
    decreases list, 0int,
{
    if list.len() > 0 {
        let all = flat_list(list, parent);
        let before = flat_list(list.drop_last(), parent);
        let last = flat(list.last(), parent);
        lemma_accepted_children(list.drop_last(), parent, path);
        lemma_accepted_classes(list.last(), parent, path);
        assert forall|k: int| 0 <= k < all.len() implies filesystem_like(#[trigger] all[k].node.class) by {
            if k < before.len() {
                assert(all[k] == before[k]);
            } else {
                assert(all[k] == last[k - before.len()]);
            }
        }
    }
}

} // verus!
