//! What Studio may change while a project is served.
//!
//! Instances that are mapped to source files belong to the file system. A change
//! of Studio to one of them is let through only where it repeats what the source
//! says already.

use crate::attributes::{attributes_alike, mapped_attributes_equal};
use crate::hierarchy::{
    flat, flat_views, flatten_snapshot, index_flat, indexes, lemma_position, position, FlatNode, FlatView,
};
use crate::place::{property_of, value_view};
use crate::reflection::Reflection;
use crate::snapshot::{
    additions_view, lemma_children, nodes, same_raw, updates_view, AddedSnapshot, AdditionView, Changes, ChangesView,
    NodeView, Snapshot, UpdateView, UpdatedSnapshot,
};
use crate::text::{join, ref_chars, ref_text, same_bytes, separated, text_bytes, texts};
use crate::text_map::{lemma_listed_keys, ordered_keys, Plain, TextMap};
use crate::variant::{are_values_equal, values_equal, Properties, Variant, VariantView};
use crate::Ref;
use std::collections::{HashMap, HashSet};
use vstd::prelude::*;
use vstd::string::StringSliceAdditionalSpecFns;

verus! {

broadcast use vstd::std_specs::hash::group_hash_axioms;

// ---------------------------------------------------------------------------
// Values that stand for the same thing

/// A value, or the default that stands for it.
pub open spec fn or_default(
    reflection: Reflection,
    class: Seq<char>,
    name: Seq<char>,
    value: Option<VariantView>,
) -> Option<VariantView> {
    match value {
        Some(value) => Some(value),
        None => reflection.default_of(class, name),
    }
}

/// Two values of a property stand for the same thing: a default may be left out,
/// attributes may be serialized, and the source of a script may be carried as
/// bytes.
pub open spec fn mapped_equal(
    reflection: Reflection,
    class: Seq<char>,
    name: Seq<char>,
    left: Option<VariantView>,
    right: Option<VariantView>,
) -> bool {
    match (or_default(reflection, class, name, left), or_default(reflection, class, name, right)) {
        (Some(left), Some(right)) => if name == "Attributes"@ {
            attributes_alike(left, right)
        } else {
            match (left, right) {
                (VariantView::String(text), VariantView::BinaryString(bytes)) => name == "Source"@ && bytes
                    == text_bytes(text),
                (VariantView::BinaryString(bytes), VariantView::String(text)) => name == "Source"@ && bytes
                    == text_bytes(text),
                _ => values_equal(left, right),
            }
        },
        (None, None) => true,
        _ => false,
    }
}

/// Whether two values of a property stand for the same thing.
pub fn mapped_property_equal(
    reflection: &Reflection,
    class: &str,
    name: &str,
    left: Option<&Variant>,
    right: Option<&Variant>,
) -> (same: bool)
    ensures
        same == mapped_equal(*reflection, class@, name@, value_view(left), value_view(right)),
{
    let left: Option<&Variant> = match left {
        Some(value) => Some(value),
        None => reflection.reflection_default(class, name),
    };
    let right: Option<&Variant> = match right {
        Some(value) => Some(value),
        None => reflection.reflection_default(class, name),
    };
    match (left, right) {
        (Some(left), Some(right)) => {
            if name.eq("Attributes") {
                return mapped_attributes_equal(left, right);
            }
            match (left, right) {
                (Variant::String(text), Variant::BinaryString(bytes)) => name.eq("Source") && same_bytes(
                    bytes.as_slice(),
                    text.as_str().as_bytes(),
                ),
                (Variant::BinaryString(bytes), Variant::String(text)) => name.eq("Source") && same_bytes(
                    bytes.as_slice(),
                    text.as_str().as_bytes(),
                ),
                _ => are_values_equal(left, right),
            }
        },
        (None, None) => true,
        _ => false,
    }
}

/// Two sets of properties of a class stand for the same thing.
pub open spec fn maps_equal(
    reflection: Reflection,
    class: Seq<char>,
    left: Map<Seq<char>, VariantView>,
    right: Map<Seq<char>, VariantView>,
) -> bool {
    forall|name: Seq<char>|
        left.dom().contains(name) || right.dom().contains(name) ==> #[trigger] mapped_equal(
            reflection,
            class,
            name,
            property_of(left, name),
            property_of(right, name),
        )
}

fn all_equal_one_way(reflection: &Reflection, class: &str, left: &Properties, right: &Properties, flipped: bool) -> (same:
    bool)
    ensures
        same == forall|name: Seq<char>| #[trigger]
            left.deep().dom().contains(name) ==> if flipped {
                mapped_equal(
                    *reflection,
                    class@,
                    name,
                    property_of(right.deep(), name),
                    property_of(left.deep(), name),
                )
            } else {
                mapped_equal(
                    *reflection,
                    class@,
                    name,
                    property_of(left.deep(), name),
                    property_of(right.deep(), name),
                )
            },
{
    let len: usize = left.len();
    proof {
        assert(left.deep().dom() =~= left@.dom());
    }
    let mut at: usize = 0;
    while at < len
        invariant
            at <= len,
            len == left.keys().len(),
            left.listed(),
            left.deep().dom() == left@.dom(),
            forall|k: int|
                #![trigger left.keys()[k]]
                0 <= k < at ==> if flipped {
                    mapped_equal(
                        *reflection,
                        class@,
                        left.keys()[k],
                        property_of(right.deep(), left.keys()[k]),
                        property_of(left.deep(), left.keys()[k]),
                    )
                } else {
                    mapped_equal(
                        *reflection,
                        class@,
                        left.keys()[k],
                        property_of(left.deep(), left.keys()[k]),
                        property_of(right.deep(), left.keys()[k]),
                    )
                },
        decreases len - at,
    {
        let ghost name = left.keys()[at as int];
        proof {
            assert(left.keys().contains(name));
            assert(left.keys().to_set().contains(name));
            assert(left.deep().dom().contains(name));
            assert(left.deep()[name] == left@[name]@);
        }
        let key: &str = left.key_at(at).as_str();
        let own: Option<&Variant> = Some(left.value_at(at));
        let other: Option<&Variant> = crate::place::find_property(right, key);
        let same: bool = if flipped {
            mapped_property_equal(reflection, class, key, other, own)
        } else {
            mapped_property_equal(reflection, class, key, own, other)
        };
        if !same {
            return false;
        }
        at = at + 1;
    }
    proof {
        assert forall|name: Seq<char>| #[trigger] left.deep().dom().contains(name) implies if flipped {
            mapped_equal(
                *reflection,
                class@,
                name,
                property_of(right.deep(), name),
                property_of(left.deep(), name),
            )
        } else {
            mapped_equal(
                *reflection,
                class@,
                name,
                property_of(left.deep(), name),
                property_of(right.deep(), name),
            )
        } by {
            assert(left.keys().to_set().contains(name));
            let k = left.keys().index_of(name);
            assert(left.keys()[k] == name);
        }
    }
    true
}

/// Whether two sets of properties of a class stand for the same thing.
pub fn mapped_property_maps_equal(
    reflection: &Reflection,
    class: &str,
    left: &Properties,
    right: &Properties,
) -> (same: bool)
    ensures
        same == maps_equal(*reflection, class@, left.deep(), right.deep()),
{
    let forward: bool = all_equal_one_way(reflection, class, left, right, false);
    let backward: bool = all_equal_one_way(reflection, class, right, left, true);
    proof {
        if forward && backward {
            assert forall|name: Seq<char>|
                left.deep().dom().contains(name) || right.deep().dom().contains(name) implies #[trigger] mapped_equal(
                *reflection,
                class@,
                name,
                property_of(left.deep(), name),
                property_of(right.deep(), name),
            ) by {
                let _ = left.deep().dom().contains(name);
                let _ = right.deep().dom().contains(name);
            }
        }
        if maps_equal(*reflection, class@, left.deep(), right.deep()) {
            assert forall|name: Seq<char>| #[trigger] left.deep().dom().contains(name) implies mapped_equal(
                *reflection,
                class@,
                name,
                property_of(left.deep(), name),
                property_of(right.deep(), name),
            ) by {}
            assert forall|name: Seq<char>| #[trigger] right.deep().dom().contains(name) implies mapped_equal(
                *reflection,
                class@,
                name,
                property_of(left.deep(), name),
                property_of(right.deep(), name),
            ) by {}
        }
    }
    forward && backward
}

/// The last child with an identity.
pub open spec fn child_of(list: Seq<NodeView>, id: Ref) -> Option<NodeView>
    decreases list.len(),
{
    if list.len() == 0 {
        None
    } else if list.last().id == id {
        Some(list.last())
    } else {
        child_of(list.drop_last(), id)
    }
}

/// Two nodes stand for the same thing, whatever the order of their children.
pub open spec fn nodes_equal(reflection: Reflection, left: NodeView, right: NodeView) -> bool
    decreases left,
{
    &&& left.name == right.name
    &&& left.raw_name == right.raw_name
    &&& left.class == right.class
    &&& maps_equal(reflection, left.class, left.properties, right.properties)
    &&& left.children.len() == right.children.len()
    &&& forall|k: int|
        0 <= k < left.children.len() ==> (child_of(right.children, (#[trigger] left.children[k]).id) matches Some(
            other,
        ) && nodes_equal(reflection, left.children[k], other))
}

/// Children stand for the same thing, whatever their order.
pub open spec fn children_equal(reflection: Reflection, left: Seq<NodeView>, right: Seq<NodeView>) -> bool {
    &&& left.len() == right.len()
    &&& forall|k: int|
        0 <= k < left.len() ==> (child_of(right, (#[trigger] left[k]).id) matches Some(other) && nodes_equal(
            reflection,
            left[k],
            other,
        ))
}

fn find_child<'a>(list: &'a Vec<Snapshot>, id: Ref) -> (child: Option<&'a Snapshot>)
    ensures
        match child_of(nodes(list@), id) {
            Some(expected) => child matches Some(found) && found.node() == expected,
            None => child is None,
        },
{
    let ghost all = nodes(list@);
    let mut at: usize = list.len();
    proof {
        assert(all.take(all.len() as int) =~= all);
    }
    while at > 0
        invariant
            at <= list@.len(),
            all == nodes(list@),
            child_of(all, id) == child_of(all.take(at as int), id),
        decreases at,
    {
        proof {
            assert(all.take(at as int).drop_last() =~= all.take(at - 1));
            assert(all.take(at as int).last() == list@[at - 1].node());
        }
        at = at - 1;
        if list[at].id == id {
            return Some(&list[at]);
        }
    }
    None
}

fn same_node(reflection: &Reflection, left: &Snapshot, right: &Snapshot) -> (same: bool)
    ensures
        same == nodes_equal(*reflection, left.node(), right.node()),
    decreases left,
{
    proof {
        lemma_children(*left);
        lemma_children(*right);
    }
    if !left.name.as_str().eq(right.name.as_str()) || !same_raw(&left.raw_name, &right.raw_name)
        || !left.class.as_str().eq(right.class.as_str()) || !mapped_property_maps_equal(
        reflection,
        left.class.as_str(),
        &left.properties,
        &right.properties,
    ) || left.children.len() != right.children.len() {
        return false;
    }
    let ghost mine = left.node().children;
    let mut k: usize = 0;
    while k < left.children.len()
        invariant
            k <= left.children@.len(),
            mine == left.node().children,
            mine.len() == left.children@.len(),
            right.node().children == nodes(right.children@),
            forall|j: int| 0 <= j < mine.len() ==> #[trigger] mine[j] == left.children@[j].node(),
            forall|j: int|
                0 <= j < k ==> (child_of(right.node().children, (#[trigger] mine[j]).id) matches Some(other)
                    && nodes_equal(*reflection, mine[j], other)),
        decreases left.children@.len() - k,
    {
        proof {
            assert(mine[k as int] == left.children@[k as int].node());
        }
        match find_child(&right.children, left.children[k].id) {
            Some(other) => {
                if !same_node(reflection, &left.children[k], other) {
                    return false;
                }
            },
            None => {
                return false;
            },
        }
        k = k + 1;
    }
    true
}

/// Whether children stand for the same thing, whatever their order.
pub fn mapped_children_equal(reflection: &Reflection, left: &Vec<Snapshot>, right: &Vec<Snapshot>) -> (same: bool)
    ensures
        same == children_equal(*reflection, nodes(left@), nodes(right@)),
{
    if left.len() != right.len() {
        return false;
    }
    let ghost mine = nodes(left@);
    let mut k: usize = 0;
    while k < left.len()
        invariant
            k <= left@.len(),
            mine == nodes(left@),
            left@.len() == right@.len(),
            forall|j: int|
                0 <= j < k ==> (child_of(nodes(right@), (#[trigger] mine[j]).id) matches Some(other) && nodes_equal(
                    *reflection,
                    mine[j],
                    other,
                )),
        decreases left@.len() - k,
    {
        proof {
            assert(mine[k as int] == left@[k as int].node());
        }
        match find_child(right, left[k].id) {
            Some(other) => {
                if !same_node(reflection, &left[k], other) {
                    return false;
                }
            },
            None => {
                return false;
            },
        }
        k = k + 1;
    }
    true
}

// ---------------------------------------------------------------------------
// Echoes

/// The node of an identity with its parent, in a flat list.
pub open spec fn location(list: Seq<FlatView>, id: Ref) -> Option<FlatView> {
    match position(list, id) {
        Some(at) => Some(list[at]),
        None => None,
    }
}

/// An addition repeats what is there already.
pub open spec fn addition_echo(reflection: Reflection, canonical: Seq<FlatView>, addition: AdditionView) -> bool {
    match location(canonical, addition.node.id) {
        None => false,
        Some(found) => {
            &&& found.parent == Some(addition.parent)
            &&& addition.node.name == found.node.name
            &&& addition.node.raw_name == found.node.raw_name
            &&& addition.node.class == found.node.class
            &&& maps_equal(reflection, found.node.class, found.node.properties, addition.node.properties)
            &&& children_equal(reflection, found.node.children, addition.node.children)
        },
    }
}

/// A value that an update leaves alone or repeats.
pub open spec fn repeats<A>(value: Option<A>, present: Option<A>) -> bool {
    value is None || value == present
}

/// The listed properties repeat what is there already.
pub open spec fn properties_echo(
    reflection: Reflection,
    node: NodeView,
    properties: Map<Seq<char>, VariantView>,
) -> bool {
    forall|name: Seq<char>| #[trigger]
        properties.dom().contains(name) ==> mapped_equal(
            reflection,
            node.class,
            name,
            property_of(node.properties, name),
            Some(properties[name]),
        )
}

/// The removed properties are not there.
pub open spec fn removals_echo(reflection: Reflection, node: NodeView, names: Seq<Seq<char>>) -> bool {
    forall|k: int|
        0 <= k < names.len() ==> mapped_equal(
            reflection,
            node.class,
            #[trigger] names[k],
            property_of(node.properties, names[k]),
            None,
        )
}

/// An update repeats what is there already.
pub open spec fn update_echo(reflection: Reflection, canonical: Seq<FlatView>, update: UpdateView) -> bool {
    match location(canonical, update.id) {
        None => false,
        Some(found) => {
            &&& repeats(update.parent, found.parent)
            &&& repeats(update.name, Some(found.node.name))
            &&& repeats(update.raw_name, found.node.raw_name)
            &&& repeats(update.class, Some(found.node.class))
            &&& (update.properties matches Some(properties) ==> properties_echo(reflection, found.node, properties))
            &&& removals_echo(reflection, found.node, update.removed_properties)
        },
    }
}

/// The flat list of a snapshot with the places of its identities.
pub struct Canonical<'a> {
    list: Vec<FlatNode<'a>>,
    index: HashMap<u128, usize>,
}

impl<'a> Canonical<'a> {
    pub closed spec fn flat(self) -> Seq<FlatView> {
        flat_views(self.list@)
    }

    pub closed spec fn wf(self) -> bool {
        indexes(self.index@, self.flat())
    }

    /// The nodes of a snapshot by identity.
    pub fn of(snapshot: &'a Snapshot) -> (canonical: Self)
        ensures
            canonical.wf(),
            canonical.flat() == flat(snapshot.node(), None),
    {
        let list: Vec<FlatNode<'a>> = flatten_snapshot(snapshot);
        let index: HashMap<u128, usize> = index_flat(&list);
        Canonical { list, index }
    }

    /// The node of an identity with its parent.
    pub fn find(&self, id: Ref) -> (found: Option<&FlatNode<'a>>)
        requires
            self.wf(),
        ensures
            match location(self.flat(), id) {
                Some(expected) => found matches Some(node) && node@ == expected,
                None => found is None,
            },
    {
        proof {
            lemma_position(self.flat(), id);
        }
        match self.index.get(&id) {
            Some(at) => {
                proof {
                    assert(self.index@.dom().contains(id));
                    assert(self.flat()[*at as int] == self.list@[*at as int]@);
                }
                Some(&self.list[*at])
            },
            None => {
                proof {
                    assert(!self.index@.dom().contains(id));
                }
                None
            },
        }
    }
}

fn is_addition_echo(reflection: &Reflection, canonical: &Canonical, addition: &AddedSnapshot) -> (echo: bool)
    requires
        canonical.wf(),
    ensures
        echo == addition_echo(*reflection, canonical.flat(), addition@),
{
    match canonical.find(addition.id) {
        None => false,
        Some(found) => {
            proof {
                lemma_children(*found.snapshot);
            }
            let parent: bool = match found.parent {
                Some(parent) => parent == addition.parent,
                None => false,
            };
            parent && addition.name.as_str().eq(found.snapshot.name.as_str()) && same_raw(
                &addition.raw_name,
                &found.snapshot.raw_name,
            ) && addition.class.as_str().eq(found.snapshot.class.as_str()) && mapped_property_maps_equal(
                reflection,
                found.snapshot.class.as_str(),
                &found.snapshot.properties,
                &addition.properties,
            ) && mapped_children_equal(reflection, &found.snapshot.children, &addition.children)
        },
    }
}

fn properties_repeat(reflection: &Reflection, node: &Snapshot, properties: &Properties) -> (echo: bool)
    ensures
        echo == properties_echo(*reflection, node.node(), properties.deep()),
{
    let len: usize = properties.len();
    proof {
        assert(properties.deep().dom() =~= properties@.dom());
    }
    let mut at: usize = 0;
    while at < len
        invariant
            at <= len,
            len == properties.keys().len(),
            properties.listed(),
            properties.deep().dom() == properties@.dom(),
            forall|k: int|
                #![trigger properties.keys()[k]]
                0 <= k < at ==> mapped_equal(
                    *reflection,
                    node.class@,
                    properties.keys()[k],
                    property_of(node.properties.deep(), properties.keys()[k]),
                    Some(properties.deep()[properties.keys()[k]]),
                ),
        decreases len - at,
    {
        let ghost name = properties.keys()[at as int];
        proof {
            assert(properties.keys().contains(name));
            assert(properties.keys().to_set().contains(name));
            assert(properties.deep().dom().contains(name));
            assert(properties.deep()[name] == properties@[name]@);
        }
        let key: &str = properties.key_at(at).as_str();
        if !mapped_property_equal(
            reflection,
            node.class.as_str(),
            key,
            crate::place::find_property(&node.properties, key),
            Some(properties.value_at(at)),
        ) {
            return false;
        }
        at = at + 1;
    }
    proof {
        assert forall|name: Seq<char>| #[trigger] properties.deep().dom().contains(name) implies mapped_equal(
            *reflection,
            node.class@,
            name,
            property_of(node.properties.deep(), name),
            Some(properties.deep()[name]),
        ) by {
            assert(properties.keys().to_set().contains(name));
            let k = properties.keys().index_of(name);
            assert(properties.keys()[k] == name);
        }
    }
    true
}

fn removals_repeat(reflection: &Reflection, node: &Snapshot, names: &Vec<String>) -> (echo: bool)
    ensures
        echo == removals_echo(*reflection, node.node(), texts(names@)),
{
    let ghost all = texts(names@);
    let mut at: usize = 0;
    while at < names.len()
        invariant
            at <= names@.len(),
            all == texts(names@),
            forall|k: int|
                0 <= k < at ==> mapped_equal(
                    *reflection,
                    node.class@,
                    #[trigger] all[k],
                    property_of(node.properties.deep(), all[k]),
                    None,
                ),
        decreases names@.len() - at,
    {
        proof {
            assert(all[at as int] == names@[at as int]@);
        }
        if !mapped_property_equal(
            reflection,
            node.class.as_str(),
            names[at].as_str(),
            crate::place::find_property(&node.properties, names[at].as_str()),
            None,
        ) {
            return false;
        }
        at = at + 1;
    }
    true
}

fn parent_repeats(update: &UpdatedSnapshot, found: &FlatNode) -> (echo: bool)
    ensures
        echo == repeats(update@.parent, found@.parent),
{
    match (update.parent, found.parent) {
        (None, _) => true,
        (Some(parent), Some(present)) => parent == present,
        _ => false,
    }
}

fn name_repeats(update: &UpdatedSnapshot, found: &FlatNode) -> (echo: bool)
    ensures
        echo == repeats(update@.name, Some(found@.node.name)),
{
    match &update.name {
        None => true,
        Some(name) => name.as_str().eq(found.snapshot.name.as_str()),
    }
}

fn raw_name_repeats(update: &UpdatedSnapshot, found: &FlatNode) -> (echo: bool)
    ensures
        echo == repeats(update@.raw_name, found@.node.raw_name),
{
    update.raw_name.is_none() || same_raw(&update.raw_name, &found.snapshot.raw_name)
}

fn class_repeats(update: &UpdatedSnapshot, found: &FlatNode) -> (echo: bool)
    ensures
        echo == repeats(update@.class, Some(found@.node.class)),
{
    match &update.class {
        None => true,
        Some(class) => class.as_str().eq(found.snapshot.class.as_str()),
    }
}

fn is_update_echo(reflection: &Reflection, canonical: &Canonical, update: &UpdatedSnapshot) -> (echo: bool)
    requires
        canonical.wf(),
    ensures
        echo == update_echo(*reflection, canonical.flat(), update@),
{
    match canonical.find(update.id) {
        None => false,
        Some(found) => {
            if !parent_repeats(update, found) || !name_repeats(update, found) || !raw_name_repeats(update, found)
                || !class_repeats(update, found) {
                return false;
            }
            let properties: bool = match &update.properties {
                Some(properties) => properties_repeat(reflection, found.snapshot, properties),
                None => true,
            };
            properties && removals_repeat(reflection, found.snapshot, &update.removed_properties)
        },
    }
}

// ---------------------------------------------------------------------------
// Updates in words

fn prefixed(prefix: &str, text: &str) -> (joined: String)
    ensures
        joined@ == prefix@ + text@,
{
    crate::text::joined(prefix, text)
}

/// Names with a word before each.
pub open spec fn worded(word: Seq<char>, names: Seq<Seq<char>>) -> Seq<Seq<char>> {
    names.map_values(|name: Seq<char>| word + name)
}

/// A field, where it counts.
pub open spec fn field(counts: bool, name: Seq<char>) -> Seq<Seq<char>> {
    if counts {
        seq![name]
    } else {
        Seq::empty()
    }
}

/// Fields with commas between them.
pub open spec fn listed_fields(fields: Seq<Seq<char>>, none: Seq<char>) -> Seq<char> {
    if fields.len() == 0 {
        none
    } else {
        separated(fields, ", "@)
    }
}

/// The names of properties in order.
pub open spec fn sparse_names(properties: Option<Map<Seq<char>, VariantView>>) -> Seq<Seq<char>> {
    match properties {
        Some(properties) => ordered_keys(properties.dom()),
        None => Seq::empty(),
    }
}

/// What an update sets, in words.
pub open spec fn update_described(update: UpdateView) -> Seq<char> {
    listed_fields(
        field(update.parent is Some, "parent"@) + field(update.name is Some, "name"@) + field(
            update.class is Some,
            "class"@,
        ) + worded("property "@, sparse_names(update.properties)) + worded(
            "removed property "@,
            update.removed_properties,
        ),
        "empty update"@,
    )
}

/// The listed properties that an update sets to something else.
pub open spec fn changed_names(
    reflection: Reflection,
    node: NodeView,
    properties: Map<Seq<char>, VariantView>,
    names: Seq<Seq<char>>,
) -> Seq<Seq<char>> {
    names.filter(
        |name: Seq<char>|
            !mapped_equal(
                reflection,
                node.class,
                name,
                property_of(node.properties, name),
                Some(properties[name]),
            ),
    )
}

/// The listed properties that an update removes though they are there.
pub open spec fn removed_names(reflection: Reflection, node: NodeView, names: Seq<Seq<char>>) -> Seq<Seq<char>> {
    names.filter(
        |name: Seq<char>|
            !mapped_equal(reflection, node.class, name, property_of(node.properties, name), None),
    )
}

/// What an update changes, in words.
pub open spec fn change_described(reflection: Reflection, canonical: Seq<FlatView>, update: UpdateView) -> Seq<char> {
    match location(canonical, update.id) {
        None => update_described(update),
        Some(found) => listed_fields(
            field(!repeats(update.parent, found.parent), "parent"@) + field(
                !repeats(update.name, Some(found.node.name)),
                "name"@,
            ) + field(!repeats(update.raw_name, found.node.raw_name), "rawName"@) + field(
                !repeats(update.class, Some(found.node.class)),
                "class"@,
            ) + worded(
                "property "@,
                match update.properties {
                    Some(properties) => changed_names(
                        reflection,
                        found.node,
                        properties,
                        ordered_keys(properties.dom()),
                    ),
                    None => Seq::empty(),
                },
            ) + worded("removed property "@, removed_names(reflection, found.node, update.removed_properties)),
            "noncanonical wire representation"@,
        ),
    }
}

fn push_field(fields: &mut Vec<String>, counts: bool, name: &str)
    ensures
        texts(final(fields)@) == texts(old(fields)@) + field(counts, name@),
{
    if counts {
        fields.push(name.to_owned());
    }
    proof {
        assert(texts(fields@) =~= texts(old(fields)@) + field(counts, name@));
    }
}

fn push_worded(fields: &mut Vec<String>, word: &str, names: &Vec<String>)
    ensures
        texts(final(fields)@) == texts(old(fields)@) + worded(word@, texts(names@)),
{
    let ghost start = texts(fields@);
    let ghost all = worded(word@, texts(names@));
    let mut at: usize = 0;
    proof {
        assert(start + all.take(0) =~= start);
    }
    while at < names.len()
        invariant
            at <= names@.len(),
            all == worded(word@, texts(names@)),
            texts(fields@) == start + all.take(at as int),
        decreases names@.len() - at,
    {
        let ghost before = texts(fields@);
        fields.push(prefixed(word, names[at].as_str()));
        proof {
            assert(texts(fields@) =~= before.push(all[at as int]));
            assert(start + all.take(at + 1) =~= (start + all.take(at as int)).push(all[at as int]));
        }
        at = at + 1;
    }
    proof {
        assert(all.take(names@.len() as int) =~= all);
    }
}

fn list_fields(fields: &Vec<String>, none: &str) -> (text: String)
    ensures
        text@ == listed_fields(texts(fields@), none@),
{
    proof {
        assert(texts(fields@).len() == fields@.len());
    }
    if fields.len() == 0 {
        none.to_owned()
    } else {
        join(fields, ", ")
    }
}

fn key_list<V: Plain>(map: &TextMap<V>) -> (names: Vec<String>)
    ensures
        texts(names@) == ordered_keys(map.deep().dom()),
{
    let mut names: Vec<String> = Vec::new();
    let len: usize = map.len();
    let mut at: usize = 0;
    while at < len
        invariant
            at <= len,
            len == map.keys().len(),
            map.listed(),
            names@.len() == at,
            forall|k: int| 0 <= k < at ==> (#[trigger] names@[k])@ == map.keys()[k],
        decreases len - at,
    {
        names.push(map.key_at(at).clone());
        at = at + 1;
    }
    proof {
        lemma_listed_keys(*map);
        assert(map.deep().dom() =~= map@.dom());
        assert(texts(names@) =~= map.keys());
    }
    names
}

fn describe_update(update: &UpdatedSnapshot) -> (text: String)
    ensures
        text@ == update_described(update@),
{
    let mut fields: Vec<String> = Vec::new();
    proof {
        assert(texts(fields@) =~= Seq::empty());
    }
    push_field(&mut fields, update.parent.is_some(), "parent");
    push_field(&mut fields, update.name.is_some(), "name");
    push_field(&mut fields, update.class.is_some(), "class");
    let names: Vec<String> = match &update.properties {
        Some(properties) => key_list(properties),
        None => Vec::new(),
    };
    proof {
        if update.properties is None {
            assert(texts(names@) =~= Seq::empty());
        }
    }
    push_worded(&mut fields, "property ", &names);
    push_worded(&mut fields, "removed property ", &update.removed_properties);
    proof {
        let view = update@;
        assert(texts(fields@) =~= field(view.parent is Some, "parent"@) + field(view.name is Some, "name"@) + field(
            view.class is Some,
            "class"@,
        ) + worded("property "@, sparse_names(view.properties)) + worded(
            "removed property "@,
            view.removed_properties,
        ));
    }
    list_fields(&fields, "empty update")
}

fn find_changed_names(reflection: &Reflection, node: &Snapshot, properties: &Properties) -> (names: Vec<String>)
    ensures
        texts(names@) == changed_names(
            *reflection,
            node.node(),
            properties.deep(),
            ordered_keys(properties.deep().dom()),
        ),
{
    reveal(Seq::filter);
    let mut names: Vec<String> = Vec::new();
    let len: usize = properties.len();
    let ghost keys = properties.keys();
    let ghost view = node.node();
    proof {
        lemma_listed_keys(*properties);
        assert(properties.deep().dom() =~= properties@.dom());
        assert(keys.take(0) =~= Seq::empty());
        assert(texts(names@) =~= changed_names(*reflection, view, properties.deep(), keys.take(0)));
    }
    let mut at: usize = 0;
    while at < len
        invariant
            at <= len,
            len == keys.len(),
            keys == properties.keys(),
            view == node.node(),
            properties.listed(),
            texts(names@) == changed_names(*reflection, view, properties.deep(), keys.take(at as int)),
        decreases len - at,
    {
        reveal(Seq::filter);
        let ghost before = texts(names@);
        proof {
            assert(keys.contains(keys[at as int]));
            assert(keys.to_set().contains(keys[at as int]));
            assert(properties.deep()[keys[at as int]] == properties@[keys[at as int]]@);
            assert(keys.take(at + 1).drop_last() =~= keys.take(at as int));
        }
        let key: &str = properties.key_at(at).as_str();
        if !mapped_property_equal(
            reflection,
            node.class.as_str(),
            key,
            crate::place::find_property(&node.properties, key),
            Some(properties.value_at(at)),
        ) {
            names.push(key.to_owned());
            proof {
                assert(texts(names@) =~= before.push(keys[at as int]));
            }
        }
        at = at + 1;
    }
    proof {
        assert(keys.take(len as int) =~= keys);
    }
    names
}

fn find_removed_names(reflection: &Reflection, node: &Snapshot, list: &Vec<String>) -> (names: Vec<String>)
    ensures
        texts(names@) == removed_names(*reflection, node.node(), texts(list@)),
{
    reveal(Seq::filter);
    let mut names: Vec<String> = Vec::new();
    let ghost all = texts(list@);
    let ghost view = node.node();
    proof {
        assert(all.take(0) =~= Seq::empty());
        assert(texts(names@) =~= removed_names(*reflection, view, all.take(0)));
    }
    let mut at: usize = 0;
    while at < list.len()
        invariant
            at <= list@.len(),
            all == texts(list@),
            view == node.node(),
            texts(names@) == removed_names(*reflection, view, all.take(at as int)),
        decreases list@.len() - at,
    {
        reveal(Seq::filter);
        let ghost before = texts(names@);
        proof {
            assert(all.take(at + 1).drop_last() =~= all.take(at as int));
            assert(all.take(at + 1).last() == list@[at as int]@);
        }
        if !mapped_property_equal(
            reflection,
            node.class.as_str(),
            list[at].as_str(),
            crate::place::find_property(&node.properties, list[at].as_str()),
            None,
        ) {
            names.push(list[at].clone());
            proof {
                assert(texts(names@) =~= before.push(list@[at as int]@));
            }
        }
        at = at + 1;
    }
    proof {
        assert(all.take(list@.len() as int) =~= all);
    }
    names
}

fn describe_noncanonical_update(reflection: &Reflection, canonical: &Canonical, update: &UpdatedSnapshot) -> (text:
    String)
    requires
        canonical.wf(),
    ensures
        text@ == change_described(*reflection, canonical.flat(), update@),
{
    match canonical.find(update.id) {
        None => describe_update(update),
        Some(found) => {
            let mut fields: Vec<String> = Vec::new();
            proof {
                assert(texts(fields@) =~= Seq::empty());
            }
            push_field(&mut fields, !parent_repeats(update, found), "parent");
            push_field(&mut fields, !name_repeats(update, found), "name");
            push_field(&mut fields, !raw_name_repeats(update, found), "rawName");
            push_field(&mut fields, !class_repeats(update, found), "class");
            let changed: Vec<String> = match &update.properties {
                Some(properties) => find_changed_names(reflection, found.snapshot, properties),
                None => Vec::new(),
            };
            proof {
                if update.properties is None {
                    assert(texts(changed@) =~= Seq::empty());
                }
            }
            push_worded(&mut fields, "property ", &changed);
            let removed: Vec<String> = find_removed_names(reflection, found.snapshot, &update.removed_properties);
            push_worded(&mut fields, "removed property ", &removed);
            proof {
                let view = update@;
                let there = found@;
                assert(texts(fields@) =~= field(!repeats(view.parent, there.parent), "parent"@) + field(
                    !repeats(view.name, Some(there.node.name)),
                    "name"@,
                ) + field(!repeats(view.raw_name, there.node.raw_name), "rawName"@) + field(
                    !repeats(view.class, Some(there.node.class)),
                    "class"@,
                ) + worded(
                    "property "@,
                    match view.properties {
                        Some(properties) => changed_names(
                            *reflection,
                            there.node,
                            properties,
                            ordered_keys(properties.dom()),
                        ),
                        None => Seq::empty(),
                    },
                ) + worded("removed property "@, removed_names(*reflection, there.node, view.removed_properties)));
            }
            list_fields(&fields, "noncanonical wire representation")
        },
    }
}

// ---------------------------------------------------------------------------
// The policy

/// Which instances belong to the file system while a project is served.
#[derive(Debug)]
pub struct LivePolicy {
    pub project_path: String,
    pub project_document: Vec<u8>,
    pub composite_manifest: String,
    pub mapped_refs: HashSet<u128>,
    pub retired_mapped_refs: HashSet<u128>,
    pub mapped_roots: Vec<Ref>,
    pub mapped_watch_roots: Vec<String>,
    pub routing_refs: HashSet<u128>,
}

/// Changes that were refused, and why.
#[derive(Debug)]
pub struct RejectedChanges {
    pub reasons: Vec<String>,
}

impl RejectedChanges {
    pub fn message(&self) -> (text: String)
        ensures
            text@ == "unsupported Studio change rejected; mapped project source is authoritative: "@ + separated(
                texts(self.reasons@),
                "; "@,
            ),
    {
        prefixed(
            "unsupported Studio change rejected; mapped project source is authoritative: ",
            join(&self.reasons, "; ").as_str(),
        )
    }
}

/// What a policy reads of the served hierarchy.
pub struct PolicyView {
    pub reflection: Reflection,
    pub canonical: Seq<FlatView>,
    pub mapped: Set<Ref>,
    pub retired: Set<Ref>,
    pub routing: Set<Ref>,
}

/// An addition that is neither of a retired identity nor an echo.
pub open spec fn addition_kept(policy: PolicyView, addition: AdditionView) -> bool {
    &&& !policy.retired.contains(addition.node.id)
    &&& !policy.retired.contains(addition.parent)
    &&& !policy.mapped.contains(addition.parent) || !addition_echo(policy.reflection, policy.canonical, addition)
}

/// An update that is neither of a retired identity nor an echo.
pub open spec fn update_kept(policy: PolicyView, update: UpdateView) -> bool {
    &&& !policy.retired.contains(update.id)
    &&& (!policy.routing.contains(update.id) && !policy.mapped.contains(update.id)) || !update_echo(
        policy.reflection,
        policy.canonical,
        update,
    )
}

/// What is left of changes without retired identities and echoes.
pub open spec fn kept_changes(policy: PolicyView, changes: ChangesView) -> ChangesView {
    ChangesView {
        additions: changes.additions.filter(|addition: AdditionView| addition_kept(policy, addition)),
        updates: changes.updates.filter(|update: UpdateView| update_kept(policy, update)),
        removals: changes.removals.filter(|id: Ref| !policy.retired.contains(id)),
    }
}

/// Why an addition is refused.
pub open spec fn addition_reasons(policy: PolicyView, list: Seq<AdditionView>) -> Seq<Seq<char>>
    decreases list.len(),
{
    if list.len() == 0 {
        Seq::empty()
    } else {
        let addition = list.last();
        addition_reasons(policy, list.drop_last()) + field(
            policy.mapped.contains(addition.parent),
            "creation of "@ + addition.node.class + " '"@ + addition.node.name
                + "' beneath a filesystem-owned mapping barrier"@,
        )
    }
}

/// Why updates are refused.
pub open spec fn update_reasons(policy: PolicyView, list: Seq<UpdateView>) -> Seq<Seq<char>>
    decreases list.len(),
{
    if list.len() == 0 {
        Seq::empty()
    } else {
        let update = list.last();
        let fields = change_described(policy.reflection, policy.canonical, update);
        update_reasons(policy, list.drop_last()) + field(
            policy.mapped.contains(update.id),
            "mutation of filesystem-owned instance "@ + ref_chars(update.id) + " ("@ + fields + ")"@,
        ) + field(
            update.parent matches Some(parent) && policy.mapped.contains(parent),
            "move of instance "@ + ref_chars(update.id) + " beneath a filesystem-owned mapping barrier"@,
        ) + field(
            policy.routing.contains(update.id) && (update.parent is Some || update.name is Some
                || update.class is Some),
            "structural mutation of engine mapping route instance "@ + ref_chars(update.id) + " ("@ + fields
                + ")"@,
        )
    }
}

/// Why removals are refused.
pub open spec fn removal_reasons(policy: PolicyView, list: Seq<Ref>) -> Seq<Seq<char>>
    decreases list.len(),
{
    if list.len() == 0 {
        Seq::empty()
    } else {
        removal_reasons(policy, list.drop_last()) + field(
            policy.mapped.contains(list.last()),
            "deletion of filesystem-owned instance "@ + ref_chars(list.last()),
        ) + field(
            policy.routing.contains(list.last()),
            "deletion of engine mapping route instance "@ + ref_chars(list.last()),
        )
    }
}

/// Why changes are refused, without echoes and retired identities.
pub open spec fn refusals(policy: PolicyView, changes: ChangesView) -> Seq<Seq<char>> {
    addition_reasons(policy, changes.additions) + update_reasons(policy, changes.updates) + removal_reasons(
        policy,
        changes.removals,
    )
}

impl LivePolicy {
    pub open spec fn over(self, reflection: Reflection, canonical: NodeView) -> PolicyView {
        PolicyView {
            reflection,
            canonical: flat(canonical, None),
            mapped: self.mapped_refs@,
            retired: self.retired_mapped_refs@,
            routing: self.routing_refs@,
        }
    }

    fn keep_additions(
        &self,
        reflection: &Reflection,
        canonical: &Canonical,
        list: Vec<AddedSnapshot>,
        Ghost(policy): Ghost<PolicyView>,
    ) -> (kept: Vec<AddedSnapshot>)
        requires
            canonical.wf(),
            policy == (PolicyView {
                reflection: *reflection,
                canonical: canonical.flat(),
                mapped: self.mapped_refs@,
                retired: self.retired_mapped_refs@,
                routing: self.routing_refs@,
            }),
        ensures
            additions_view(kept@) == additions_view(list@).filter(
                |addition: AdditionView| addition_kept(policy, addition),
            ),
    {
        reveal(Seq::filter);
        let ghost all = additions_view(list@);
        let ghost keep = |addition: AdditionView| addition_kept(policy, addition);
        let ghost items = list@;
        let mut kept: Vec<AddedSnapshot> = Vec::new();
        proof {
            assert(all.take(0) =~= Seq::empty());
            assert(additions_view(kept@) =~= all.take(0).filter(keep));
        }
        for addition in iter: list
            invariant
                iter.seq() == items,
                items.len() == all.len(),
                all == additions_view(items),
                canonical.wf(),
                policy == (PolicyView {
                    reflection: *reflection,
                    canonical: canonical.flat(),
                    mapped: self.mapped_refs@,
                    retired: self.retired_mapped_refs@,
                    routing: self.routing_refs@,
                }),
                keep == (|addition: AdditionView| addition_kept(policy, addition)),
                additions_view(kept@) == all.take(iter.index()).filter(keep),
        {
            reveal(Seq::filter);
            let ghost before = additions_view(kept@);
            let ghost view = addition@;
            assert(all.take(iter.index() + 1).drop_last() =~= all.take(iter.index()));
            assert(all.take(iter.index() + 1).last() == view);
            let retired: bool = self.retired_mapped_refs.contains(&addition.id) || self.retired_mapped_refs.contains(
                &addition.parent,
            );
            if !retired && !(self.mapped_refs.contains(&addition.parent) && is_addition_echo(
                reflection,
                canonical,
                &addition,
            )) {
                kept.push(addition);
                proof {
                    assert(additions_view(kept@) =~= before.push(view));
                }
            }
        }
        proof {
            assert(all.take(all.len() as int) =~= all);
        }
        kept
    }

    fn keep_updates(
        &self,
        reflection: &Reflection,
        canonical: &Canonical,
        list: Vec<UpdatedSnapshot>,
        Ghost(policy): Ghost<PolicyView>,
    ) -> (kept: Vec<UpdatedSnapshot>)
        requires
            canonical.wf(),
            policy == (PolicyView {
                reflection: *reflection,
                canonical: canonical.flat(),
                mapped: self.mapped_refs@,
                retired: self.retired_mapped_refs@,
                routing: self.routing_refs@,
            }),
        ensures
            updates_view(kept@) == updates_view(list@).filter(|update: UpdateView| update_kept(policy, update)),
    {
        reveal(Seq::filter);
        let ghost all = updates_view(list@);
        let ghost keep = |update: UpdateView| update_kept(policy, update);
        let ghost items = list@;
        let mut kept: Vec<UpdatedSnapshot> = Vec::new();
        proof {
            assert(all.take(0) =~= Seq::empty());
            assert(updates_view(kept@) =~= all.take(0).filter(keep));
        }
        for update in iter: list
            invariant
                iter.seq() == items,
                items.len() == all.len(),
                all == updates_view(items),
                canonical.wf(),
                policy == (PolicyView {
                    reflection: *reflection,
                    canonical: canonical.flat(),
                    mapped: self.mapped_refs@,
                    retired: self.retired_mapped_refs@,
                    routing: self.routing_refs@,
                }),
                keep == (|update: UpdateView| update_kept(policy, update)),
                updates_view(kept@) == all.take(iter.index()).filter(keep),
        {
            reveal(Seq::filter);
            let ghost before = updates_view(kept@);
            let ghost view = update@;
            assert(all.take(iter.index() + 1).drop_last() =~= all.take(iter.index()));
            assert(all.take(iter.index() + 1).last() == view);
            let owned: bool = self.routing_refs.contains(&update.id) || self.mapped_refs.contains(&update.id);
            if !self.retired_mapped_refs.contains(&update.id) && !(owned && is_update_echo(
                reflection,
                canonical,
                &update,
            )) {
                kept.push(update);
                proof {
                    assert(updates_view(kept@) =~= before.push(view));
                }
            }
        }
        proof {
            assert(all.take(all.len() as int) =~= all);
        }
        kept
    }

    fn keep_removals(&self, list: &Vec<Ref>) -> (kept: Vec<Ref>)
        ensures
            kept@ == list@.filter(|id: Ref| !self.retired_mapped_refs@.contains(id)),
    {
        reveal(Seq::filter);
        let ghost keep = |id: Ref| !self.retired_mapped_refs@.contains(id);
        let mut kept: Vec<Ref> = Vec::new();
        let mut at: usize = 0;
        proof {
            assert(list@.take(0) =~= Seq::empty());
            assert(kept@ =~= list@.take(0).filter(keep));
        }
        while at < list.len()
            invariant
                at <= list@.len(),
                keep == (|id: Ref| !self.retired_mapped_refs@.contains(id)),
                kept@ == list@.take(at as int).filter(keep),
            decreases list@.len() - at,
        {
            reveal(Seq::filter);
            proof {
                assert(list@.take(at + 1).drop_last() =~= list@.take(at as int));
            }
            if !self.retired_mapped_refs.contains(&list[at]) {
                kept.push(list[at]);
            }
            at = at + 1;
        }
        proof {
            assert(list@.take(list@.len() as int) =~= list@);
        }
        kept
    }

    fn push_addition_reasons(
        &self,
        list: &Vec<AddedSnapshot>,
        reasons: &mut Vec<String>,
        Ghost(policy): Ghost<PolicyView>,
    )
        requires
            policy.mapped == self.mapped_refs@,
        ensures
            texts(final(reasons)@) == texts(old(reasons)@) + addition_reasons(policy, additions_view(list@)),
    {
        let ghost start = texts(reasons@);
        let ghost all = additions_view(list@);
        let mut at: usize = 0;
        proof {
            assert(all.take(0) =~= Seq::empty());
            assert(start + addition_reasons(policy, all.take(0)) =~= start);
        }
        while at < list.len()
            invariant
                at <= list@.len(),
                policy.mapped == self.mapped_refs@,
                all == additions_view(list@),
                texts(reasons@) == start + addition_reasons(policy, all.take(at as int)),
            decreases list@.len() - at,
        {
            let addition: &AddedSnapshot = &list[at];
            let mut text: String = "creation of ".to_owned();
            text.append(addition.class.as_str());
            text.append(" '");
            text.append(addition.name.as_str());
            text.append("' beneath a filesystem-owned mapping barrier");
            push_field(reasons, self.mapped_refs.contains(&addition.parent), text.as_str());
            proof {
                let next = all.take(at + 1);
                assert(next.drop_last() =~= all.take(at as int));
                assert(next.last() == addition@);
                assert(texts(reasons@) =~= start + addition_reasons(policy, next));
            }
            at = at + 1;
        }
        proof {
            assert(all.take(list@.len() as int) =~= all);
        }
    }

    fn push_update_reasons(
        &self,
        reflection: &Reflection,
        canonical: &Canonical,
        list: &Vec<UpdatedSnapshot>,
        reasons: &mut Vec<String>,
        Ghost(policy): Ghost<PolicyView>,
    )
        requires
            canonical.wf(),
            policy.reflection == *reflection,
            policy.canonical == canonical.flat(),
            policy.mapped == self.mapped_refs@,
            policy.routing == self.routing_refs@,
        ensures
            texts(final(reasons)@) == texts(old(reasons)@) + update_reasons(policy, updates_view(list@)),
    {
        let ghost start = texts(reasons@);
        let ghost all = updates_view(list@);
        let mut at: usize = 0;
        proof {
            assert(all.take(0) =~= Seq::empty());
            assert(start + update_reasons(policy, all.take(0)) =~= start);
        }
        while at < list.len()
            invariant
                at <= list@.len(),
                canonical.wf(),
                policy.reflection == *reflection,
                policy.canonical == canonical.flat(),
                policy.mapped == self.mapped_refs@,
                policy.routing == self.routing_refs@,
                all == updates_view(list@),
                texts(reasons@) == start + update_reasons(policy, all.take(at as int)),
            decreases list@.len() - at,
        {
            let update: &UpdatedSnapshot = &list[at];
            let id: String = ref_text(update.id);
            let fields: String = describe_noncanonical_update(reflection, canonical, update);
            let mut mutation: String = "mutation of filesystem-owned instance ".to_owned();
            mutation.append(id.as_str());
            mutation.append(" (");
            mutation.append(fields.as_str());
            mutation.append(")");
            let mut moved: String = "move of instance ".to_owned();
            moved.append(id.as_str());
            moved.append(" beneath a filesystem-owned mapping barrier");
            let mut structural: String = "structural mutation of engine mapping route instance ".to_owned();
            structural.append(id.as_str());
            structural.append(" (");
            structural.append(fields.as_str());
            structural.append(")");
            let below: bool = match update.parent {
                Some(parent) => self.mapped_refs.contains(&parent),
                None => false,
            };
            let shape: bool = update.parent.is_some() || update.name.is_some() || update.class.is_some();
            push_field(reasons, self.mapped_refs.contains(&update.id), mutation.as_str());
            push_field(reasons, below, moved.as_str());
            push_field(reasons, self.routing_refs.contains(&update.id) && shape, structural.as_str());
            proof {
                let next = all.take(at + 1);
                assert(next.drop_last() =~= all.take(at as int));
                assert(next.last() == update@);
                assert(texts(reasons@) =~= start + update_reasons(policy, next));
            }
            at = at + 1;
        }
        proof {
            assert(all.take(list@.len() as int) =~= all);
        }
    }

    fn push_removal_reasons(&self, list: &Vec<Ref>, reasons: &mut Vec<String>, Ghost(policy): Ghost<PolicyView>)
        requires
            policy.mapped == self.mapped_refs@,
            policy.routing == self.routing_refs@,
        ensures
            texts(final(reasons)@) == texts(old(reasons)@) + removal_reasons(policy, list@),
    {
        let ghost start = texts(reasons@);
        let mut at: usize = 0;
        proof {
            assert(list@.take(0) =~= Seq::empty());
            assert(start + removal_reasons(policy, list@.take(0)) =~= start);
        }
        while at < list.len()
            invariant
                at <= list@.len(),
                policy.mapped == self.mapped_refs@,
                policy.routing == self.routing_refs@,
                texts(reasons@) == start + removal_reasons(policy, list@.take(at as int)),
            decreases list@.len() - at,
        {
            let id: String = ref_text(list[at]);
            push_field(
                reasons,
                self.mapped_refs.contains(&list[at]),
                prefixed("deletion of filesystem-owned instance ", id.as_str()).as_str(),
            );
            push_field(
                reasons,
                self.routing_refs.contains(&list[at]),
                prefixed("deletion of engine mapping route instance ", id.as_str()).as_str(),
            );
            proof {
                let next = list@.take(at + 1);
                assert(next.drop_last() =~= list@.take(at as int));
                assert(next.last() == list@[at as int]);
                assert(texts(reasons@) =~= start + removal_reasons(policy, next));
            }
            at = at + 1;
        }
        proof {
            assert(list@.take(list@.len() as int) =~= list@);
        }
    }

    /// Drops changes that repeat what the source says or that speak of retired
    /// identities, and refuses the rest where any of it touches what belongs to
    /// the file system.
    pub fn reject_studio_changes(
        &self,
        reflection: &Reflection,
        canonical: &Snapshot,
        changes: &mut Changes,
    ) -> (accepted: Result<(), RejectedChanges>)
        ensures
            final(changes)@ == kept_changes(self.over(*reflection, canonical.node()), old(changes)@),
            match accepted {
                Ok(()) => refusals(self.over(*reflection, canonical.node()), final(changes)@).len() == 0,
                Err(rejected) => refusals(self.over(*reflection, canonical.node()), final(changes)@).len() > 0
                    && texts(rejected.reasons@) == ordered_keys(
                    refusals(self.over(*reflection, canonical.node()), final(changes)@).to_set(),
                ),
            },
    {
        let index: Canonical = Canonical::of(canonical);
        let ghost policy = self.over(*reflection, canonical.node());
        let mut additions: Vec<AddedSnapshot> = Vec::new();
        std::mem::swap(&mut additions, &mut changes.additions);
        changes.additions = self.keep_additions(reflection, &index, additions, Ghost(policy));
        let mut updates: Vec<UpdatedSnapshot> = Vec::new();
        std::mem::swap(&mut updates, &mut changes.updates);
        changes.updates = self.keep_updates(reflection, &index, updates, Ghost(policy));
        changes.removals = self.keep_removals(&changes.removals);
        proof {
            assert(changes@ =~= kept_changes(policy, old(changes)@)) by {
                assert((|id: Ref| !self.retired_mapped_refs@.contains(id)) =~= (|id: Ref| !policy.retired.contains(id)));
            }
        }
        let mut reasons: Vec<String> = Vec::new();
        proof {
            assert(texts(reasons@) =~= Seq::empty());
        }
        self.push_addition_reasons(&changes.additions, &mut reasons, Ghost(policy));
        self.push_update_reasons(reflection, &index, &changes.updates, &mut reasons, Ghost(policy));
        self.push_removal_reasons(&changes.removals, &mut reasons, Ghost(policy));
        proof {
            assert(texts(reasons@) =~= refusals(policy, changes@));
            assert(texts(reasons@).len() == reasons@.len());
        }
        if reasons.len() == 0 {
            return Ok(());
        }
        Err(RejectedChanges { reasons: distinct_texts(&reasons) })
    }
}

/// Texts in order, each once.
pub fn distinct_texts(list: &Vec<String>) -> (distinct: Vec<String>)
    ensures
        texts(distinct@) == ordered_keys(texts(list@).to_set()),
{
    let ghost all = texts(list@);
    let mut map: TextMap<bool> = TextMap::new();
    let mut at: usize = 0;
    proof {
        assert(all.take(0).to_set() =~= Set::empty());
        assert(map@.dom() =~= all.take(0).to_set());
    }
    while at < list.len()
        invariant
            at <= list@.len(),
            all == texts(list@),
            map@.dom() == all.take(at as int).to_set(),
        decreases list@.len() - at,
    {
        map.insert(list[at].clone(), true);
        proof {
            crate::hierarchy::lemma_taken_set(all, at as int);
            assert(map@.dom() =~= all.take(at + 1).to_set());
        }
        at = at + 1;
    }
    proof {
        assert(all.take(list@.len() as int) =~= all);
    }
    let mut distinct: Vec<String> = Vec::new();
    let len: usize = map.len();
    let mut next: usize = 0;
    while next < len
        invariant
            next <= len,
            len == map.keys().len(),
            map.listed(),
            distinct@.len() == next,
            forall|k: int| 0 <= k < next ==> (#[trigger] distinct@[k])@ == map.keys()[k],
        decreases len - next,
    {
        distinct.push(map.key_at(next).clone());
        next = next + 1;
    }
    proof {
        lemma_listed_keys(map);
        assert(texts(distinct@) =~= map.keys());
    }
    distinct
}

// ---------------------------------------------------------------------------
// Laws

proof fn lemma_no_addition_reason(policy: PolicyView, list: Seq<AdditionView>, k: int)
    requires
        addition_reasons(policy, list).len() == 0,
        0 <= k < list.len(),
    ensures
        !policy.mapped.contains(list[k].parent),
    decreases list.len(),
{
    if k < list.len() - 1 {
        lemma_no_addition_reason(policy, list.drop_last(), k);
    }
}

proof fn lemma_no_update_reason(policy: PolicyView, list: Seq<UpdateView>, k: int)
    requires
        update_reasons(policy, list).len() == 0,
        0 <= k < list.len(),
    ensures
        !policy.mapped.contains(list[k].id),
        list[k].parent matches Some(parent) ==> !policy.mapped.contains(parent),
        policy.routing.contains(list[k].id) ==> list[k].parent is None && list[k].name is None && list[k].class is None,
    decreases list.len(),
{
    if k < list.len() - 1 {
        lemma_no_update_reason(policy, list.drop_last(), k);
    }
}

proof fn lemma_no_removal_reason(policy: PolicyView, list: Seq<Ref>, k: int)
    requires
        removal_reasons(policy, list).len() == 0,
        0 <= k < list.len(),
    ensures
        !policy.mapped.contains(list[k]),
        !policy.routing.contains(list[k]),
    decreases list.len(),
{
    if k < list.len() - 1 {
        lemma_no_removal_reason(policy, list.drop_last(), k);
    }
}

/// Changes that are accepted leave alone what belongs to the file system:
/// nothing is added or moved below a mapped instance, no mapped instance is
/// changed or removed, and the way to a mapping is neither renamed, moved nor
/// removed.
pub proof fn law_accepted_changes_spare_the_file_system(policy: PolicyView, changes: ChangesView)
    requires
        refusals(policy, changes).len() == 0,
    ensures
        forall|k: int|
            0 <= k < changes.additions.len() ==> !policy.mapped.contains((#[trigger] changes.additions[k]).parent),
        forall|k: int|
            0 <= k < changes.updates.len() ==> !policy.mapped.contains((#[trigger] changes.updates[k]).id)
                && (changes.updates[k].parent matches Some(parent) ==> !policy.mapped.contains(parent))
                && (policy.routing.contains(changes.updates[k].id) ==> changes.updates[k].parent is None
                && changes.updates[k].name is None && changes.updates[k].class is None),
        forall|k: int|
            0 <= k < changes.removals.len() ==> !policy.mapped.contains(#[trigger] changes.removals[k])
                && !policy.routing.contains(changes.removals[k]),
{
    assert forall|k: int| 0 <= k < changes.additions.len() implies !policy.mapped.contains(
        (#[trigger] changes.additions[k]).parent,
    ) by {
        lemma_no_addition_reason(policy, changes.additions, k);
    }
    assert forall|k: int| 0 <= k < changes.updates.len() implies !policy.mapped.contains(
        (#[trigger] changes.updates[k]).id,
    ) && (changes.updates[k].parent matches Some(parent) ==> !policy.mapped.contains(parent)) && (
    policy.routing.contains(changes.updates[k].id) ==> changes.updates[k].parent is None && changes.updates[k].name is None
        && changes.updates[k].class is None) by {
        lemma_no_update_reason(policy, changes.updates, k);
    }
    assert forall|k: int| 0 <= k < changes.removals.len() implies !policy.mapped.contains(
        #[trigger] changes.removals[k],
    ) && !policy.routing.contains(changes.removals[k]) by {
        lemma_no_removal_reason(policy, changes.removals, k);
    }
}

} // verus!
