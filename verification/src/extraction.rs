//! What source is written for a place that becomes a project: which subtrees hold
//! scripts and can stand on disk, under which names, and with which metadata.

use crate::hierarchy::{flat, flat_views, flatten_snapshot, ids, FlatNode, FlatView};
use crate::names::{
    filesystem_like, fold_name, folded, is_filesystem_class, is_script_class, script_like, script_suffix, suffix_of,
};
use crate::project_routes::add_ids;
use crate::reflection::{property_fault, validate_property, Reflection};
use crate::snapshot::{lemma_children, nodes, NodeView, Snapshot};
use crate::source_metadata::{refused, SourceError};
use crate::text::{contains_text, copy_texts, is_before, joined, text_before, texts};
use crate::text_map::{Plain, TextMap};
use crate::variant::{are_values_equal, values_equal, Properties, Variant, VariantView};
use crate::Ref;
use std::collections::HashSet;
use vstd::prelude::*;

verus! {

broadcast use vstd::std_specs::hash::group_hash_axioms;

// ---------------------------------------------------------------------------
// Scripts and their metadata

/// The source of a script, or why it has none.
pub open spec fn source_text(node: NodeView) -> Result<Seq<char>, Seq<char>> {
    if !node.properties.dom().contains("Source"@) {
        Ok(Seq::empty())
    } else {
        match node.properties["Source"@] {
            VariantView::String(source) => Ok(source),
            VariantView::BinaryString(_) => Err("script "@ + node.name + " has non-UTF-8 Source"@),
            _ => Err("script "@ + node.name + " has an invalid Source value"@),
        }
    }
}

/// The source of a script.
pub fn script_source(snapshot: &Snapshot) -> (source: Result<String, SourceError>)
    ensures
        match source_text(snapshot.node()) {
            Ok(expected) => source matches Ok(source) && source@ == expected,
            Err(text) => source matches Err(error) && error.message@ == text,
        },
{
    proof {
        assert(snapshot.properties.deep().dom() =~= snapshot.properties@.dom());
    }
    match snapshot.properties.get("Source") {
        Some(value) => match value {
            Variant::String(source) => Ok(source.clone()),
            Variant::BinaryString(_) => {
                let mut message: String = joined("script ", snapshot.name.as_str());
                message.append(" has non-UTF-8 Source");
                Err(refused(message))
            },
            _ => {
                let mut message: String = joined("script ", snapshot.name.as_str());
                message.append(" has an invalid Source value");
                Err(refused(message))
            },
        },
        None => {
            proof {
                reveal_strlit("");
                assert(""@ =~= Seq::empty());
            }
            Ok("".to_owned())
        },
    }
}

/// The class or one of its ancestors has this default for a property.
pub open spec fn has_default(reflection: Reflection, class: Seq<char>, property: Seq<char>, value: VariantView, steps: nat) -> bool
    decreases steps,
{
    reflection.has(class) && ({
        ||| reflection.classes@[class].defaults.deep().dom().contains(property) && values_equal(
            reflection.classes@[class].defaults.deep()[property],
            value,
        )
        ||| steps > 0 && (match reflection.classes@[class].superclass {
            Some(superclass) => has_default(reflection, superclass@, property, value, (steps - 1) as nat),
            None => false,
        })
    })
}

fn find_equal_default(reflection: &Reflection, class: &str, property: &str, value: &Variant, steps: usize) -> (is: bool)
    ensures
        is == has_default(*reflection, class@, property@, value@, steps as nat),
    decreases steps,
{
    match reflection.classes.get(class) {
        None => false,
        Some(info) => {
            proof {
                assert(info.defaults.deep().dom() =~= info.defaults@.dom());
            }
            match info.defaults.get(property) {
                Some(default) => {
                    if are_values_equal(default, value) {
                        return true;
                    }
                },
                None => {},
            }
            if steps == 0 {
                return false;
            }
            match &info.superclass {
                Some(superclass) => find_equal_default(reflection, superclass.as_str(), property, value, steps - 1),
                None => false,
            }
        },
    }
}

/// A value that the class or one of its ancestors has by default. No chain of
/// superclasses is longer than the number of classes.
pub fn is_reflection_default(reflection: &Reflection, class: &str, property: &str, value: &Variant) -> (is: bool)
    ensures
        is == has_default(*reflection, class@, property@, value@, reflection.classes.keys().len()),
{
    find_equal_default(reflection, class, property, value, reflection.classes.len())
}

/// A property that is written to metadata.
pub open spec fn is_metadata(reflection: Reflection, class: Seq<char>, name: Seq<char>, value: VariantView) -> bool {
    &&& name != "Source"@ && name != "Name"@ && name != "Parent"@
    &&& name == "Attributes"@ || property_fault(reflection, class, name) is None
    &&& !has_default(reflection, class, name, value, reflection.classes.keys().len())
}

/// The properties that are written to metadata.
pub open spec fn metadata_of(node: NodeView, reflection: Reflection) -> Map<Seq<char>, VariantView> {
    node.properties.restrict(
        Set::new(
            |name: Seq<char>|
                node.properties.dom().contains(name) && is_metadata(reflection, node.class, name, node.properties[name]),
        ),
    )
}

fn is_metadata_property(reflection: &Reflection, class: &str, name: &str, value: &Variant) -> (is: bool)
    ensures
        is == is_metadata(*reflection, class@, name@, value@),
{
    !name.eq("Source") && !name.eq("Name") && !name.eq("Parent") && (name.eq("Attributes") || validate_property(
        reflection,
        class,
        name,
    ).is_ok()) && !is_reflection_default(reflection, class, name, value)
}

/// The properties that are written to metadata.
pub fn metadata_properties(snapshot: &Snapshot, reflection: &Reflection) -> (properties: Properties)
    ensures
        properties.deep() == metadata_of(snapshot.node(), *reflection),
{
    let mut kept: Properties = TextMap::new();
    let count: usize = snapshot.properties.len();
    let ghost all = snapshot.properties.deep();
    let ghost keys = snapshot.properties.keys();
    let ghost class = snapshot.class@;
    proof {
        assert(kept.deep() =~= all.restrict(
            Set::new(
                |name: Seq<char>|
                    keys.take(0).contains(name) && is_metadata(*reflection, class, name, all[name]),
            ),
        ));
    }
    let mut at: usize = 0;
    while at < count
        invariant
            at <= count,
            count == snapshot.properties.keys().len(),
            keys == snapshot.properties.keys(),
            all == snapshot.properties.deep(),
            class == snapshot.class@,
            snapshot.properties.listed(),
            kept.deep() == all.restrict(
                Set::new(
                    |name: Seq<char>|
                        keys.take(at as int).contains(name) && is_metadata(*reflection, class, name, all[name]),
                ),
            ),
        decreases count - at,
    {
        let name: &String = snapshot.properties.key_at(at);
        let value: &Variant = snapshot.properties.value_at(at);
        let ghost before = kept.deep();
        proof {
            assert(keys.contains(keys[at as int]));
            assert(snapshot.properties@.dom().contains(name@));
            assert(all.dom() =~= snapshot.properties@.dom());
            assert(all[name@] == value@);
        }
        if is_metadata_property(reflection, snapshot.class.as_str(), name.as_str(), value) {
            let copied: Variant = value.copy();
            kept.insert(name.clone(), copied);
            proof {
                assert(kept.deep() =~= before.insert(name@, value@));
            }
        }
        proof {
            let added = is_metadata(*reflection, class, name@, all[name@]);
            let selected = Set::new(
                |name: Seq<char>|
                    keys.take(at + 1).contains(name) && is_metadata(*reflection, class, name, all[name]),
            );
            assert forall|other: Seq<char>| keys.take(at + 1).contains(other) == (keys.take(at as int).contains(other)
                || other == name@) by {
                if keys.take(at as int).contains(other) {
                    let k = keys.take(at as int).index_of(other);
                    assert(keys.take(at + 1)[k] == other);
                }
                if other == name@ {
                    assert(keys.take(at + 1)[at as int] == other);
                }
                if keys.take(at + 1).contains(other) {
                    let k = keys.take(at + 1).index_of(other);
                    if k < at {
                        assert(keys.take(at as int)[k] == other);
                    }
                }
            }
            assert forall|other: Seq<char>| selected.contains(other) == (before.dom().contains(other) || (other == name@
                && added)) by {
                assert(keys.take(at as int).contains(other) ==> all.dom().contains(other)) by {
                    if keys.take(at as int).contains(other) {
                        let k = keys.take(at as int).index_of(other);
                        assert(keys[k] == other);
                        assert(keys.contains(other));
                        assert(snapshot.properties@.dom().contains(other));
                    }
                }
            }
            assert(kept.deep().dom() =~= all.restrict(selected).dom());
            assert(kept.deep() =~= all.restrict(selected));
        }
        at = at + 1;
    }
    proof {
        assert(keys.take(keys.len() as int) =~= keys);
        crate::text_map::lemma_listed_keys(snapshot.properties);
        assert(all.dom() =~= snapshot.properties@.dom());
        assert forall|name: Seq<char>| all.dom().contains(name) implies keys.contains(name) by {
            assert(keys.to_set().contains(name));
        }
        assert(kept.deep() =~= metadata_of(snapshot.node(), *reflection));
    }
    kept
}

// ---------------------------------------------------------------------------
// What can stand on disk

/// A subtree that holds a script.
pub open spec fn holds_script(node: NodeView) -> bool
    decreases node,
{
    script_like(node.class) || any_script(node.children)
}

pub open spec fn any_script(list: Seq<NodeView>) -> bool
    decreases list,
{
    if list.len() == 0 {
        false
    } else {
        any_script(list.drop_last()) || holds_script(list.last())
    }
}

/// A subtree that holds a script.
pub fn contains_script(snapshot: &Snapshot) -> (found: bool)
    ensures
        found == holds_script(snapshot.node()),
    decreases snapshot,
{
    proof {
        lemma_children(*snapshot);
    }
    if is_script_class(snapshot.class.as_str()) {
        return true;
    }
    let ghost list = snapshot.node().children;
    let mut found: bool = false;
    let mut at: usize = 0;
    proof {
        assert(list.take(0) =~= Seq::empty());
    }
    while at < snapshot.children.len()
        invariant
            at <= snapshot.children@.len(),
            list == nodes(snapshot.children@),
            found == any_script(list.take(at as int)),
        decreases snapshot.children@.len() - at,
    {
        let below: bool = contains_script(&snapshot.children[at]);
        proof {
            assert(list.take(at + 1).drop_last() =~= list.take(at as int));
            assert(list.take(at + 1).last() == snapshot.children@[at as int].node());
        }
        found = found || below;
        at = at + 1;
    }
    proof {
        assert(list.take(list.len() as int) =~= list);
    }
    found
}

/// Names of siblings that no file system takes for the same.
pub open spec fn names_differ(list: Seq<NodeView>) -> bool {
    forall|i: int, j: int|
        0 <= i < j < list.len() ==> folded(#[trigger] list[i].name) != folded(#[trigger] list[j].name)
}

/// A subtree that source on disk can stand for.
pub open spec fn representable(node: NodeView) -> bool
    decreases node,
{
    filesystem_like(node.class) && names_differ(node.children) && all_representable(node.children)
}

pub open spec fn all_representable(list: Seq<NodeView>) -> bool
    decreases list,
{
    if list.len() == 0 {
        true
    } else {
        all_representable(list.drop_last()) && representable(list.last())
    }
}

proof fn lemma_unrepresentable(list: Seq<NodeView>, at: int)
    requires
        0 <= at < list.len(),
        !representable(list[at]),
    ensures
        !all_representable(list),
    decreases list.len(),
{
    if at < list.len() - 1 {
        lemma_unrepresentable(list.drop_last(), at);
    }
}

/// A subtree that source on disk can stand for.
pub fn is_filesystem_representable(snapshot: &Snapshot) -> (is: bool)
    ensures
        is == representable(snapshot.node()),
    decreases snapshot,
{
    proof {
        lemma_children(*snapshot);
    }
    if !is_filesystem_class(snapshot.class.as_str()) {
        return false;
    }
    let ghost list = snapshot.node().children;
    let mut seen: Vec<String> = Vec::new();
    let mut at: usize = 0;
    proof {
        assert(list.take(0) =~= Seq::empty());
    }
    while at < snapshot.children.len()
        invariant
            at <= snapshot.children@.len(),
            list == nodes(snapshot.children@),
            list == snapshot.node().children,
            seen@.len() == at,
            forall|k: int| 0 <= k < at ==> #[trigger] seen@[k]@ == folded(list[k].name),
            names_differ(list.take(at as int)),
            all_representable(list.take(at as int)),
        decreases snapshot.children@.len() - at,
    {
        let child: &Snapshot = &snapshot.children[at];
        let name: String = fold_name(child.name.as_str());
        proof {
            assert(list[at as int] == child.node());
        }
        if contains_text(&seen, name.as_str()) {
            proof {
                let k = texts(seen@).index_of(name@);
                assert(texts(seen@)[k] == seen@[k]@);
                assert(folded(list[k].name) == folded(list[at as int].name));
            }
            return false;
        }
        if !is_filesystem_representable(child) {
            proof {
                lemma_unrepresentable(list, at as int);
            }
            return false;
        }
        proof {
            let shorter = list.take(at as int);
            let longer = list.take(at + 1);
            assert(longer.drop_last() =~= shorter);
            assert(longer.last() == child.node());
            assert forall|i: int, j: int| 0 <= i < j < longer.len() implies folded(#[trigger] longer[i].name) != folded(
                #[trigger] longer[j].name,
            ) by {
                if j < at {
                    assert(folded(shorter[i].name) != folded(shorter[j].name));
                } else {
                    assert(texts(seen@)[i] == seen@[i]@);
                    assert(!texts(seen@).contains(name@));
                }
            }
        }
        seen.push(name);
        at = at + 1;
    }
    proof {
        assert(list.take(list.len() as int) =~= list);
    }
    true
}

/// A script that stands on disk as a file of its own.
pub open spec fn is_plain_script(node: NodeView, required: Set<Ref>, reflection: Reflection) -> bool {
    script_like(node.class) && node.children.len() == 0 && metadata_of(node, reflection).dom() =~= Set::empty()
        && !required.contains(node.id)
}

pub(crate) fn is_plain(snapshot: &Snapshot, required: &HashSet<u128>, reflection: &Reflection) -> (is: bool)
    ensures
        is == is_plain_script(snapshot.node(), required@, *reflection),
{
    proof {
        lemma_children(*snapshot);
    }
    if !is_script_class(snapshot.class.as_str()) || snapshot.children.len() != 0 || required.contains(&snapshot.id) {
        return false;
    }
    let metadata: Properties = metadata_properties(snapshot, reflection);
    let count: usize = metadata.len();
    proof {
        crate::text_map::lemma_listed_keys(metadata);
        assert(metadata.deep().dom() =~= metadata@.dom());
        if count == 0 {
            assert(metadata.keys() =~= Seq::empty());
            assert(metadata@.dom() =~= Set::empty());
        } else {
            assert(metadata.keys().contains(metadata.keys()[0]));
            assert(metadata@.dom().contains(metadata.keys()[0]));
        }
    }
    count == 0
}

/// The name that an instance has on disk.
pub open spec fn name_on_disk(node: NodeView, required: Set<Ref>, reflection: Reflection) -> Seq<char> {
    if is_plain_script(node, required, reflection) {
        node.name + suffix_of(node.class)
    } else {
        node.name
    }
}

/// The name that an instance has on disk.
pub fn representation_name(snapshot: &Snapshot, required: &HashSet<u128>, reflection: &Reflection) -> (name: String)
    ensures
        name@ == name_on_disk(snapshot.node(), required@, *reflection),
{
    if is_plain(snapshot, required, reflection) {
        joined(snapshot.name.as_str(), script_suffix(snapshot.class.as_str()))
    } else {
        snapshot.name.clone()
    }
}

// ---------------------------------------------------------------------------
// The plan

/// An instance and the route to it.
#[derive(Debug)]
pub struct Routed<'a> {
    pub route: Vec<String>,
    pub snapshot: &'a Snapshot,
}

impl<'a> View for Routed<'a> {
    type V = (Seq<Seq<char>>, NodeView);

    open spec fn view(&self) -> (Seq<Seq<char>>, NodeView) {
        (texts(self.route@), self.snapshot.node())
    }
}

/// What routed instances are.
pub open spec fn routed_views(list: Seq<Routed>) -> Seq<(Seq<Seq<char>>, NodeView)> {
    list.map_values(|routed: Routed| routed@)
}

/// The routes to the containers of scripts below `StarterPlayer`.
pub open spec fn is_starter_route(route: Seq<Seq<char>>) -> bool {
    route.len() == 2 && route[0] == "StarterPlayer"@ && (route[1] == "StarterPlayerScripts"@ || route[1]
        == "StarterCharacterScripts"@)
}

/// The instances whose children may be mapped: the services, and the containers of
/// scripts below `StarterPlayer`.
pub open spec fn anchors_of(node: NodeView, route: Seq<Seq<char>>, reflection: Reflection) -> Seq<
    (Seq<Seq<char>>, NodeView),
>
    decreases node,
{
    (if route.len() == 1 && reflection.service(node.class) {
        seq![(route, node)]
    } else {
        Seq::empty()
    }) + (if is_starter_route(route) {
        seq![(route, node)]
    } else {
        Seq::empty()
    }) + anchors_in(node.children, route, reflection)
}

pub open spec fn anchors_in(list: Seq<NodeView>, route: Seq<Seq<char>>, reflection: Reflection) -> Seq<
    (Seq<Seq<char>>, NodeView),
>
    decreases list,
{
    if list.len() == 0 {
        Seq::empty()
    } else {
        anchors_in(list.drop_last(), route, reflection) + anchors_of(
            list.last(),
            route.push(list.last().name),
            reflection,
        )
    }
}

fn push_routed<'a>(list: &mut Vec<Routed<'a>>, route: &Vec<String>, snapshot: &'a Snapshot)
    ensures
        routed_views(final(list)@) == routed_views(old(list)@).push((texts(route@), snapshot.node())),
{
    let ghost before = routed_views(list@);
    list.push(Routed { route: copy_texts(route), snapshot });
    proof {
        assert(routed_views(list@) =~= before.push((texts(route@), snapshot.node())));
    }
}

fn is_starter(route: &Vec<String>) -> (is: bool)
    ensures
        is == is_starter_route(texts(route@)),
{
    route.len() == 2 && route[0].as_str().eq("StarterPlayer") && (route[1].as_str().eq("StarterPlayerScripts")
        || route[1].as_str().eq("StarterCharacterScripts"))
}

fn find_anchors<'a>(snapshot: &'a Snapshot, route: &Vec<String>, reflection: &Reflection, anchors: &mut Vec<Routed<'a>>)
    ensures
        routed_views(final(anchors)@) == routed_views(old(anchors)@) + anchors_of(
            snapshot.node(),
            texts(route@),
            *reflection,
        ),
    decreases snapshot,
{
    let ghost given = routed_views(anchors@);
    let ghost here = texts(route@);
    proof {
        lemma_children(*snapshot);
    }
    if route.len() == 1 && reflection.is_service(snapshot.class.as_str()) {
        push_routed(anchors, route, snapshot);
    }
    if is_starter(route) {
        push_routed(anchors, route, snapshot);
    }
    let ghost own = (if here.len() == 1 && reflection.service(snapshot.class@) {
        seq![(here, snapshot.node())]
    } else {
        Seq::empty()
    }) + (if is_starter_route(here) {
        seq![(here, snapshot.node())]
    } else {
        Seq::empty()
    });
    let ghost list = snapshot.node().children;
    proof {
        assert(routed_views(anchors@) =~= given + own);
        assert(list.take(0) =~= Seq::empty());
        assert(given + own + anchors_in(list.take(0), here, *reflection) =~= given + own);
    }
    let mut at: usize = 0;
    while at < snapshot.children.len()
        invariant
            at <= snapshot.children@.len(),
            list == nodes(snapshot.children@),
            here == texts(route@),
            routed_views(anchors@) == given + own + anchors_in(list.take(at as int), here, *reflection),
        decreases snapshot.children@.len() - at,
    {
        let child: &Snapshot = &snapshot.children[at];
        let mut below: Vec<String> = copy_texts(route);
        below.push(child.name.clone());
        let ghost listed = anchors_in(list.take(at as int), here, *reflection);
        proof {
            assert(texts(below@) =~= here.push(child.node().name));
            assert(list.take(at + 1).drop_last() =~= list.take(at as int));
            assert(list.take(at + 1).last() == child.node());
        }
        find_anchors(child, &below, reflection, anchors);
        proof {
            assert(routed_views(anchors@) =~= given + own + (listed + anchors_of(
                child.node(),
                here.push(child.node().name),
                *reflection,
            )));
        }
        at = at + 1;
    }
    proof {
        assert(list.take(list.len() as int) =~= list);
        assert(routed_views(anchors@) =~= given + anchors_of(snapshot.node(), here, *reflection));
    }
}

/// The order of routes: by their first component that differs.
pub open spec fn route_before(left: Seq<Seq<char>>, right: Seq<Seq<char>>) -> bool
    decreases left.len(),
{
    if right.len() == 0 {
        false
    } else if left.len() == 0 {
        true
    } else if left[0] != right[0] {
        text_before(left[0], right[0])
    } else {
        route_before(left.skip(1), right.skip(1))
    }
}

fn is_route_before(left: &Vec<String>, right: &Vec<String>) -> (before: bool)
    ensures
        before == route_before(texts(left@), texts(right@)),
{
    let ghost l = texts(left@);
    let ghost r = texts(right@);
    let mut at: usize = 0;
    proof {
        assert(l.skip(0) =~= l);
        assert(r.skip(0) =~= r);
    }
    while at < left.len() && at < right.len()
        invariant
            at <= left@.len(),
            at <= right@.len(),
            l == texts(left@),
            r == texts(right@),
            route_before(l, r) == route_before(l.skip(at as int), r.skip(at as int)),
        decreases left@.len() - at,
    {
        proof {
            assert(l.skip(at as int)[0] == left@[at as int]@);
            assert(r.skip(at as int)[0] == right@[at as int]@);
            assert(l.skip(at as int).skip(1) =~= l.skip(at + 1));
            assert(r.skip(at as int).skip(1) =~= r.skip(at + 1));
        }
        if !left[at].as_str().eq(right[at].as_str()) {
            return is_before(left[at].as_str(), right[at].as_str());
        }
        at = at + 1;
    }
    at < right.len()
}

/// An ordered list with one routed instance more, in place of the one at its route.
pub open spec fn with_routed(list: Seq<(Seq<Seq<char>>, NodeView)>, route: Seq<Seq<char>>, node: NodeView) -> Seq<
    (Seq<Seq<char>>, NodeView),
>
    decreases list.len(),
{
    if list.len() == 0 {
        list.push((route, node))
    } else if list.last().0 == route {
        list.drop_last().push((route, node))
    } else if route_before(route, list.last().0) {
        with_routed(list.drop_last(), route, node).push(list.last())
    } else {
        list.push((route, node))
    }
}

fn insert_routed<'a>(list: &mut Vec<Routed<'a>>, routed: Routed<'a>)
    ensures
        routed_views(final(list)@) == with_routed(routed_views(old(list)@), routed@.0, routed@.1),
{
    let ghost views = routed_views(list@);
    let ghost route = routed@.0;
    let ghost node = routed@.1;
    let mut place: usize = list.len();
    let mut searching: bool = true;
    let mut replaces: bool = false;
    proof {
        assert(views.take(place as int) =~= views);
        assert(with_routed(views, route, node) + views.skip(place as int) =~= with_routed(views, route, node));
    }
    while searching && place > 0
        invariant
            place <= list@.len(),
            list@ == old(list)@,
            views == routed_views(list@),
            route == routed@.0,
            node == routed@.1,
            with_routed(views, route, node) == with_routed(views.take(place as int), route, node) + views.skip(
                place as int,
            ),
            searching ==> !replaces,
            !searching ==> place > 0 && replaces == (views[place - 1].0 == route) && (!replaces ==> !route_before(
                route,
                views[place - 1].0,
            )),
        decreases place + (if searching { 1int } else { 0int }),
    {
        proof {
            assert(views[place - 1].0 == texts(list@[place - 1].route@));
            assert(views.take(place as int).drop_last() =~= views.take(place - 1));
            assert(views.take(place as int).last() == views[place - 1]);
        }
        if crate::text::same_texts(&list[place - 1].route, &routed.route) {
            replaces = true;
            searching = false;
        } else if is_route_before(&routed.route, &list[place - 1].route) {
            proof {
                assert(with_routed(views.take(place - 1), route, node).push(views[place - 1]) + views.skip(place as int)
                    =~= with_routed(views.take(place - 1), route, node) + views.skip(place - 1));
            }
            place = place - 1;
        } else {
            searching = false;
        }
    }
    if replaces {
        proof {
            assert(views.take(place as int).drop_last() =~= views.take(place - 1));
            assert(views.take(place as int).last() == views[place - 1]);
        }
        list.set(place - 1, routed);
        proof {
            assert(routed_views(list@) =~= views.take(place - 1).push((route, node)) + views.skip(place as int));
        }
    } else {
        list.insert(place, routed);
        proof {
            assert(with_routed(views.take(place as int), route, node) == views.take(place as int).push((route, node)));
            assert(routed_views(list@) =~= views.take(place as int).push((route, node)) + views.skip(place as int));
        }
    }
}

/// A child of an anchor that becomes source: it holds a script, and it can stand on
/// disk. The containers below `StarterPlayer` are anchors themselves.
pub open spec fn is_selected(anchor: Seq<Seq<char>>, child: NodeView) -> bool {
    &&& !(anchor.len() == 1 && anchor[0] == "StarterPlayer"@ && (child.name == "StarterPlayerScripts"@ || child.name
        == "StarterCharacterScripts"@))
    &&& holds_script(child)
    &&& representable(child)
}

/// The subtrees that become source, with those of some children of an anchor.
pub open spec fn selected_children(
    list: Seq<(Seq<Seq<char>>, NodeView)>,
    anchor: Seq<Seq<char>>,
    children: Seq<NodeView>,
) -> Seq<(Seq<Seq<char>>, NodeView)>
    decreases children.len(),
{
    if children.len() == 0 {
        list
    } else {
        let before = selected_children(list, anchor, children.drop_last());
        let child = children.last();
        if is_selected(anchor, child) {
            with_routed(before, anchor.push(child.name), child)
        } else {
            before
        }
    }
}

/// The subtrees that become source, in the order of their routes.
pub open spec fn selected(anchors: Seq<(Seq<Seq<char>>, NodeView)>) -> Seq<(Seq<Seq<char>>, NodeView)>
    decreases anchors.len(),
{
    if anchors.len() == 0 {
        Seq::empty()
    } else {
        selected_children(selected(anchors.drop_last()), anchors.last().0, anchors.last().1.children)
    }
}

fn select_children<'a>(anchor: &Routed<'a>, list: &mut Vec<Routed<'a>>)
    ensures
        routed_views(final(list)@) == selected_children(
            routed_views(old(list)@),
            anchor@.0,
            anchor@.1.children,
        ),
{
    let ghost given = routed_views(list@);
    let snapshot: &'a Snapshot = anchor.snapshot;
    let ghost route = anchor@.0;
    let ghost children = snapshot.node().children;
    proof {
        lemma_children(*snapshot);
        assert(children.take(0) =~= Seq::empty());
    }
    let below_starter: bool = anchor.route.len() == 1 && anchor.route[0].as_str().eq("StarterPlayer");
    proof {
        assert(below_starter == (route.len() == 1 && route[0] == "StarterPlayer"@));
    }
    let mut at: usize = 0;
    while at < snapshot.children.len()
        invariant
            at <= snapshot.children@.len(),
            snapshot == anchor.snapshot,
            children == nodes(snapshot.children@),
            route == texts(anchor.route@),
            below_starter == (route.len() == 1 && route[0] == "StarterPlayer"@),
            routed_views(list@) == selected_children(given, route, children.take(at as int)),
        decreases snapshot.children@.len() - at,
    {
        let child: &'a Snapshot = &snapshot.children[at];
        proof {
            assert(children.take(at + 1).drop_last() =~= children.take(at as int));
            assert(children.take(at + 1).last() == child.node());
        }
        let container: bool = below_starter && (child.name.as_str().eq("StarterPlayerScripts")
            || child.name.as_str().eq("StarterCharacterScripts"));
        if !container && contains_script(child) && is_filesystem_representable(child) {
            let mut below: Vec<String> = copy_texts(&anchor.route);
            below.push(child.name.clone());
            proof {
                assert(texts(below@) =~= route.push(child.node().name));
            }
            insert_routed(list, Routed { route: below, snapshot: child });
        }
        at = at + 1;
    }
    proof {
        assert(children.take(children.len() as int) =~= children);
    }
}

/// The instances that a value of a flat list refers to.
pub open spec fn refers(properties: Map<Seq<char>, VariantView>, target: Ref) -> bool {
    exists|name: Seq<char>| #[trigger] properties.dom().contains(name) && properties[name] == VariantView::Ref(target)
}

/// The mapped instances that a place refers to, up to a place of its flat list.
pub open spec fn is_required(list: Seq<FlatView>, mapped: Set<Ref>, target: Ref) -> bool {
    mapped.contains(target) && exists|k: int| 0 <= k < list.len() && refers(#[trigger] list[k].node.properties, target)
}

fn add_targets(snapshot: &Snapshot, mapped: &HashSet<u128>, required: &mut HashSet<u128>)
    ensures
        forall|target: Ref| #[trigger]
            final(required)@.contains(target) == (old(required)@.contains(target) || (mapped@.contains(target)
                && refers(snapshot.node().properties, target))),
{
    let count: usize = snapshot.properties.len();
    let ghost keys = snapshot.properties.keys();
    let ghost all = snapshot.properties.deep();
    let ghost given = required@;
    let mut at: usize = 0;
    while at < count
        invariant
            at <= count,
            count == snapshot.properties.keys().len(),
            keys == snapshot.properties.keys(),
            all == snapshot.properties.deep(),
            snapshot.properties.listed(),
            forall|target: Ref| #[trigger]
                required@.contains(target) == (given.contains(target) || (mapped@.contains(target) && exists|k: int|
                    0 <= k < at && all[#[trigger] keys[k]] == VariantView::Ref(target))),
        decreases count - at,
    {
        let value: &Variant = snapshot.properties.value_at(at);
        proof {
            assert(keys.contains(keys[at as int]));
            assert(snapshot.properties@.dom().contains(keys[at as int]));
            assert(all[keys[at as int]] == value@);
        }
        let ghost before = required@;
        match value {
            Variant::Ref(target) => {
                if mapped.contains(target) {
                    required.insert(*target);
                }
            },
            _ => {},
        }
        proof {
            assert forall|target: Ref| #[trigger] required@.contains(target) == (given.contains(target) || (mapped@.contains(
                target,
            ) && exists|k: int| 0 <= k < at + 1 && all[#[trigger] keys[k]] == VariantView::Ref(target))) by {
                assert(before.contains(target) == (given.contains(target) || (mapped@.contains(target) && exists|k: int|
                    0 <= k < at && all[#[trigger] keys[k]] == VariantView::Ref(target))));
                if all[keys[at as int]] == VariantView::Ref(target) && mapped@.contains(target) {
                    assert(required@.contains(target));
                }
            }
        }
        at = at + 1;
    }
    proof {
        assert(all.dom() =~= snapshot.properties@.dom());
        assert forall|target: Ref| #[trigger] required@.contains(target) == (given.contains(target) || (mapped@.contains(
            target,
        ) && refers(all, target))) by {
            if exists|k: int| 0 <= k < count && all[#[trigger] keys[k]] == VariantView::Ref(target) {
                let k = choose|k: int| 0 <= k < count && all[#[trigger] keys[k]] == VariantView::Ref(target);
                assert(keys.contains(keys[k]));
                assert(all.dom().contains(keys[k]));
            }
            if refers(all, target) {
                let name = choose|name: Seq<char>| #[trigger]
                    all.dom().contains(name) && all[name] == VariantView::Ref(target);
                crate::text_map::lemma_listed_keys(snapshot.properties);
                assert(keys.to_set().contains(name));
                let k = keys.index_of(name);
                assert(keys[k] == name);
            }
        }
    }
}

fn find_required(root: &Snapshot, mapped: &HashSet<u128>) -> (required: HashSet<u128>)
    ensures
        forall|target: Ref| #[trigger]
            required@.contains(target) == is_required(flat(root.node(), None), mapped@, target),
{
    let list: Vec<FlatNode> = flatten_snapshot(root);
    let ghost views = flat_views(list@);
    let mut required: HashSet<u128> = HashSet::new();
    let mut at: usize = 0;
    while at < list.len()
        invariant
            at <= list@.len(),
            views == flat_views(list@),
            forall|target: Ref| #[trigger]
                required@.contains(target) == is_required(views.take(at as int), mapped@, target),
        decreases list@.len() - at,
    {
        let ghost before = required@;
        add_targets(list[at].snapshot, mapped, &mut required);
        proof {
            let shorter = views.take(at as int);
            let longer = views.take(at + 1);
            assert(longer[at as int].node == list@[at as int].snapshot.node());
            assert forall|target: Ref| #[trigger] required@.contains(target) == is_required(longer, mapped@, target) by {
                assert(before.contains(target) == is_required(shorter, mapped@, target));
                if is_required(shorter, mapped@, target) {
                    let k = choose|k: int|
                        0 <= k < shorter.len() && refers(#[trigger] shorter[k].node.properties, target);
                    assert(longer[k] == shorter[k]);
                    assert(refers(longer[k].node.properties, target));
                }
                if is_required(longer, mapped@, target) {
                    let k = choose|k: int|
                        0 <= k < longer.len() && refers(#[trigger] longer[k].node.properties, target);
                    if k < at {
                        assert(longer[k] == shorter[k]);
                        assert(refers(shorter[k].node.properties, target));
                    }
                }
            }
        }
        at = at + 1;
    }
    proof {
        assert(views.take(views.len() as int) =~= views);
    }
    required
}

/// A subtree that becomes source: the route to it, the path of its file or directory,
/// and what it is.
#[derive(Debug)]
pub struct ExtractionEntry<'a> {
    pub route: Vec<String>,
    pub output: Vec<String>,
    pub snapshot: &'a Snapshot,
}

/// What becomes source of a place, and which identities have to be written down.
#[derive(Debug)]
pub struct ExtractionPlan<'a> {
    pub entries: Vec<ExtractionEntry<'a>>,
    pub required_ids: HashSet<u128>,
}

/// The path of a subtree that becomes source.
pub open spec fn output_path(route: Seq<Seq<char>>, name: Seq<char>) -> Seq<Seq<char>> {
    seq!["src"@] + (if route.len() == 0 {
        route
    } else {
        route.drop_last()
    }).push(name)
}

/// The subtrees of a place that become source.
pub open spec fn extracted(root: NodeView, reflection: Reflection) -> Seq<(Seq<Seq<char>>, NodeView)> {
    selected(anchors_in(root.children, Seq::empty(), reflection))
}

/// The identities of subtrees.
pub open spec fn ids_of(list: Seq<(Seq<Seq<char>>, NodeView)>) -> Set<Ref>
    decreases list.len(),
{
    if list.len() == 0 {
        Set::empty()
    } else {
        ids_of(list.drop_last()).union(ids(list.last().1))
    }
}

fn select<'a>(root: &'a Snapshot, reflection: &Reflection) -> (list: Vec<Routed<'a>>)
    ensures
        routed_views(list@) == extracted(root.node(), *reflection),
{
    let mut anchors: Vec<Routed<'a>> = Vec::new();
    let ghost children = root.node().children;
    let ghost top = Seq::<Seq<char>>::empty();
    let mut at: usize = 0;
    proof {
        lemma_children(*root);
        assert(children.take(0) =~= Seq::empty());
        assert(routed_views(anchors@) =~= Seq::empty());
    }
    while at < root.children.len()
        invariant
            at <= root.children@.len(),
            children == nodes(root.children@),
            top == Seq::<Seq<char>>::empty(),
            routed_views(anchors@) == anchors_in(children.take(at as int), top, *reflection),
        decreases root.children@.len() - at,
    {
        let child: &'a Snapshot = &root.children[at];
        let mut route: Vec<String> = Vec::new();
        route.push(child.name.clone());
        proof {
            assert(texts(route@) =~= top.push(child.node().name));
            assert(children.take(at + 1).drop_last() =~= children.take(at as int));
            assert(children.take(at + 1).last() == child.node());
        }
        find_anchors(child, &route, reflection, &mut anchors);
        at = at + 1;
    }
    let ghost all = routed_views(anchors@);
    let mut list: Vec<Routed<'a>> = Vec::new();
    let mut next: usize = 0;
    proof {
        assert(children.take(children.len() as int) =~= children);
        assert(all.take(0) =~= Seq::empty());
        assert(routed_views(list@) =~= Seq::empty());
    }
    while next < anchors.len()
        invariant
            next <= anchors@.len(),
            all == routed_views(anchors@),
            routed_views(list@) == selected(all.take(next as int)),
        decreases anchors@.len() - next,
    {
        proof {
            assert(all.take(next + 1).drop_last() =~= all.take(next as int));
            assert(all.take(next + 1).last() == anchors@[next as int]@);
        }
        select_children(&anchors[next], &mut list);
        next = next + 1;
    }
    proof {
        assert(all.take(all.len() as int) =~= all);
    }
    list
}

/// Plans which subtrees of a place become source. Those that cannot stand on disk stay
/// in the data that Studio owns.
pub fn plan_script_extraction<'a>(root: &'a Snapshot, reflection: &Reflection) -> (plan: ExtractionPlan<'a>)
    ensures
        plan.entries@.len() == extracted(root.node(), *reflection).len(),
        forall|target: Ref| #[trigger]
            plan.required_ids@.contains(target) == is_required(
                flat(root.node(), None),
                ids_of(extracted(root.node(), *reflection)),
                target,
            ),
        forall|k: int|
            0 <= k < plan.entries@.len() ==> {
                let chosen = extracted(root.node(), *reflection)[k];
                &&& texts(#[trigger] plan.entries@[k].route@) == chosen.0
                &&& plan.entries@[k].snapshot.node() == chosen.1
                &&& texts(plan.entries@[k].output@) == output_path(
                    chosen.0,
                    name_on_disk(chosen.1, plan.required_ids@, *reflection),
                )
            },
{
    let list: Vec<Routed<'a>> = select(root, reflection);
    let ghost all = routed_views(list@);
    let mut mapped: HashSet<u128> = HashSet::new();
    let mut at: usize = 0;
    proof {
        assert(all.take(0) =~= Seq::empty());
        assert(mapped@ =~= Set::empty());
    }
    while at < list.len()
        invariant
            at <= list@.len(),
            all == routed_views(list@),
            mapped@ == ids_of(all.take(at as int)),
        decreases list@.len() - at,
    {
        proof {
            assert(all.take(at + 1).drop_last() =~= all.take(at as int));
            assert(all.take(at + 1).last() == list@[at as int]@);
        }
        add_ids(list[at].snapshot, &mut mapped);
        at = at + 1;
    }
    proof {
        assert(all.take(all.len() as int) =~= all);
    }
    let required: HashSet<u128> = find_required(root, &mapped);
    let mut entries: Vec<ExtractionEntry<'a>> = Vec::new();
    let mut next: usize = 0;
    while next < list.len()
        invariant
            next <= list@.len(),
            all == routed_views(list@),
            entries@.len() == next,
            forall|k: int|
                0 <= k < next ==> {
                    let chosen = all[k];
                    &&& texts(#[trigger] entries@[k].route@) == chosen.0
                    &&& entries@[k].snapshot.node() == chosen.1
                    &&& texts(entries@[k].output@) == output_path(
                        chosen.0,
                        name_on_disk(chosen.1, required@, *reflection),
                    )
                },
        decreases list@.len() - next,
    {
        let routed: &Routed<'a> = &list[next];
        let name: String = representation_name(routed.snapshot, &required, reflection);
        let mut output: Vec<String> = Vec::new();
        output.push("src".to_owned());
        let ghost route = texts(routed.route@);
        let above: usize = if routed.route.len() == 0 {
            0
        } else {
            routed.route.len() - 1
        };
        let mut component: usize = 0;
        proof {
            assert(all[next as int] == routed@);
            assert(texts(output@) =~= seq!["src"@] + route.take(0));
        }
        while component < above
            invariant
                component <= above <= routed.route@.len(),
                route == texts(routed.route@),
                texts(output@) == seq!["src"@] + route.take(component as int),
            decreases above - component,
        {
            let ghost before = texts(output@);
            output.push(routed.route[component].clone());
            proof {
                assert(texts(output@) =~= before.push(route[component as int]));
                assert(seq!["src"@] + route.take(component + 1) =~= (seq!["src"@] + route.take(component as int)).push(
                    route[component as int],
                ));
            }
            component = component + 1;
        }
        let ghost before = texts(output@);
        output.push(name);
        proof {
            assert(texts(output@) =~= before.push(name@));
            if route.len() > 0 {
                assert(route.take(component as int) =~= route.drop_last());
            } else {
                assert(route.take(0) =~= route);
            }
            assert(texts(output@) =~= output_path(route, name@));
        }
        entries.push(ExtractionEntry { route: copy_texts(&routed.route), output, snapshot: routed.snapshot });
        next = next + 1;
    }
    ExtractionPlan { entries, required_ids: required }
}

/// A subtree that may become source.
spec fn can_become_source(node: NodeView) -> bool {
    holds_script(node) && representable(node)
}

proof fn lemma_routed_kept(list: Seq<(Seq<Seq<char>>, NodeView)>, route: Seq<Seq<char>>, node: NodeView)
    requires
        forall|k: int| 0 <= k < list.len() ==> can_become_source(#[trigger] list[k].1),
        can_become_source(node),
    ensures
        forall|k: int| 0 <= k < with_routed(list, route, node).len() ==> can_become_source(
            #[trigger] with_routed(list, route, node)[k].1,
        ),
    decreases list.len(),
{
    if list.len() > 0 {
        let shorter = list.drop_last();
        assert forall|k: int| 0 <= k < shorter.len() implies can_become_source(#[trigger] shorter[k].1) by {
            assert(shorter[k] == list[k]);
        }
        lemma_routed_kept(shorter, route, node);
        assert(can_become_source(list[list.len() - 1].1));
        let all = with_routed(list, route, node);
        let rest = with_routed(shorter, route, node);
        assert forall|k: int| 0 <= k < all.len() implies can_become_source(#[trigger] all[k].1) by {
            if list.last().0 == route {
                if k < shorter.len() {
                    assert(all[k] == shorter[k]);
                }
            } else if route_before(route, list.last().0) {
                if k < rest.len() {
                    assert(all[k] == rest[k]);
                }
            } else if k < list.len() {
                assert(all[k] == list[k]);
            }
        }
    }
}

proof fn lemma_children_kept(
    list: Seq<(Seq<Seq<char>>, NodeView)>,
    anchor: Seq<Seq<char>>,
    children: Seq<NodeView>,
)
    requires
        forall|k: int| 0 <= k < list.len() ==> can_become_source(#[trigger] list[k].1),
    ensures
        forall|k: int| 0 <= k < selected_children(list, anchor, children).len() ==> can_become_source(
            #[trigger] selected_children(list, anchor, children)[k].1,
        ),
    decreases children.len(),
{
    if children.len() > 0 {
        lemma_children_kept(list, anchor, children.drop_last());
        let before = selected_children(list, anchor, children.drop_last());
        let child = children.last();
        if is_selected(anchor, child) {
            lemma_routed_kept(before, anchor.push(child.name), child);
        }
    }
}

proof fn lemma_selected_kept(anchors: Seq<(Seq<Seq<char>>, NodeView)>)
    ensures
        forall|k: int| 0 <= k < selected(anchors).len() ==> can_become_source(#[trigger] selected(anchors)[k].1),
    decreases anchors.len(),
{
    if anchors.len() > 0 {
        lemma_selected_kept(anchors.drop_last());
        lemma_children_kept(selected(anchors.drop_last()), anchors.last().0, anchors.last().1.children);
    }
}

/// Every subtree that becomes source holds a script and can stand on disk.
pub proof fn law_extracted_source_can_stand_on_disk(root: NodeView, reflection: Reflection, k: int)
    requires
        0 <= k < extracted(root, reflection).len(),
    ensures
        holds_script(extracted(root, reflection)[k].1),
        representable(extracted(root, reflection)[k].1),
{
    lemma_selected_kept(anchors_in(root.children, Seq::empty(), reflection));
    assert(can_become_source(extracted(root, reflection)[k].1));
}

} // verus!
