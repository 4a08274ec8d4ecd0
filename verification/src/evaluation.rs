//! Composing a place: what Studio owns, with mapped source in the places that a
//! project gives it.

use crate::hashing::{stable_identity, stable_ref};
use crate::hierarchy::{flat, flat_ids, flat_list, ids};
use crate::project_references::{
    first_dangling_node, first_duplicate, node_words, validate_snapshot_references, validate_unique_snapshot_ids,
};
use crate::reflection::Reflection;
use crate::snapshot::{lemma_children, nodes, NodeView, Snapshot};
use crate::source_metadata::{
    apply_metadata, child_place, find_child, refused, with_metadata, Identities, SourceError,
};
use crate::source_tree::{
    directory_node, evaluate_node, evaluated, plain_node, read_directory_instance, Source, SourceChild, SourceNode,
};
use crate::text::{copy_texts, join, joined, ref_chars, separated, texts};
use crate::text_map::{Plain, TextMap};
use crate::variant::Properties;
use crate::watch_roots::paths;
use crate::Ref;
use std::collections::HashSet;
use vstd::prelude::*;

verus! {

broadcast use vstd::std_specs::hash::group_hash_axioms;

/// Identities that were declared, with where they were.
pub type Known = Map<Seq<char>, Seq<char>>;

/// Routes to where source on disk begins.
pub type Routes = Seq<Seq<Seq<char>>>;

/// What a part of the evaluation comes to.
pub type Composed = Result<(NodeView, Known, Routes), Seq<char>>;

// ---------------------------------------------------------------------------
// Order

/// A node put into a list that is ordered by identity.
pub open spec fn node_placed(list: Seq<NodeView>, node: NodeView) -> Seq<NodeView>
    decreases list.len(),
{
    if list.len() > 0 && node.id < list.last().id {
        node_placed(list.drop_last(), node).push(list.last())
    } else {
        list.push(node)
    }
}

/// Nodes in the order of their identities.
pub open spec fn ordered_nodes(list: Seq<NodeView>) -> Seq<NodeView>
    decreases list.len(),
{
    if list.len() == 0 {
        Seq::empty()
    } else {
        node_placed(ordered_nodes(list.drop_last()), list.last())
    }
}

proof fn lemma_node_placed(list: Seq<NodeView>, node: NodeView, at: int)
    requires
        0 <= at <= list.len(),
        forall|k: int| at <= k < list.len() ==> node.id < (#[trigger] list[k]).id,
        at > 0 ==> !(node.id < list[at - 1].id),
    ensures
        node_placed(list, node) == list.insert(at, node),
    decreases list.len(),
{
    if at == list.len() {
        assert(list.push(node) =~= list.insert(at, node));
    } else {
        let rest = list.drop_last();
        assert forall|k: int| at <= k < rest.len() implies node.id < (#[trigger] rest[k]).id by {
            assert(list[k] == rest[k]);
        }
        assert(node.id < list[list.len() - 1].id);
        lemma_node_placed(rest, node, at);
        assert(rest.insert(at, node).push(list.last()) =~= list.insert(at, node));
    }
}

/// Puts nodes into the order of their identities.
pub fn sort_by_identity(list: Vec<Snapshot>) -> (sorted: Vec<Snapshot>)
    ensures
        nodes(sorted@) == ordered_nodes(nodes(list@)),
{
    let ghost given = list@;
    let ghost all = nodes(list@);
    let mut sorted: Vec<Snapshot> = Vec::new();
    proof {
        assert(all.take(0) =~= Seq::empty());
        assert(nodes(sorted@) =~= Seq::empty());
    }
    for snapshot in iter: list
        invariant
            iter.seq() == given,
            all == nodes(given),
            nodes(sorted@) == ordered_nodes(all.take(iter.index() as int)),
    {
        assert(all.take(iter.index() + 1).drop_last() =~= all.take(iter.index() as int));
        assert(all.take(iter.index() + 1).last() == snapshot.node());
        let ghost before = nodes(sorted@);
        let ghost view = snapshot.node();
        let mut at: usize = sorted.len();
        while at > 0 && snapshot.id < sorted[at - 1].id
            invariant
                before == nodes(sorted@),
                at <= sorted@.len(),
                forall|k: int| at <= k < before.len() ==> snapshot.id < (#[trigger] before[k]).id,
            decreases at,
        {
            at = at - 1;
            proof {
                assert(before[at as int].id == sorted@[at as int].id);
            }
        }
        proof {
            if at > 0 {
                assert(before[at - 1].id == sorted@[at - 1].id);
            }
            lemma_node_placed(before, view, at as int);
        }
        sorted.insert(at, snapshot);
        proof {
            assert(nodes(sorted@) =~= before.insert(at as int, view));
        }
    }
    assert(all.take(all.len() as int) =~= all);
    sorted
}

// ---------------------------------------------------------------------------
// Anchors

/// A node declares something of its own, so that what is below it is source.
pub open spec fn owns_subtree(node: SourceNode) -> bool {
    ||| !(node.source is Inline)
    ||| node.class_name is Some
    ||| !(node.metadata.properties.deep().dom() =~= Set::empty())
    ||| !(node.metadata.attributes.deep().dom() =~= Set::empty())
}

fn is_empty_map<V: Plain>(map: &TextMap<V>) -> (empty: bool)
    ensures
        empty == (map.deep().dom() =~= Set::empty()),
{
    let len: usize = map.len();
    proof {
        assert(map.deep().dom() =~= map@.dom());
        if len == 0 {
            assert(map.keys() =~= Seq::empty());
            assert(map.deep().dom() =~= Set::empty());
        } else {
            assert(map.keys().to_set().contains(map.keys()[0]));
        }
    }
    len == 0
}

pub(crate) fn is_owning(node: &SourceNode) -> (owns: bool)
    ensures
        owns == owns_subtree(*node),
{
    let inline: bool = match &node.source {
        Source::Inline => true,
        _ => false,
    };
    !inline || node.class_name.is_some() || !is_empty_map(&node.metadata.properties) || !is_empty_map(
        &node.metadata.attributes,
    )
}

/// The container of that name and class below an instance, made where there is
/// none: its place, and the instance then.
pub open spec fn anchored_child(parent: NodeView, name: Seq<char>, class: Seq<char>) -> Result<(NodeView, int), Seq<char>> {
    match child_place(parent.children, name) {
        Some(place) => if parent.children[place].class == class {
            Ok((parent, place))
        } else {
            Err(
                "engine anchor "@ + name + " has class "@ + parent.children[place].class + ", expected "@ + class,
            )
        },
        None => Ok(
            (
                NodeView {
                    children: parent.children.push(
                        plain_node(
                            stable_identity("anchor:"@ + class + ":"@ + name),
                            name,
                            class,
                            Map::empty(),
                        ),
                    ),
                    ..parent
                },
                parent.children.len() as int,
            ),
        ),
    }
}

fn find_or_create_child(parent: &mut Snapshot, name: &str, class: &str) -> (result: Result<usize, SourceError>)
    ensures
        match anchored_child(old(parent).node(), name@, class@) {
            Ok((node, place)) => (result matches Ok(found) && found == place && found < final(parent).children@.len())
                && final(parent).node() == node,
            Err(text) => result matches Err(error) && error.message@ == text,
        },
{
    let ghost given = parent.node();
    proof {
        lemma_children(*parent);
    }
    match find_child(&parent.children, name) {
        Some(place) => {
            if !parent.children[place].class.as_str().eq(class) {
                let mut message: String = joined("engine anchor ", name);
                message.append(" has class ");
                message.append(parent.children[place].class.as_str());
                message.append(", expected ");
                message.append(class);
                return Err(refused(message));
            }
            Ok(place)
        },
        None => {
            let place: usize = parent.children.len();
            let properties: Properties = TextMap::new();
            let child: Snapshot = Snapshot {
                id: stable_ref(
                    joined(joined(joined("anchor:", class).as_str(), ":").as_str(), name).as_str(),
                ),
                name: name.to_owned(),
                raw_name: None,
                class: class.to_owned(),
                properties,
                children: Vec::new(),
            };
            let ghost view = child.node();
            proof {
                assert(properties.deep() =~= Map::empty());
                assert(view.children =~= Seq::empty());
            }
            parent.children.push(child);
            proof {
                lemma_children(*parent);
                assert(parent.node().children =~= given.children.push(view));
            }
            Ok(place)
        },
    }
}

/// A container whose own mappings are anchors in turn.
pub open spec fn is_fixed_container(class: Seq<char>, name: Seq<char>, service: bool) -> bool {
    service && class == "StarterPlayer"@ && (name == "StarterPlayerScripts"@ || name == "StarterCharacterScripts"@)
}

/// What a directory that is mounted into an anchor holds.
pub open spec fn mounted(node: SourceNode, reflection: Reflection) -> Result<Seq<NodeView>, Seq<char>> {
    match node.source {
        Source::Directory(directory) => match directory_node(directory, "__contents"@, reflection) {
            Err(text) => Err(text),
            Ok((root, _)) => if root.class == "Folder"@ {
                Ok(root.children)
            } else {
                Err("engine anchor contents mount may not use an init script"@)
            },
        },
        Source::File(file) => Err("engine anchor $path must be a directory: "@ + file.path@),
        Source::Missing(path) => Err("failed to inspect mapped path "@ + path@),
        Source::Other(path) => Err("engine anchor $path must be a directory: "@ + path@),
        Source::Inline => Ok(Seq::empty()),
    }
}

/// A mapped instance in its place: it replaces the child of its name.
pub open spec fn with_mapped(anchor: NodeView, name: Seq<char>, child: NodeView) -> NodeView {
    match child_place(anchor.children, name) {
        Some(place) => NodeView { children: anchor.children.update(place, child), ..anchor },
        None => NodeView { children: anchor.children.push(child), ..anchor },
    }
}

/// An engine anchor with its mappings applied.
pub open spec fn anchored(
    anchor: NodeView,
    node: SourceNode,
    route: Seq<Seq<char>>,
    service: bool,
    known: Known,
    routes: Routes,
    reflection: Reflection,
) -> Composed
    decreases node,
{
    if node.class_name is Some {
        Err("$className is forbidden on engine anchor "@ + separated(route, "."@))
    } else {
        match with_metadata(anchor, node.metadata, anchor.class, reflection, known) {
            Err(text) => Err(text),
            Ok((anchor, known)) => match mounted(node, reflection) {
                Err(text) => Err(text),
                Ok(contents) => {
                    let inline = node.source is Inline;
                    let start = if inline {
                        anchor
                    } else {
                        NodeView { children: contents, ..anchor }
                    };
                    let begun = if inline {
                        routes
                    } else {
                        routes.push(route)
                    };
                    match anchored_children(start, node.children@, inline, route, service, known, begun, reflection) {
                        Err(text) => Err(text),
                        Ok((anchor, known, routes)) => Ok(
                            (NodeView { children: ordered_nodes(anchor.children), ..anchor }, known, routes),
                        ),
                    }
                },
            },
        }
    }
}

/// An engine anchor with one mapping below it applied.
pub open spec fn anchored_step(
    anchor: NodeView,
    child: SourceChild,
    inline: bool,
    route: Seq<Seq<char>>,
    service: bool,
    known: Known,
    routes: Routes,
    reflection: Reflection,
) -> Composed
    decreases child,
{
    let below = route.push(child.name@);
    if is_fixed_container(anchor.class, child.name@, service) {
        match anchored_child(anchor, child.name@, child.name@) {
            Err(text) => Err(text),
            Ok((anchor, place)) => match anchored(
                anchor.children[place],
                child.node,
                below,
                false,
                known,
                routes,
                reflection,
            ) {
                Err(text) => Err(text),
                Ok((inner, known, routes)) => Ok(
                    (NodeView { children: anchor.children.update(place, inner), ..anchor }, known, routes),
                ),
            },
        }
    } else if !owns_subtree(child.node) && inline {
        Err(
            "mapping "@ + separated(below, "."@)
                + " may not route through an arbitrary manifest-owned instance"@,
        )
    } else {
        match evaluated(child.name@, child.node, below, known, false, reflection) {
            Err(text) => Err(text),
            Ok((None, known)) => Ok((anchor, known, routes)),
            Ok((Some(mapped), known)) => Ok((with_mapped(anchor, child.name@, mapped), known, routes.push(below))),
        }
    }
}

/// An engine anchor with the mappings below it applied.
pub open spec fn anchored_children(
    anchor: NodeView,
    children: Seq<SourceChild>,
    inline: bool,
    route: Seq<Seq<char>>,
    service: bool,
    known: Known,
    routes: Routes,
    reflection: Reflection,
) -> Composed
    decreases children,
{
    if children.len() == 0 {
        Ok((anchor, known, routes))
    } else {
        match anchored_children(anchor, children.drop_last(), inline, route, service, known, routes, reflection) {
            Err(text) => Err(text),
            Ok((anchor, known, routes)) => anchored_step(
                anchor,
                children.last(),
                inline,
                route,
                service,
                known,
                routes,
                reflection,
            ),
        }
    }
}

proof fn lemma_anchored_fails(
    anchor: NodeView,
    children: Seq<SourceChild>,
    at: int,
    inline: bool,
    route: Seq<Seq<char>>,
    service: bool,
    known: Known,
    routes: Routes,
    reflection: Reflection,
)
    requires
        0 <= at <= children.len(),
        anchored_children(anchor, children.take(at), inline, route, service, known, routes, reflection) is Err,
    ensures
        anchored_children(anchor, children, inline, route, service, known, routes, reflection) == anchored_children(
            anchor,
            children.take(at),
            inline,
            route,
            service,
            known,
            routes,
            reflection,
        ),
    decreases children.len(),
{
    if at == children.len() {
        assert(children.take(at) =~= children);
    } else {
        assert(children.drop_last().take(at) =~= children.take(at));
        lemma_anchored_fails(anchor, children.drop_last(), at, inline, route, service, known, routes, reflection);
    }
}

fn mount(node: &SourceNode, reflection: &Reflection) -> (result: Result<Vec<Snapshot>, SourceError>)
    ensures
        match mounted(*node, *reflection) {
            Ok(expected) => result matches Ok(found) && nodes(found@) == expected,
            Err(text) => result matches Err(error) && error.message@ == text,
        },
{
    match &node.source {
        Source::Directory(directory) => match read_directory_instance(directory, "__contents", reflection) {
            Err(error) => Err(error),
            Ok((root, _)) => {
                proof {
                    lemma_children(root);
                }
                if root.class.as_str().eq("Folder") {
                    Ok(root.children)
                } else {
                    Err(refused("engine anchor contents mount may not use an init script".to_owned()))
                }
            },
        },
        Source::File(file) => Err(
            refused(joined("engine anchor $path must be a directory: ", file.path.as_str())),
        ),
        Source::Missing(path) => Err(refused(joined("failed to inspect mapped path ", path.as_str()))),
        Source::Other(path) => Err(refused(joined("engine anchor $path must be a directory: ", path.as_str()))),
        Source::Inline => {
            let none: Vec<Snapshot> = Vec::new();
            proof {
                assert(nodes(none@) =~= Seq::empty());
            }
            Ok(none)
        },
    }
}

fn put_mapped(anchor: &mut Snapshot, name: &str, child: Snapshot)
    ensures
        final(anchor).node() == with_mapped(old(anchor).node(), name@, child.node()),
{
    let ghost given = anchor.node();
    let ghost view = child.node();
    proof {
        lemma_children(*anchor);
    }
    match find_child(&anchor.children, name) {
        Some(place) => {
            anchor.children.set(place, child);
            proof {
                lemma_children(*anchor);
                assert(anchor.node().children =~= given.children.update(place as int, view));
            }
        },
        None => {
            anchor.children.push(child);
            proof {
                lemma_children(*anchor);
                assert(anchor.node().children =~= given.children.push(view));
            }
        },
    }
}

/// Applies one mapping below an engine anchor.
fn apply_anchor_child(
    anchor: &mut Snapshot,
    child: &SourceChild,
    inline: bool,
    route: &Vec<String>,
    service: bool,
    known: &mut Identities,
    routes: &mut Vec<Vec<String>>,
    reflection: &Reflection,
) -> (result: Result<(), SourceError>)
    ensures
        match anchored_step(
            old(anchor).node(),
            *child,
            inline,
            texts(route@),
            service,
            old(known).deep(),
            paths(old(routes)@),
            *reflection,
        ) {
            Ok((expected, after, lead)) => result is Ok && final(anchor).node() == expected && final(known).deep()
                == after && paths(final(routes)@) == lead,
            Err(text) => result matches Err(error) && error.message@ == text,
        },
    decreases child, 2int,
{
    let ghost here = texts(route@);
    let mut below: Vec<String> = copy_texts(route);
    below.push(child.name.clone());
    proof {
        assert(texts(below@) =~= here.push(child.name@));
    }
    let name: &str = child.name.as_str();
    if service && anchor.class.as_str().eq("StarterPlayer") && (name.eq("StarterPlayerScripts") || name.eq(
        "StarterCharacterScripts",
    )) {
        let place: usize = match find_or_create_child(anchor, name, name) {
            Ok(place) => place,
            Err(error) => {
                return Err(error);
            },
        };
        let ghost above = anchor.node();
        proof {
            lemma_children(*anchor);
        }
        let inner: Snapshot = anchor.children.remove(place);
        match apply_anchor(inner, &child.node, &below, false, known, routes, reflection) {
            Ok(applied) => {
                let ghost view = applied.node();
                anchor.children.insert(place, applied);
                proof {
                    lemma_children(*anchor);
                    assert(anchor.node().children =~= above.children.update(place as int, view));
                }
                Ok(())
            },
            Err(error) => Err(error),
        }
    } else if !is_owning(&child.node) && inline {
        Err(
            refused(
                joined(
                    joined("mapping ", join(&below, ".").as_str()).as_str(),
                    " may not route through an arbitrary manifest-owned instance",
                ),
            ),
        )
    } else {
        match evaluate_node(name, &child.node, &below, known, false, reflection) {
            Ok(mapped) => {
                match mapped {
                    Some(mapped) => {
                        let ghost before = paths(routes@);
                        put_mapped(anchor, name, mapped);
                        let ghost lead = texts(below@);
                        routes.push(below);
                        proof {
                            assert(paths(routes@) =~= before.push(lead));
                        }
                    },
                    None => {},
                }
                Ok(())
            },
            Err(error) => Err(error),
        }
    }
}

/// Applies the mappings below an engine anchor.
fn apply_anchor_children(
    anchor: &mut Snapshot,
    node: &SourceNode,
    inline: bool,
    route: &Vec<String>,
    service: bool,
    known: &mut Identities,
    routes: &mut Vec<Vec<String>>,
    reflection: &Reflection,
) -> (result: Result<(), SourceError>)
    ensures
        match anchored_children(
            old(anchor).node(),
            node.children@,
            inline,
            texts(route@),
            service,
            old(known).deep(),
            paths(old(routes)@),
            *reflection,
        ) {
            Ok((expected, after, lead)) => result is Ok && final(anchor).node() == expected && final(known).deep()
                == after && paths(final(routes)@) == lead,
            Err(text) => result matches Err(error) && error.message@ == text,
        },
    decreases node, 0int,
{
    let ghost children = node.children@;
    let mut at: usize = 0;
    proof {
        assert(children.take(0) =~= Seq::empty());
    }
    while at < node.children.len()
        invariant
            at <= node.children@.len(),
            children == node.children@,
            anchored_children(
                old(anchor).node(),
                children.take(at as int),
                inline,
                texts(route@),
                service,
                old(known).deep(),
                paths(old(routes)@),
                *reflection,
            ) == Ok::<(NodeView, Known, Routes), Seq<char>>((anchor.node(), known.deep(), paths(routes@))),
        decreases node.children@.len() - at,
    {
        proof {
            assert(children.take(at + 1).drop_last() =~= children.take(at as int));
            assert(children.take(at + 1).last() == node.children@[at as int]);
        }
        match apply_anchor_child(anchor, &node.children[at], inline, route, service, known, routes, reflection) {
            Ok(()) => {},
            Err(error) => {
                proof {
                    lemma_anchored_fails(
                        old(anchor).node(),
                        children,
                        at + 1,
                        inline,
                        texts(route@),
                        service,
                        old(known).deep(),
                        paths(old(routes)@),
                        *reflection,
                    );
                }
                return Err(error);
            },
        }
        at = at + 1;
    }
    proof {
        assert(children.take(children.len() as int) =~= children);
    }
    Ok(())
}

/// Applies the mappings of a project to an engine anchor. A mapping is a hard
/// barrier: source on disk replaces what the manifest has below it.
pub fn apply_anchor(
    anchor: Snapshot,
    node: &SourceNode,
    route: &Vec<String>,
    service: bool,
    known: &mut Identities,
    routes: &mut Vec<Vec<String>>,
    reflection: &Reflection,
) -> (result: Result<Snapshot, SourceError>)
    ensures
        match anchored(
            anchor.node(),
            *node,
            texts(route@),
            service,
            old(known).deep(),
            paths(old(routes)@),
            *reflection,
        ) {
            Ok((expected, after, lead)) => (result matches Ok(found) && found.node() == expected) && final(known).deep()
                == after && paths(final(routes)@) == lead,
            Err(text) => result matches Err(error) && error.message@ == text,
        },
    decreases node, 1int,
{
    if node.class_name.is_some() {
        return Err(refused(joined("$className is forbidden on engine anchor ", join(route, ".").as_str())));
    }
    let ghost routes_before = paths(routes@);
    let class: String = anchor.class.clone();
    let mut whole: Snapshot = match apply_metadata(anchor, &node.metadata, class.as_str(), reflection, known) {
        Ok(anchor) => anchor,
        Err(error) => {
            return Err(error);
        },
    };
    let contents: Vec<Snapshot> = match mount(node, reflection) {
        Ok(contents) => contents,
        Err(error) => {
            return Err(error);
        },
    };
    let inline: bool = match &node.source {
        Source::Inline => true,
        _ => false,
    };
    if !inline {
        let ghost all = nodes(contents@);
        whole.children = contents;
        let copy: Vec<String> = copy_texts(route);
        routes.push(copy);
        proof {
            lemma_children(whole);
            assert(whole.node().children =~= all);
            assert(paths(routes@) =~= routes_before.push(texts(route@)));
        }
    }
    match apply_anchor_children(&mut whole, node, inline, route, service, known, routes, reflection) {
        Ok(()) => {},
        Err(error) => {
            return Err(error);
        },
    }
    let ghost plain = whole.node();
    proof {
        lemma_children(whole);
    }
    let mut unordered: Vec<Snapshot> = Vec::new();
    std::mem::swap(&mut unordered, &mut whole.children);
    whole.children = sort_by_identity(unordered);
    proof {
        lemma_children(whole);
        assert(whole.node().children =~= ordered_nodes(plain.children));
    }
    Ok(whole)
}

// ---------------------------------------------------------------------------
// Projects

/// A place with the mappings below one service applied.
pub open spec fn serviced(
    root: NodeView,
    child: SourceChild,
    known: Known,
    routes: Routes,
    reflection: Reflection,
) -> Composed {
    if !reflection.service(child.name@) {
        Err("project route DataModel."@ + child.name@ + " is not an engine Service anchor"@)
    } else {
        match anchored_child(root, child.name@, child.name@) {
            Err(text) => Err(text),
            Ok((root, place)) => match anchored(
                root.children[place],
                child.node,
                seq![child.name@],
                true,
                known,
                routes,
                reflection,
            ) {
                Err(text) => Err(text),
                Ok((inner, known, routes)) => Ok(
                    (NodeView { children: root.children.update(place, inner), ..root }, known, routes),
                ),
            },
        }
    }
}

/// A place with the mappings below services applied.
pub open spec fn all_serviced(
    root: NodeView,
    children: Seq<SourceChild>,
    known: Known,
    routes: Routes,
    reflection: Reflection,
) -> Composed
    decreases children.len(),
{
    if children.len() == 0 {
        Ok((root, known, routes))
    } else {
        match all_serviced(root, children.drop_last(), known, routes, reflection) {
            Err(text) => Err(text),
            Ok((root, known, routes)) => serviced(root, children.last(), known, routes, reflection),
        }
    }
}

proof fn lemma_serviced_fails(
    root: NodeView,
    children: Seq<SourceChild>,
    at: int,
    known: Known,
    routes: Routes,
    reflection: Reflection,
)
    requires
        0 <= at <= children.len(),
        all_serviced(root, children.take(at), known, routes, reflection) is Err,
    ensures
        all_serviced(root, children, known, routes, reflection) == all_serviced(
            root,
            children.take(at),
            known,
            routes,
            reflection,
        ),
    decreases children.len(),
{
    if at == children.len() {
        assert(children.take(at) =~= children);
    } else {
        assert(children.drop_last().take(at) =~= children.take(at));
        lemma_serviced_fails(root, children.drop_last(), at, known, routes, reflection);
    }
}

/// Every identity occurs once, and every reference leads somewhere.
pub open spec fn sound(node: NodeView) -> bool {
    &&& first_duplicate(flat(node, None), 0) is None
    &&& first_dangling_node(ids(node), flat(node, None), 0) is None
}

/// How the first fault of an unsound place reads.
pub open spec fn unsound_text(node: NodeView) -> Seq<char> {
    let list = flat(node, None);
    match first_duplicate(list, 0) {
        Some((earlier, later)) => "duplicate composed identity "@ + ref_chars(list[later].node.id) + " at "@
            + node_words(list[earlier].node) + " and "@ + node_words(list[later].node),
        None => {
            let (at, property) = first_dangling_node(ids(node), list, 0)->0;
            "dangling composed reference "@ + list[at].node.name + "."@ + property + " -> "@ + ref_chars(
                list[at].node.properties[property]->Ref_0,
            ) + "; restore the mapped source identity or modify the relevant manifest reference"@
        },
    }
}

/// A place with the mappings of a project applied, and the routes to where source
/// on disk begins.
pub open spec fn composed_place(studio: NodeView, tree: SourceNode, reflection: Reflection) -> Result<
    (NodeView, Routes),
    Seq<char>,
> {
    if studio.class != "DataModel"@ {
        Err("Studio data root must be DataModel"@)
    } else if !(tree.class_name matches Some(class) && class@ == "DataModel"@) {
        Err("project tree must declare $className: DataModel"@)
    } else if !(tree.source is Inline) {
        Err("$path is forbidden on the DataModel project root"@)
    } else {
        match with_metadata(studio, tree.metadata, "DataModel"@, reflection, Map::empty()) {
            Err(text) => Err(text),
            Ok((root, known)) => match all_serviced(root, tree.children@, known, Seq::empty(), reflection) {
                Err(text) => Err(text),
                Ok((root, _, routes)) => Ok((root, routes)),
            },
        }
    }
}

fn apply_services(
    root: &mut Snapshot,
    tree: &SourceNode,
    known: &mut Identities,
    routes: &mut Vec<Vec<String>>,
    reflection: &Reflection,
) -> (result: Result<(), SourceError>)
    ensures
        match all_serviced(
            old(root).node(),
            tree.children@,
            old(known).deep(),
            paths(old(routes)@),
            *reflection,
        ) {
            Ok((expected, after, lead)) => result is Ok && final(root).node() == expected && final(known).deep() == after
                && paths(final(routes)@) == lead,
            Err(text) => result matches Err(error) && error.message@ == text,
        },
{
    let ghost children = tree.children@;
    let mut at: usize = 0;
    proof {
        assert(children.take(0) =~= Seq::empty());
    }
    while at < tree.children.len()
        invariant
            at <= tree.children@.len(),
            children == tree.children@,
            all_serviced(
                old(root).node(),
                children.take(at as int),
                old(known).deep(),
                paths(old(routes)@),
                *reflection,
            ) == Ok::<(NodeView, Known, Routes), Seq<char>>((root.node(), known.deep(), paths(routes@))),
        decreases tree.children@.len() - at,
    {
        let child: &SourceChild = &tree.children[at];
        proof {
            assert(children.take(at + 1).drop_last() =~= children.take(at as int));
            assert(children.take(at + 1).last() == *child);
        }
        let name: &str = child.name.as_str();
        let mut route: Vec<String> = Vec::new();
        route.push(child.name.clone());
        proof {
            assert(texts(route@) =~= seq![child.name@]);
        }
        let service: bool = reflection.is_service(name);
        let applied: Result<(), SourceError> = if !service {
            Err(
                refused(
                    joined(joined("project route DataModel.", name).as_str(), " is not an engine Service anchor"),
                ),
            )
        } else {
            match find_or_create_child(root, name, name) {
                Ok(place) => {
                    let ghost above = root.node();
                    proof {
                        lemma_children(*root);
                    }
                    let inner: Snapshot = root.children.remove(place);
                    match apply_anchor(inner, &child.node, &route, true, known, routes, reflection) {
                        Ok(inner) => {
                            let ghost view = inner.node();
                            root.children.insert(place, inner);
                            proof {
                                lemma_children(*root);
                                assert(root.node().children =~= above.children.update(place as int, view));
                            }
                            Ok(())
                        },
                        Err(error) => Err(error),
                    }
                },
                Err(error) => Err(error),
            }
        };
        match applied {
            Ok(()) => {},
            Err(error) => {
                proof {
                    lemma_serviced_fails(
                        old(root).node(),
                        children,
                        at + 1,
                        old(known).deep(),
                        paths(old(routes)@),
                        *reflection,
                    );
                }
                return Err(error);
            },
        }
        at = at + 1;
    }
    proof {
        assert(children.take(children.len() as int) =~= children);
    }
    Ok(())
}

/// Composes a place: the hierarchy that Studio owns, with the mapped source of a
/// project. The result is sound, and names the routes to where source on disk
/// begins.
pub fn evaluate_project(studio: Snapshot, tree: &SourceNode, reflection: &Reflection) -> (result: Result<
    (Snapshot, Vec<Vec<String>>),
    SourceError,
>)
    ensures
        match composed_place(studio.node(), *tree, *reflection) {
            Err(text) => result matches Err(error) && error.message@ == text,
            Ok((node, routes)) => {
                &&& sound(node) ==> (result matches Ok(found) && found.0.node() == node && paths(found.1@) == routes)
                &&& !sound(node) ==> (result matches Err(error) && error.message@ == unsound_text(node))
            },
        },
{
    if !studio.class.as_str().eq("DataModel") {
        return Err(refused("Studio data root must be DataModel".to_owned()));
    }
    let declared: bool = match &tree.class_name {
        Some(class) => class.as_str().eq("DataModel"),
        None => false,
    };
    if !declared {
        return Err(refused("project tree must declare $className: DataModel".to_owned()));
    }
    match &tree.source {
        Source::Inline => {},
        _ => {
            return Err(refused("$path is forbidden on the DataModel project root".to_owned()));
        },
    }
    let mut known: Identities = TextMap::new();
    let mut routes: Vec<Vec<String>> = Vec::new();
    proof {
        assert(known.deep() =~= Map::empty());
        assert(paths(routes@) =~= Seq::empty());
    }
    let mut root: Snapshot = match apply_metadata(studio, &tree.metadata, "DataModel", reflection, &mut known) {
        Ok(root) => root,
        Err(error) => {
            return Err(error);
        },
    };
    match apply_services(&mut root, tree, &mut known, &mut routes, reflection) {
        Ok(()) => {},
        Err(error) => {
            return Err(error);
        },
    }
    match validate_unique_snapshot_ids(&root) {
        Ok(()) => {},
        Err(error) => {
            return Err(refused(error.message()));
        },
    }
    match validate_snapshot_references(&root) {
        Ok(()) => {},
        Err(error) => {
            return Err(refused(error.message()));
        },
    }
    Ok((root, routes))
}

/// A hierarchy without the mapped instances below it.
pub open spec fn unmapped(node: NodeView, mapped: Set<Ref>) -> NodeView
    decreases node,
{
    NodeView { children: unmapped_list(node.children, mapped), ..node }
}

pub open spec fn unmapped_list(list: Seq<NodeView>, mapped: Set<Ref>) -> Seq<NodeView>
    decreases list,
{
    if list.len() == 0 {
        Seq::empty()
    } else if mapped.contains(list.last().id) {
        unmapped_list(list.drop_last(), mapped)
    } else {
        unmapped_list(list.drop_last(), mapped).push(unmapped(list.last(), mapped))
    }
}

/// Takes the mapped instances out of a hierarchy: what is left is the skeleton that
/// source on disk is put into again.
pub fn prune_mapped(snapshot: &Snapshot, mapped_refs: &HashSet<u128>) -> (pruned: Snapshot)
    ensures
        pruned.node() == unmapped(snapshot.node(), mapped_refs@),
    decreases snapshot,
{
    let mut children: Vec<Snapshot> = Vec::new();
    let ghost list = snapshot.node().children;
    let mut at: usize = 0;
    proof {
        lemma_children(*snapshot);
        assert(list.take(0) =~= Seq::empty());
        assert(nodes(children@) =~= Seq::empty());
    }
    while at < snapshot.children.len()
        invariant
            at <= snapshot.children@.len(),
            list == snapshot.node().children,
            list.len() == snapshot.children@.len(),
            forall|k: int| 0 <= k < list.len() ==> #[trigger] list[k] == snapshot.children@[k].node(),
            nodes(children@) == unmapped_list(list.take(at as int), mapped_refs@),
        decreases snapshot.children@.len() - at,
    {
        proof {
            assert(list.take(at + 1).drop_last() =~= list.take(at as int));
            assert(list.take(at + 1).last() == snapshot.children@[at as int].node());
        }
        if !mapped_refs.contains(&snapshot.children[at].id) {
            let ghost before = nodes(children@);
            let child: Snapshot = prune_mapped(&snapshot.children[at], mapped_refs);
            let ghost view = child.node();
            children.push(child);
            proof {
                assert(nodes(children@) =~= before.push(view));
            }
        }
        at = at + 1;
    }
    proof {
        assert(list.take(list.len() as int) =~= list);
    }
    let pruned: Snapshot = Snapshot {
        id: snapshot.id,
        name: snapshot.name.clone(),
        raw_name: crate::snapshot::copy_raw(&snapshot.raw_name),
        class: snapshot.class.clone(),
        properties: snapshot.properties.copy(),
        children,
    };
    proof {
        lemma_children(pruned);
        assert(pruned.node().children =~= unmapped(snapshot.node(), mapped_refs@).children);
    }
    pruned
}

/// Composes a served place again: the mapped instances are taken out and read from
/// disk anew.
pub fn reevaluate_projected(
    previous: &Snapshot,
    mapped_refs: &HashSet<u128>,
    tree: &SourceNode,
    reflection: &Reflection,
) -> (result: Result<(Snapshot, Vec<Vec<String>>), SourceError>)
    ensures
        match composed_place(unmapped(previous.node(), mapped_refs@), *tree, *reflection) {
            Err(text) => result matches Err(error) && error.message@ == text,
            Ok((node, routes)) => {
                &&& sound(node) ==> (result matches Ok(found) && found.0.node() == node && paths(found.1@) == routes)
                &&& !sound(node) ==> (result matches Err(error) && error.message@ == unsound_text(node))
            },
        },
{
    evaluate_project(prune_mapped(previous, mapped_refs), tree, reflection)
}

proof fn lemma_nothing_mapped(node: NodeView, parent: Option<Ref>, mapped: Set<Ref>)
    requires
        !mapped.contains(node.id),
    ensures
        forall|k: int|
            0 <= k < flat(unmapped(node, mapped), parent).len() ==> !mapped.contains(
                #[trigger] flat(unmapped(node, mapped), parent)[k].node.id,
            ),
    decreases node, 1int,
{
    let list = flat(unmapped(node, mapped), parent);
    let below = flat_list(unmapped_list(node.children, mapped), Some(node.id));
    lemma_nothing_mapped_below(node.children, Some(node.id), mapped);
    assert forall|k: int| 0 <= k < list.len() implies !mapped.contains(#[trigger] list[k].node.id) by {
        if k > 0 {
            assert(list[k] == below[k - 1]);
        } else {
            assert(list[0].node == unmapped(node, mapped));
        }
    }
}

proof fn lemma_nothing_mapped_below(list: Seq<NodeView>, parent: Option<Ref>, mapped: Set<Ref>)
    ensures
        forall|k: int|
            0 <= k < flat_list(unmapped_list(list, mapped), parent).len() ==> !mapped.contains(
                #[trigger] flat_list(unmapped_list(list, mapped), parent)[k].node.id,
            ),
    decreases list, 0int,
{
    if list.len() > 0 {
        lemma_nothing_mapped_below(list.drop_last(), parent, mapped);
        if !mapped.contains(list.last().id) {
            lemma_nothing_mapped(list.last(), parent, mapped);
            let kept = unmapped_list(list.drop_last(), mapped);
            let pruned = unmapped(list.last(), mapped);
            let before = flat_list(kept, parent);
            let last = flat(pruned, parent);
            let all = flat_list(kept.push(pruned), parent);
            assert(kept.push(pruned).drop_last() =~= kept);
            assert(all == before + last);
            assert forall|k: int| 0 <= k < all.len() implies !mapped.contains(#[trigger] all[k].node.id) by {
                if k < before.len() {
                    assert(all[k] == before[k]);
                } else {
                    assert(all[k] == last[k - before.len()]);
                }
            }
        }
    }
}

/// What is left of a place without its mapped instances holds nothing that is mapped,
/// provided that the place itself is not.
pub proof fn law_pruned_places_hold_nothing_mapped(node: NodeView, mapped: Set<Ref>)
    requires
        !mapped.contains(node.id),
    ensures
        ids(unmapped(node, mapped)).disjoint(mapped),
{
    lemma_nothing_mapped(node, None, mapped);
    let list = flat(unmapped(node, mapped), None);
    assert forall|id: Ref| ids(unmapped(node, mapped)).contains(id) implies !mapped.contains(id) by {
        let k = flat_ids(list).index_of(id);
        assert(flat_ids(list)[k] == list[k].node.id);
    }
}

/// Two hierarchies that are the same but for what stands at and below mapped instances.
pub open spec fn same_outside(left: NodeView, right: NodeView, mapped: Set<Ref>) -> bool
    decreases left,
{
    &&& right == (NodeView { children: right.children, ..left })
    &&& left.children.len() == right.children.len()
    &&& forall|at: int|
        #![trigger left.children[at]]
        #![trigger right.children[at]]
        0 <= at < left.children.len() ==> mapped.contains(left.children[at].id) == mapped.contains(
            right.children[at].id,
        ) && (mapped.contains(left.children[at].id) || same_outside(left.children[at], right.children[at], mapped))
}

proof fn lemma_same_outside(left: NodeView, right: NodeView, mapped: Set<Ref>)
    requires
        same_outside(left, right, mapped),
    ensures
        unmapped(left, mapped) == unmapped(right, mapped),
    decreases left, left.children.len() + 1,
{
    lemma_same_children(left, right, mapped, left.children.len() as int);
    assert(left.children.take(left.children.len() as int) =~= left.children);
    assert(right.children.take(right.children.len() as int) =~= right.children);
}

proof fn lemma_same_children(left: NodeView, right: NodeView, mapped: Set<Ref>, count: int)
    requires
        same_outside(left, right, mapped),
        0 <= count <= left.children.len(),
    ensures
        unmapped_list(left.children.take(count), mapped) == unmapped_list(right.children.take(count), mapped),
    decreases left, count,
{
    if count > 0 {
        lemma_same_children(left, right, mapped, count - 1);
        assert(left.children.take(count).drop_last() =~= left.children.take(count - 1));
        assert(right.children.take(count).drop_last() =~= right.children.take(count - 1));
        let child = left.children[count - 1];
        assert(left.children.take(count).last() == child);
        assert(right.children.take(count).last() == right.children[count - 1]);
        if !mapped.contains(child.id) {
            lemma_same_outside(child, right.children[count - 1], mapped);
        }
    } else {
        assert(left.children.take(0) =~= right.children.take(0));
    }
}

/// What Studio changed at and below mapped instances is gone when source on disk is put
/// into a place again: places that differ only there become the same place.
pub proof fn law_changes_below_mappings_are_removed(
    left: NodeView,
    right: NodeView,
    mapped: Set<Ref>,
    tree: SourceNode,
    reflection: Reflection,
)
    requires
        same_outside(left, right, mapped),
    ensures
        composed_place(unmapped(left, mapped), tree, reflection) == composed_place(
            unmapped(right, mapped),
            tree,
            reflection,
        ),
{
    lemma_same_outside(left, right, mapped);
}

} // verus!
