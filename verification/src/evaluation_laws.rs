//! What evaluating a project is for: mapped source stands where it is mapped, and what is
//! not mapped stays.

use crate::evaluation::{
    all_serviced, anchored, anchored_child, anchored_children, anchored_step, composed_place, is_fixed_container,
    mounted, node_placed, ordered_nodes, serviced, Known, Routes,
};
use crate::extraction_laws::is_starter_container;
use crate::reflection::Reflection;
use crate::snapshot::NodeView;
use crate::source_metadata::{child_place, with_metadata};
use crate::source_tree::{
    classed, contributed, directory_node, evaluated, plain_source, Source, SourceChild, SourceNode,
};
use vstd::prelude::*;

verus! {

/// An instance is what a node of a project stands for.
#[verifier::opaque]
pub open spec fn stands_for(
    found: NodeView,
    name: Seq<char>,
    node: SourceNode,
    route: Seq<Seq<char>>,
    reflection: Reflection,
) -> bool {
    exists|known: Known| is_evaluated(#[trigger] evaluated(name, node, route, known, false, reflection), found)
}

pub open spec fn is_evaluated(outcome: Result<(Option<NodeView>, Known), Seq<char>>, found: NodeView) -> bool {
    outcome matches Ok((Some(node), _)) && node == found
}

proof fn lemma_place(list: Seq<NodeView>, name: Seq<char>)
    ensures
        match child_place(list, name) {
            Some(place) => 0 <= place < list.len() && list[place].name == name,
            None => forall|k: int| 0 <= k < list.len() ==> (#[trigger] list[k]).name != name,
        },
    decreases list.len(),
{
    if list.len() > 0 {
        let rest = list.drop_last();
        lemma_place(rest, name);
        if child_place(list, name) is None {
            assert forall|k: int| 0 <= k < list.len() implies (#[trigger] list[k]).name != name by {
                if k < rest.len() {
                    assert(rest[k] == list[k]);
                }
            }
        }
    }
}

proof fn lemma_placed_members(list: Seq<NodeView>, node: NodeView)
    ensures
        node_placed(list, node).contains(node),
        forall|other: NodeView| #[trigger] list.contains(other) ==> node_placed(list, node).contains(other),
        forall|other: NodeView| #[trigger]
            node_placed(list, node).contains(other) ==> list.contains(other) || other == node,
    decreases list.len(),
{
    let all = node_placed(list, node);
    if list.len() > 0 && node.id < list.last().id {
        let rest = list.drop_last();
        let inner = node_placed(rest, node);
        lemma_placed_members(rest, node);
        assert(all[inner.index_of(node)] == node);
        assert forall|other: NodeView| #[trigger] list.contains(other) implies all.contains(other) by {
            let k = list.index_of(other);
            if k < rest.len() {
                assert(rest[k] == other);
                assert(rest.contains(other));
                assert(all[inner.index_of(other)] == other);
            } else {
                assert(all[inner.len() as int] == other);
            }
        }
        assert forall|other: NodeView| #[trigger] all.contains(other) implies list.contains(other) || other == node by {
            let k = all.index_of(other);
            if k < inner.len() {
                assert(inner[k] == other);
                assert(inner.contains(other));
                if rest.contains(other) {
                    assert(list[rest.index_of(other)] == other);
                }
            } else {
                assert(list[list.len() - 1] == other);
            }
        }
    } else {
        assert(all[list.len() as int] == node);
        assert forall|other: NodeView| #[trigger] list.contains(other) implies all.contains(other) by {
            assert(all[list.index_of(other)] == other);
        }
        assert forall|other: NodeView| #[trigger] all.contains(other) implies list.contains(other) || other == node by {
            let k = all.index_of(other);
            if k < list.len() {
                assert(list[k] == other);
            }
        }
    }
}

proof fn lemma_ordered_members(list: Seq<NodeView>)
    ensures
        forall|other: NodeView| #[trigger] ordered_nodes(list).contains(other) <==> list.contains(other),
    decreases list.len(),
{
    if list.len() > 0 {
        let rest = list.drop_last();
        lemma_ordered_members(rest);
        lemma_placed_members(ordered_nodes(rest), list.last());
        assert forall|other: NodeView| #[trigger] ordered_nodes(list).contains(other) <==> list.contains(other) by {
            if list.contains(other) {
                let k = list.index_of(other);
                if k < rest.len() {
                    assert(rest[k] == other);
                }
            }
            if ordered_nodes(rest).contains(other) {
                assert(rest.contains(other));
                assert(list[rest.index_of(other)] == other);
            }
            assert(list[list.len() - 1] == list.last());
        }
    }
}

/// What a node stands for has the name of the node.
proof fn lemma_evaluated_name(
    name: Seq<char>,
    node: SourceNode,
    route: Seq<Seq<char>>,
    known: Known,
    nested: bool,
    reflection: Reflection,
)
    ensures
        evaluated(name, node, route, known, nested, reflection) matches Ok((Some(found), _)) ==> found.name == name || (
        node.source matches Source::Directory(directory) && directory.project is Some),
        !nested ==> !(evaluated(name, node, route, known, nested, reflection) matches Ok((None, _))),
{
    if let Ok((Some(found), _)) = evaluated(name, node, route, known, nested, reflection) {
        let start = match node.source {
            Source::Directory(directory) => directory_node(directory, name, reflection)->Ok_0.0,
            _ => plain_source(name, node, route, nested)->Ok_0->0,
        };
        let named = classed(start, node.class_name, node.source is Inline, name, nested)->Ok_0;
        let valued = with_metadata(named, node.metadata, named.class, reflection, known)->Ok_0;
        lemma_contributed_name(valued.0, node.children@, route, valued.1, nested, reflection);
    }
}

proof fn lemma_contributed_name(
    base: NodeView,
    children: Seq<SourceChild>,
    route: Seq<Seq<char>>,
    known: Known,
    nested: bool,
    reflection: Reflection,
)
    ensures
        contributed(base, children, route, known, nested, reflection) matches Ok((found, _)) ==> found.name == base.name,
    decreases children.len(),
{
    if children.len() > 0 {
        lemma_contributed_name(base, children.drop_last(), route, known, nested, reflection);
    }
}

/// A node of a project whose name its instance has: it leads to no directory with a project
/// of its own.
pub open spec fn keeps_name(node: SourceNode) -> bool {
    !(node.source matches Source::Directory(directory) && directory.project is Some)
}

// ---------------------------------------------------------------------------
// Anchors

/// A child of a list has a name and is what a node stands for.
#[verifier::opaque]
spec fn is_there(
    list: Seq<NodeView>,
    child: SourceChild,
    route: Seq<Seq<char>>,
    reflection: Reflection,
) -> bool {
    exists|p: int|
        0 <= p < list.len() && (#[trigger] list[p]).name == child.name@ && stands_for(
            list[p],
            child.name@,
            child.node,
            route.push(child.name@),
            reflection,
        )
}

/// What is there stays there with the instances of its name.
proof fn lemma_there_kept(
    list: Seq<NodeView>,
    other: Seq<NodeView>,
    child: SourceChild,
    route: Seq<Seq<char>>,
    reflection: Reflection,
)
    requires
        is_there(list, child, route, reflection),
        forall|p: int| 0 <= p < list.len() && (#[trigger] list[p]).name == child.name@ ==> other.contains(list[p]),
    ensures
        is_there(other, child, route, reflection),
{
    reveal(is_there);
    let p = choose|p: int|
        0 <= p < list.len() && (#[trigger] list[p]).name == child.name@ && stands_for(
            list[p],
            child.name@,
            child.node,
            route.push(child.name@),
            reflection,
        );
    let q = other.index_of(list[p]);
    assert(other[q].name == child.name@);
}

proof fn lemma_step(
    anchor: NodeView,
    child: SourceChild,
    inline: bool,
    route: Seq<Seq<char>>,
    service: bool,
    known: Known,
    routes: Routes,
    reflection: Reflection,
)
    requires
        anchored_step(anchor, child, inline, route, service, known, routes, reflection) is Ok,
    ensures
        ({
            let after = anchored_step(anchor, child, inline, route, service, known, routes, reflection)->Ok_0.0;
            &&& after.name == anchor.name
            &&& after.class == anchor.class
            &&& after.children.len() >= anchor.children.len()
            &&& forall|p: int|
                0 <= p < anchor.children.len() && (#[trigger] anchor.children[p]).name != child.name@
                    ==> after.children[p] == anchor.children[p]
            &&& !is_fixed_container(anchor.class, child.name@, service) && keeps_name(child.node) ==> is_there(
                after.children,
                child,
                route,
                reflection,
            )
        }),
{
    let after = anchored_step(anchor, child, inline, route, service, known, routes, reflection)->Ok_0.0;
    lemma_place(anchor.children, child.name@);
    if !is_fixed_container(anchor.class, child.name@, service) {
        let below = route.push(child.name@);
        lemma_evaluated_name(child.name@, child.node, below, known, false, reflection);
        let outcome = evaluated(child.name@, child.node, below, known, false, reflection);
        let found = outcome->Ok_0.0->0;
        assert(is_evaluated(evaluated(child.name@, child.node, below, known, false, reflection), found));
        assert(stands_for(found, child.name@, child.node, below, reflection)) by {
            reveal(stands_for);
        }
        let p = match child_place(anchor.children, child.name@) {
            Some(place) => place,
            None => anchor.children.len() as int,
        };
        assert(after.children[p] == found);
        assert(keeps_name(child.node) ==> is_there(after.children, child, route, reflection)) by {
            reveal(is_there);
        }
    }
}

proof fn lemma_steps(
    anchor: NodeView,
    children: Seq<SourceChild>,
    inline: bool,
    route: Seq<Seq<char>>,
    service: bool,
    known: Known,
    routes: Routes,
    reflection: Reflection,
)
    requires
        anchored_children(anchor, children, inline, route, service, known, routes, reflection) is Ok,
    ensures
        ({
            let after = anchored_children(
                anchor,
                children,
                inline,
                route,
                service,
                known,
                routes,
                reflection,
            )->Ok_0.0;
            &&& after.name == anchor.name
            &&& after.class == anchor.class
            &&& after.children.len() >= anchor.children.len()
            &&& forall|p: int|
                0 <= p < anchor.children.len() && (forall|j: int|
                    0 <= j < children.len() ==> (#[trigger] children[j]).name@ != anchor.children[p].name)
                    ==> after.children[p] == #[trigger] anchor.children[p]
            &&& forall|j: int|
                0 <= j < children.len() && !is_fixed_container(anchor.class, (#[trigger] children[j]).name@, service)
                    && keeps_name(children[j].node) && (forall|later: int|
                    j < later < children.len() ==> (#[trigger] children[later]).name@ != children[j].name@) ==> is_there(
                    after.children,
                    children[j],
                    route,
                    reflection,
                )
        }),
    decreases children.len(),
{
    if children.len() > 0 {
        let rest = children.drop_last();
        let end = children.len() - 1;
        lemma_steps(anchor, rest, inline, route, service, known, routes, reflection);
        let (middle, known2, routes2) = anchored_children(
            anchor,
            rest,
            inline,
            route,
            service,
            known,
            routes,
            reflection,
        )->Ok_0;
        lemma_step(middle, children.last(), inline, route, service, known2, routes2, reflection);
        let after = anchored_children(anchor, children, inline, route, service, known, routes, reflection)->Ok_0.0;
        assert(forall|j: int| 0 <= j < rest.len() ==> #[trigger] rest[j] == children[j]);
        assert(children[end] == children.last());
        assert forall|p: int|
            0 <= p < anchor.children.len() && (forall|j: int|
                0 <= j < children.len() ==> (#[trigger] children[j]).name@ != anchor.children[p].name) implies after.children[p]
            == #[trigger] anchor.children[p] by {
            assert forall|j: int| 0 <= j < rest.len() implies (#[trigger] rest[j]).name@ != anchor.children[p].name by {
                assert(children[j].name@ != anchor.children[p].name);
            }
            assert(middle.children[p] == anchor.children[p]);
            assert(children[end].name@ != anchor.children[p].name);
        }
        assert forall|j: int|
            0 <= j < children.len() && !is_fixed_container(anchor.class, (#[trigger] children[j]).name@, service)
                && keeps_name(children[j].node) && (forall|later: int|
                j < later < children.len() ==> (#[trigger] children[later]).name@ != children[j].name@) implies is_there(
            after.children,
            children[j],
            route,
            reflection,
        ) by {
            if j < end {
                assert forall|later: int| j < later < rest.len() implies (#[trigger] rest[later]).name@ != rest[j].name@ by {
                    assert(children[later].name@ != children[j].name@);
                }
                assert(rest[j] == children[j]);
                assert(is_there(middle.children, rest[j], route, reflection));
                assert(children[end].name@ != children[j].name@);
                assert forall|p: int| 0 <= p < middle.children.len() && (#[trigger] middle.children[p]).name
                    == children[j].name@ implies after.children.contains(middle.children[p]) by {
                    assert(after.children[p] == middle.children[p]);
                }
                lemma_there_kept(middle.children, after.children, children[j], route, reflection);
            }
        }
    }
}

proof fn lemma_anchored(
    anchor: NodeView,
    node: SourceNode,
    route: Seq<Seq<char>>,
    service: bool,
    known: Known,
    routes: Routes,
    reflection: Reflection,
)
    requires
        anchored(anchor, node, route, service, known, routes, reflection) is Ok,
    ensures
        ({
            let after = anchored(anchor, node, route, service, known, routes, reflection)->Ok_0.0;
            let children = node.children@;
            &&& after.name == anchor.name
            &&& after.class == anchor.class
            &&& node.source is Inline ==> forall|p: int|
                0 <= p < anchor.children.len() && (forall|j: int|
                    0 <= j < children.len() ==> (#[trigger] children[j]).name@ != anchor.children[p].name)
                    ==> after.children.contains(#[trigger] anchor.children[p])
            &&& forall|j: int|
                0 <= j < children.len() && !is_fixed_container(anchor.class, (#[trigger] children[j]).name@, service)
                    && keeps_name(children[j].node) && (forall|later: int|
                    j < later < children.len() ==> (#[trigger] children[later]).name@ != children[j].name@) ==> is_there(
                    after.children,
                    children[j],
                    route,
                    reflection,
                )
        }),
{
    let children = node.children@;
    let (valued, known2) = with_metadata(anchor, node.metadata, anchor.class, reflection, known)->Ok_0;
    let inline = node.source is Inline;
    let start = if inline {
        valued
    } else {
        NodeView { children: mounted(node, reflection)->Ok_0, ..valued }
    };
    let begun = if inline {
        routes
    } else {
        routes.push(route)
    };
    assert(valued.children == anchor.children && valued.name == anchor.name && valued.class == anchor.class);
    lemma_steps(start, children, inline, route, service, known2, begun, reflection);
    let whole = anchored_children(start, children, inline, route, service, known2, begun, reflection)->Ok_0.0;
    let after = anchored(anchor, node, route, service, known, routes, reflection)->Ok_0.0;
    lemma_ordered_members(whole.children);
    assert(after.children == ordered_nodes(whole.children));
    if inline {
        assert forall|p: int|
            0 <= p < anchor.children.len() && (forall|j: int|
                0 <= j < children.len() ==> (#[trigger] children[j]).name@ != anchor.children[p].name) implies after.children.contains(
            #[trigger] anchor.children[p],
        ) by {
            assert(start.children[p] == anchor.children[p]);
            assert(whole.children[p] == anchor.children[p]);
            assert(whole.children.contains(anchor.children[p]));
        }
    }
    assert forall|j: int|
        0 <= j < children.len() && !is_fixed_container(anchor.class, (#[trigger] children[j]).name@, service)
            && keeps_name(children[j].node) && (forall|later: int|
            j < later < children.len() ==> (#[trigger] children[later]).name@ != children[j].name@) implies is_there(
        after.children,
        children[j],
        route,
        reflection,
    ) by {
        assert(is_there(whole.children, children[j], route, reflection));
        assert forall|p: int| 0 <= p < whole.children.len() && (#[trigger] whole.children[p]).name == children[j].name@ implies after.children.contains(
            whole.children[p],
        ) by {
            assert(whole.children.contains(whole.children[p]));
        }
        lemma_there_kept(whole.children, after.children, children[j], route, reflection);
    }
}

// ---------------------------------------------------------------------------
// Services

/// What holds of a service after the mappings below it were applied.
spec fn is_served(root: NodeView, studio: NodeView, child: SourceChild, reflection: Reflection) -> bool {
    exists|p: int| 0 <= p < root.children.len() && #[trigger] served_at(root.children[p], studio, child, reflection)
}

spec fn served_at(found: NodeView, studio: NodeView, child: SourceChild, reflection: Reflection) -> bool {
    let children = child.node.children@;
    &&& found.name == child.name@
    &&& found.class == child.name@
    &&& forall|j: int|
        0 <= j < children.len() && !is_starter_container(child.name@, (#[trigger] children[j]).name@) && keeps_name(
            children[j].node,
        ) && (forall|later: int|
            j < later < children.len() ==> (#[trigger] children[later]).name@ != children[j].name@) ==> is_there(
            found.children,
            children[j],
            seq![child.name@],
            reflection,
        )
}

proof fn lemma_serviced(
    root: NodeView,
    child: SourceChild,
    known: Known,
    routes: Routes,
    reflection: Reflection,
)
    requires
        serviced(root, child, known, routes, reflection) is Ok,
    ensures
        ({
            let after = serviced(root, child, known, routes, reflection)->Ok_0.0;
            &&& after.name == root.name && after.class == root.class
            &&& after.children.len() >= root.children.len()
            &&& forall|p: int|
                0 <= p < root.children.len() && (#[trigger] root.children[p]).name != child.name@ ==> after.children[p]
                    == root.children[p]
            &&& is_served(after, root, child, reflection)
        }),
{
    let after = serviced(root, child, known, routes, reflection)->Ok_0.0;
    lemma_place(root.children, child.name@);
    let (grown, place) = anchored_child(root, child.name@, child.name@)->Ok_0;
    assert(grown.children[place].name == child.name@ && grown.children[place].class == child.name@);
    lemma_anchored(grown.children[place], child.node, seq![child.name@], true, known, routes, reflection);
    let inner = anchored(grown.children[place], child.node, seq![child.name@], true, known, routes, reflection)->Ok_0.0;
    assert(after.children[place] == inner);
    assert(served_at(inner, root, child, reflection));
}

proof fn lemma_all_serviced(
    root: NodeView,
    children: Seq<SourceChild>,
    known: Known,
    routes: Routes,
    reflection: Reflection,
)
    requires
        all_serviced(root, children, known, routes, reflection) is Ok,
    ensures
        ({
            let after = all_serviced(root, children, known, routes, reflection)->Ok_0.0;
            &&& after.name == root.name && after.class == root.class
            &&& after.children.len() >= root.children.len()
            &&& forall|p: int|
                0 <= p < root.children.len() && (forall|i: int|
                    0 <= i < children.len() ==> (#[trigger] children[i]).name@ != root.children[p].name)
                    ==> after.children[p] == #[trigger] root.children[p]
            &&& forall|i: int|
                0 <= i < children.len() && (forall|later: int|
                    i < later < children.len() ==> (#[trigger] children[later]).name@ != children[i].name@) ==> is_served(
                    after,
                    root,
                    #[trigger] children[i],
                    reflection,
                )
        }),
    decreases children.len(),
{
    if children.len() > 0 {
        let rest = children.drop_last();
        let end = children.len() - 1;
        lemma_all_serviced(root, rest, known, routes, reflection);
        let (middle, known2, routes2) = all_serviced(root, rest, known, routes, reflection)->Ok_0;
        lemma_serviced(middle, children.last(), known2, routes2, reflection);
        let after = all_serviced(root, children, known, routes, reflection)->Ok_0.0;
        assert(forall|j: int| 0 <= j < rest.len() ==> #[trigger] rest[j] == children[j]);
        assert(children[end] == children.last());
        assert forall|p: int|
            0 <= p < root.children.len() && (forall|i: int|
                0 <= i < children.len() ==> (#[trigger] children[i]).name@ != root.children[p].name) implies after.children[p]
            == #[trigger] root.children[p] by {
            assert forall|j: int| 0 <= j < rest.len() implies (#[trigger] rest[j]).name@ != root.children[p].name by {
                assert(children[j].name@ != root.children[p].name);
            }
            assert(middle.children[p] == root.children[p]);
            assert(children[end].name@ != root.children[p].name);
        }
        assert forall|i: int|
            0 <= i < children.len() && (forall|later: int|
                i < later < children.len() ==> (#[trigger] children[later]).name@ != children[i].name@) implies is_served(
            after,
            root,
            #[trigger] children[i],
            reflection,
        ) by {
            if i < end {
                assert forall|later: int| i < later < rest.len() implies (#[trigger] rest[later]).name@ != rest[i].name@ by {
                    assert(children[later].name@ != children[i].name@);
                }
                assert(rest[i] == children[i]);
                assert(is_served(middle, root, rest[i], reflection));
                let p = choose|p: int|
                    0 <= p < middle.children.len() && #[trigger] served_at(
                        middle.children[p],
                        root,
                        rest[i],
                        reflection,
                    );
                assert(children[end].name@ != children[i].name@);
                assert(after.children[p] == middle.children[p]);
                assert(served_at(after.children[p], root, children[i], reflection));
            } else {
                let p = choose|p: int|
                    0 <= p < after.children.len() && #[trigger] served_at(
                        after.children[p],
                        middle,
                        children[i],
                        reflection,
                    );
                assert(served_at(after.children[p], root, children[i], reflection));
            }
        }
    }
}

/// The instance that a route of a service and a name leads to in a place is what a node of
/// the project stands for.
pub open spec fn leads_to_source(
    root: NodeView,
    service: Seq<char>,
    child: SourceChild,
    reflection: Reflection,
    p: int,
    q: int,
) -> bool {
    &&& 0 <= p < root.children.len()
    &&& root.children[p].name == service
    &&& root.children[p].class == service
    &&& 0 <= q < root.children[p].children.len()
    &&& root.children[p].children[q].name == child.name@
    &&& stands_for(
        root.children[p].children[q],
        child.name@,
        child.node,
        seq![service, child.name@],
        reflection,
    )
}

/// Mapped source stands where it is mapped: where a project maps something below a service,
/// the composed place has the service, with a child of that name which is what the mapping
/// stands for. Of two mappings of one name the later counts; the containers of scripts
/// below `StarterPlayer` hold mappings themselves.
pub proof fn law_mapped_source_stands_where_it_is_mapped(
    studio: NodeView,
    tree: SourceNode,
    reflection: Reflection,
    i: int,
    j: int,
)
    requires
        composed_place(studio, tree, reflection) is Ok,
        0 <= i < tree.children@.len(),
        forall|later: int|
            i < later < tree.children@.len() ==> (#[trigger] tree.children@[later]).name@ != tree.children@[i].name@,
        0 <= j < tree.children@[i].node.children@.len(),
        forall|later: int|
            j < later < tree.children@[i].node.children@.len() ==> (#[trigger] tree.children@[i].node.children@[later]).name@
                != tree.children@[i].node.children@[j].name@,
        !is_starter_container(tree.children@[i].name@, tree.children@[i].node.children@[j].name@),
        keeps_name(tree.children@[i].node.children@[j].node),
    ensures
        exists|p: int, q: int| #[trigger]
            leads_to_source(
                composed_place(studio, tree, reflection)->Ok_0.0,
                tree.children@[i].name@,
                tree.children@[i].node.children@[j],
                reflection,
                p,
                q,
            ),
{
    let (root, known) = with_metadata(studio, tree.metadata, "DataModel"@, reflection, Map::empty())->Ok_0;
    let services = tree.children@;
    lemma_all_serviced(root, services, known, Seq::empty(), reflection);
    let place = composed_place(studio, tree, reflection)->Ok_0.0;
    let service = services[i];
    let child = service.node.children@[j];
    assert(is_served(place, root, service, reflection));
    let p = choose|p: int| 0 <= p < place.children.len() && #[trigger] served_at(place.children[p], root, service, reflection);
    let list = place.children[p].children;
    assert(is_there(list, child, seq![service.name@], reflection));
    reveal(is_there);
    let q = choose|q: int|
        0 <= q < list.len() && (#[trigger] list[q]).name == child.name@ && stands_for(
            list[q],
            child.name@,
            child.node,
            seq![service.name@].push(child.name@),
            reflection,
        );
    assert(seq![service.name@].push(child.name@) =~= seq![service.name@, child.name@]);
    assert(leads_to_source(place, service.name@, child, reflection, p, q));
}

/// What is not mapped stays: a service that a project does not name is what it was in
/// Studio, with everything in it.
pub proof fn law_what_is_not_mapped_stays(studio: NodeView, tree: SourceNode, reflection: Reflection, p: int)
    requires
        composed_place(studio, tree, reflection) is Ok,
        0 <= p < studio.children.len(),
        forall|i: int| 0 <= i < tree.children@.len() ==> (#[trigger] tree.children@[i]).name@ != studio.children[p].name,
    ensures
        p < composed_place(studio, tree, reflection)->Ok_0.0.children.len(),
        composed_place(studio, tree, reflection)->Ok_0.0.children[p] == studio.children[p],
        composed_place(studio, tree, reflection)->Ok_0.0.name == studio.name,
        composed_place(studio, tree, reflection)->Ok_0.0.class == "DataModel"@,
{
    let (root, known) = with_metadata(studio, tree.metadata, "DataModel"@, reflection, Map::empty())->Ok_0;
    assert(root.children == studio.children && root.name == studio.name && root.class == studio.class);
    lemma_all_serviced(root, tree.children@, known, Seq::empty(), reflection);
    assert(root.children[p] == studio.children[p]);
}

/// What stands beside mapped instances stays: an anchor that maps no directory into itself
/// keeps every child whose name it does not map.
pub proof fn law_unmapped_siblings_stay(
    anchor: NodeView,
    node: SourceNode,
    route: Seq<Seq<char>>,
    service: bool,
    known: Known,
    routes: Routes,
    reflection: Reflection,
    p: int,
)
    requires
        anchored(anchor, node, route, service, known, routes, reflection) is Ok,
        node.source is Inline,
        0 <= p < anchor.children.len(),
        forall|j: int| 0 <= j < node.children@.len() ==> (#[trigger] node.children@[j]).name@ != anchor.children[p].name,
    ensures
        anchored(anchor, node, route, service, known, routes, reflection)->Ok_0.0.children.contains(anchor.children[p]),
        anchored(anchor, node, route, service, known, routes, reflection)->Ok_0.0.name == anchor.name,
        anchored(anchor, node, route, service, known, routes, reflection)->Ok_0.0.class == anchor.class,
{
    lemma_anchored(anchor, node, route, service, known, routes, reflection);
}

/// A directory that is mapped into an anchor gives the anchor its children: all that it
/// holds, and nothing of what Studio had there.
pub proof fn law_mounted_directories_replace_contents(
    anchor: NodeView,
    node: SourceNode,
    route: Seq<Seq<char>>,
    service: bool,
    known: Known,
    routes: Routes,
    reflection: Reflection,
)
    requires
        anchored(anchor, node, route, service, known, routes, reflection) is Ok,
        node.source is Directory,
        node.children@.len() == 0,
    ensures
        ({
            let after = anchored(anchor, node, route, service, known, routes, reflection)->Ok_0;
            let directory = node.source->Directory_0;
            &&& directory_node(directory, "__contents"@, reflection) matches Ok((read, _)) && forall|child: NodeView| #[trigger]
                after.0.children.contains(child) <==> read.children.contains(child)
            &&& after.2 == routes.push(route)
        }),
{
    let contents = mounted(node, reflection)->Ok_0;
    lemma_ordered_members(contents);
}

} // verus!
