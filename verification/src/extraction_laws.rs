//! What extracting is for: every script that can stand on disk becomes source.

use crate::extraction::{
    all_representable, anchors_in, anchors_of, any_script, extracted, holds_script, is_selected, output_path,
    representable, route_before, selected, selected_children, with_routed,
};
use crate::names::folded;
use crate::reflection::Reflection;
use crate::snapshot::NodeView;
use vstd::prelude::*;

verus! {

/// Subtrees with the routes to them.
pub type Routes = Seq<(Seq<Seq<char>>, NodeView)>;

/// A subtree that can stand on disk: it is made of folders and scripts, and no file system
/// takes the names of two siblings for the same.
pub open spec fn stands_on_disk(node: NodeView) -> bool
    decreases node,
{
    &&& node.class == "Folder"@ || node.class == "Script"@ || node.class == "LocalScript"@ || node.class
        == "ModuleScript"@
    &&& forall|i: int, j: int|
        0 <= i < j < node.children.len() ==> folded(#[trigger] node.children[i].name) != folded(
            #[trigger] node.children[j].name,
        )
    &&& forall|at: int| 0 <= at < node.children.len() ==> stands_on_disk(#[trigger] node.children[at])
}

/// A script stands at or below an instance.
pub open spec fn has_script(node: NodeView) -> bool
    decreases node,
{
    node.class == "Script"@ || node.class == "LocalScript"@ || node.class == "ModuleScript"@ || exists|at: int|
        0 <= at < node.children.len() && has_script(#[trigger] node.children[at])
}

proof fn lemma_stands(node: NodeView)
    ensures
        representable(node) <==> stands_on_disk(node),
    decreases node, 1nat,
{
    lemma_all_stand(node.children);
    if stands_on_disk(node) {
        assert forall|i: int, j: int| 0 <= i < j < node.children.len() implies folded(#[trigger] node.children[i].name)
            != folded(#[trigger] node.children[j].name) by {}
    }
    if representable(node) {
        assert forall|at: int| 0 <= at < node.children.len() implies stands_on_disk(#[trigger] node.children[at]) by {}
    }
}

proof fn lemma_all_stand(list: Seq<NodeView>)
    ensures
        all_representable(list) <==> forall|at: int| 0 <= at < list.len() ==> stands_on_disk(#[trigger] list[at]),
    decreases list, 0nat,
{
    if list.len() > 0 {
        let rest = list.drop_last();
        lemma_all_stand(rest);
        lemma_stands(list.last());
        assert(forall|k: int| 0 <= k < rest.len() ==> #[trigger] rest[k] == list[k]);
        assert(list[list.len() - 1] == list.last());
        if all_representable(list) {
            assert forall|at: int| 0 <= at < list.len() implies stands_on_disk(#[trigger] list[at]) by {
                if at < rest.len() {
                    assert(stands_on_disk(rest[at]));
                }
            }
        }
        if forall|at: int| 0 <= at < list.len() ==> stands_on_disk(#[trigger] list[at]) {
            assert forall|at: int| 0 <= at < rest.len() implies stands_on_disk(#[trigger] rest[at]) by {
                assert(stands_on_disk(list[at]));
            }
            assert(stands_on_disk(list[list.len() - 1]));
        }
    }
}

proof fn lemma_scripts(node: NodeView)
    ensures
        holds_script(node) <==> has_script(node),
    decreases node, 1nat,
{
    lemma_any_script(node.children);
}

proof fn lemma_any_script(list: Seq<NodeView>)
    ensures
        any_script(list) <==> exists|at: int| 0 <= at < list.len() && has_script(#[trigger] list[at]),
    decreases list, 0nat,
{
    if list.len() > 0 {
        let rest = list.drop_last();
        lemma_any_script(rest);
        lemma_scripts(list.last());
        assert(list[list.len() - 1] == list.last());
        if any_script(rest) {
            let at = choose|at: int| 0 <= at < rest.len() && has_script(#[trigger] rest[at]);
            assert(has_script(list[at]));
        }
        if exists|at: int| 0 <= at < list.len() && has_script(#[trigger] list[at]) {
            let at = choose|at: int| 0 <= at < list.len() && has_script(#[trigger] list[at]);
            if at < rest.len() {
                assert(has_script(rest[at]));
            }
        }
    }
}

// ---------------------------------------------------------------------------
// Routes

/// A list has something at a route.
pub open spec fn has_route(list: Routes, route: Seq<Seq<char>>) -> bool {
    exists|k: int| 0 <= k < list.len() && (#[trigger] list[k]).0 == route
}

proof fn lemma_with_routed(list: Routes, route: Seq<Seq<char>>, node: NodeView, other: Seq<Seq<char>>)
    ensures
        has_route(with_routed(list, route, node), route),
        has_route(list, other) ==> has_route(with_routed(list, route, node), other),
        forall|k: int|
            0 <= k < with_routed(list, route, node).len() ==> list.contains(
                #[trigger] with_routed(list, route, node)[k],
            ) || with_routed(list, route, node)[k] == (route, node),
    decreases list.len(),
{
    let all = with_routed(list, route, node);
    if list.len() == 0 {
        assert(all[0].0 == route);
    } else {
        let rest = list.drop_last();
        lemma_with_routed(rest, route, node, other);
        let inner = with_routed(rest, route, node);
        let end = list.len() - 1;
        if list.last().0 == route {
            assert(all[end].0 == route);
        } else if route_before(route, list.last().0) {
            let k = choose|k: int| 0 <= k < inner.len() && (#[trigger] inner[k]).0 == route;
            assert(all[k].0 == route);
        } else {
            assert(all[list.len() as int].0 == route);
        }
        if has_route(list, other) {
            let k = choose|k: int| 0 <= k < list.len() && (#[trigger] list[k]).0 == other;
            if list.last().0 == route {
                if k < end {
                    assert(all[k] == list[k]);
                    assert(all[k].0 == other);
                } else {
                    assert(all[end].0 == other);
                }
            } else if route_before(route, list.last().0) {
                if k < end {
                    assert(rest[k].0 == other);
                    assert(has_route(rest, other));
                    let j = choose|j: int| 0 <= j < inner.len() && (#[trigger] inner[j]).0 == other;
                    assert(all[j].0 == other);
                } else {
                    assert(all[inner.len() as int].0 == other);
                }
            } else {
                assert(all[k] == list[k]);
                assert(all[k].0 == other);
            }
        }
        assert forall|k: int| 0 <= k < all.len() implies list.contains(#[trigger] all[k]) || all[k] == (route, node) by {
            if list.last().0 == route {
                if k < end {
                    assert(all[k] == list[k]);
                }
            } else if route_before(route, list.last().0) {
                if k < inner.len() {
                    assert(all[k] == inner[k]);
                    if rest.contains(inner[k]) {
                        assert(list[rest.index_of(inner[k])] == inner[k]);
                    }
                } else {
                    assert(all[k] == list[end]);
                }
            } else if k < list.len() {
                assert(all[k] == list[k]);
            }
        }
    }
}

proof fn lemma_selected_children(list: Routes, anchor: Seq<Seq<char>>, children: Seq<NodeView>, other: Seq<Seq<char>>)
    ensures
        has_route(list, other) ==> has_route(selected_children(list, anchor, children), other),
        forall|at: int|
            0 <= at < children.len() && is_selected(anchor, #[trigger] children[at]) ==> has_route(
                selected_children(list, anchor, children),
                anchor.push(children[at].name),
            ),
        forall|k: int|
            0 <= k < selected_children(list, anchor, children).len() ==> list.contains(
                #[trigger] selected_children(list, anchor, children)[k],
            ) || comes_of(anchor, children, selected_children(list, anchor, children)[k]),
    decreases children.len(),
{
    if children.len() > 0 {
        let rest = children.drop_last();
        let before = selected_children(list, anchor, rest);
        let all = selected_children(list, anchor, children);
        let child = children.last();
        lemma_selected_children(list, anchor, rest, other);
        assert(children[children.len() - 1] == child);
        if is_selected(anchor, child) {
            lemma_with_routed(before, anchor.push(child.name), child, other);
        }
        assert forall|at: int| 0 <= at < children.len() && is_selected(anchor, #[trigger] children[at]) implies has_route(
            all,
            anchor.push(children[at].name),
        ) by {
            if at < rest.len() {
                assert(rest[at] == children[at]);
                assert(has_route(before, anchor.push(rest[at].name)));
                if is_selected(anchor, child) {
                    lemma_with_routed(before, anchor.push(child.name), child, anchor.push(rest[at].name));
                }
            }
        }
        assert forall|k: int| 0 <= k < all.len() implies list.contains(#[trigger] all[k]) || comes_of(
            anchor,
            children,
            all[k],
        ) by {
            if is_selected(anchor, child) && all[k] == (anchor.push(child.name), child) {
                assert(comes_of(anchor, children, all[k]));
            } else {
                assert(before.contains(all[k]));
                let j = before.index_of(all[k]);
                assert(before[j] == all[k]);
                if !list.contains(all[k]) {
                    let at = choose|at: int|
                        0 <= at < rest.len() && is_selected(anchor, #[trigger] rest[at]) && all[k] == (
                            anchor.push(rest[at].name),
                            rest[at],
                        );
                    assert(children[at] == rest[at]);
                }
            }
        }
    }
}

/// A routed subtree is a child of an anchor that was selected.
spec fn comes_of(anchor: Seq<Seq<char>>, children: Seq<NodeView>, routed: (Seq<Seq<char>>, NodeView)) -> bool {
    exists|at: int|
        0 <= at < children.len() && is_selected(anchor, #[trigger] children[at]) && routed == (
            anchor.push(children[at].name),
            children[at],
        )
}

spec fn comes_of_any(anchors: Routes, routed: (Seq<Seq<char>>, NodeView)) -> bool {
    exists|a: int| 0 <= a < anchors.len() && #[trigger] comes_of(anchors[a].0, anchors[a].1.children, routed)
}

proof fn lemma_selected_routes(anchors: Routes)
    ensures
        forall|a: int, at: int|
            0 <= a < anchors.len() && 0 <= at < anchors[a].1.children.len() && is_selected(
                anchors[a].0,
                #[trigger] anchors[a].1.children[at],
            ) ==> has_route(selected(anchors), anchors[a].0.push(anchors[a].1.children[at].name)),
        forall|k: int|
            0 <= k < selected(anchors).len() ==> comes_of_any(anchors, #[trigger] selected(anchors)[k]),
    decreases anchors.len(),
{
    if anchors.len() > 0 {
        let rest = anchors.drop_last();
        let last = anchors.last();
        lemma_selected_routes(rest);
        let before = selected(rest);
        let all = selected(anchors);
        assert(anchors[anchors.len() - 1] == last);
        lemma_selected_children(before, last.0, last.1.children, last.0);
        assert forall|a: int, at: int|
            0 <= a < anchors.len() && 0 <= at < anchors[a].1.children.len() && is_selected(
                anchors[a].0,
                #[trigger] anchors[a].1.children[at],
            ) implies has_route(all, anchors[a].0.push(anchors[a].1.children[at].name)) by {
            if a < rest.len() {
                assert(rest[a] == anchors[a]);
                let route = rest[a].0.push(rest[a].1.children[at].name);
                assert(has_route(before, route));
                lemma_selected_children(before, last.0, last.1.children, route);
            }
        }
        assert forall|k: int| 0 <= k < all.len() implies comes_of_any(anchors, #[trigger] all[k]) by {
            if before.contains(all[k]) {
                let j = before.index_of(all[k]);
                assert(comes_of_any(rest, before[j]));
                let a = choose|a: int|
                    0 <= a < rest.len() && #[trigger] comes_of(rest[a].0, rest[a].1.children, before[j]);
                assert(comes_of(anchors[a].0, anchors[a].1.children, all[k]));
            } else {
                assert(comes_of(anchors[anchors.len() - 1].0, anchors[anchors.len() - 1].1.children, all[k]));
            }
        }
    }
}

// ---------------------------------------------------------------------------
// Anchors

proof fn lemma_no_deep_anchors(list: Seq<NodeView>, route: Seq<Seq<char>>, reflection: Reflection)
    requires
        route.len() >= 2,
    ensures
        anchors_in(list, route, reflection).len() == 0,
    decreases list,
{
    if list.len() > 0 {
        lemma_no_deep_anchors(list.drop_last(), route, reflection);
        let last = list.last();
        lemma_no_deep_anchors(last.children, route.push(last.name), reflection);
        assert(anchors_of(last, route.push(last.name), reflection).len() == 0);
    }
}

/// The containers of scripts below `StarterPlayer`.
pub open spec fn is_starter_container(service: Seq<char>, name: Seq<char>) -> bool {
    service == "StarterPlayer"@ && (name == "StarterPlayerScripts"@ || name == "StarterCharacterScripts"@)
}

/// An instance whose children may become source: a service right below the root, or a
/// container of scripts below `StarterPlayer`.
pub open spec fn is_anchor(root: NodeView, reflection: Reflection, route: Seq<Seq<char>>, node: NodeView) -> bool {
    ||| exists|i: int|
        0 <= i < root.children.len() && #[trigger] root.children[i] == node && reflection.service(node.class) && route
            == seq![node.name]
    ||| exists|i: int, j: int|
        0 <= i < root.children.len() && 0 <= j < root.children[i].children.len()
            && #[trigger] root.children[i].children[j] == node && is_starter_container(root.children[i].name, node.name)
            && route == seq![root.children[i].name, node.name]
}

proof fn lemma_starter_anchors(list: Seq<NodeView>, name: Seq<char>, reflection: Reflection, routed: (Seq<Seq<char>>, NodeView))
    ensures
        anchors_in(list, seq![name], reflection).contains(routed) <==> exists|j: int|
            0 <= j < list.len() && #[trigger] list[j] == routed.1 && is_starter_container(name, list[j].name)
                && routed.0 == seq![name, list[j].name],
    decreases list.len(),
{
    let route = seq![name];
    let all = anchors_in(list, route, reflection);
    if list.len() > 0 {
        let rest = list.drop_last();
        let last = list.last();
        let below = route.push(last.name);
        lemma_starter_anchors(rest, name, reflection, routed);
        lemma_no_deep_anchors(last.children, below, reflection);
        assert(below =~= seq![name, last.name]);
        let before = anchors_in(rest, route, reflection);
        let own = anchors_of(last, below, reflection);
        assert(all == before + own);
        assert(own =~= if is_starter_container(name, last.name) {
            seq![(below, last)]
        } else {
            Seq::empty()
        });
        assert(list[list.len() - 1] == last);
        if all.contains(routed) {
            let k = all.index_of(routed);
            if k < before.len() {
                assert(before[k] == routed);
                let j = choose|j: int|
                    0 <= j < rest.len() && #[trigger] rest[j] == routed.1 && is_starter_container(name, rest[j].name)
                        && routed.0 == seq![name, rest[j].name];
                assert(list[j] == routed.1);
            } else {
                assert(own[k - before.len()] == routed);
                assert(list[list.len() - 1] == routed.1);
            }
        }
        if exists|j: int|
            0 <= j < list.len() && #[trigger] list[j] == routed.1 && is_starter_container(name, list[j].name)
                && routed.0 == seq![name, list[j].name] {
            let j = choose|j: int|
                0 <= j < list.len() && #[trigger] list[j] == routed.1 && is_starter_container(name, list[j].name)
                    && routed.0 == seq![name, list[j].name];
            if j < rest.len() {
                assert(rest[j] == routed.1);
                assert(all[before.index_of(routed)] == routed);
            } else {
                assert(own[0] == routed);
                assert(all[before.len() as int] == routed);
            }
        }
    }
}

proof fn lemma_anchors(list: Seq<NodeView>, root: NodeView, reflection: Reflection, routed: (Seq<Seq<char>>, NodeView))
    requires
        root.children == list,
    ensures
        anchors_in(list, Seq::empty(), reflection).contains(routed) <==> is_anchor(root, reflection, routed.0, routed.1),
    decreases list.len(),
{
    let top = Seq::<Seq<char>>::empty();
    let all = anchors_in(list, top, reflection);
    if list.len() > 0 {
        let rest = list.drop_last();
        let smaller = NodeView { children: rest, ..root };
        let last = list.last();
        let end = list.len() - 1;
        lemma_anchors(rest, smaller, reflection, routed);
        let before = anchors_in(rest, top, reflection);
        let below = top.push(last.name);
        assert(below =~= seq![last.name]);
        let own = anchors_of(last, below, reflection);
        let inner = anchors_in(last.children, below, reflection);
        lemma_starter_anchors(last.children, last.name, reflection, routed);
        assert(all == before + own);
        let head: Routes = if reflection.service(last.class) {
            seq![(below, last)]
        } else {
            Seq::empty()
        };
        assert(own =~= head + inner);
        assert(list[end] == last);
        if all.contains(routed) {
            let k = all.index_of(routed);
            if k < before.len() {
                assert(before[k] == routed);
                assert(is_anchor(smaller, reflection, routed.0, routed.1));
                if exists|i: int|
                    0 <= i < rest.len() && #[trigger] smaller.children[i] == routed.1 && reflection.service(
                        routed.1.class,
                    ) && routed.0 == seq![routed.1.name] {
                    let i = choose|i: int|
                        0 <= i < rest.len() && #[trigger] smaller.children[i] == routed.1 && reflection.service(
                            routed.1.class,
                        ) && routed.0 == seq![routed.1.name];
                    assert(root.children[i] == routed.1);
                } else {
                    let (i, j) = choose|i: int, j: int|
                        0 <= i < rest.len() && 0 <= j < smaller.children[i].children.len()
                            && #[trigger] smaller.children[i].children[j] == routed.1 && is_starter_container(
                            smaller.children[i].name,
                            routed.1.name,
                        ) && routed.0 == seq![smaller.children[i].name, routed.1.name];
                    assert(root.children[i].children[j] == routed.1);
                }
            } else {
                assert(own[k - before.len()] == routed);
                if k - before.len() < head.len() {
                    assert(root.children[end] == routed.1);
                } else {
                    assert(inner[k - before.len() - head.len()] == routed);
                    let j = choose|j: int|
                        0 <= j < last.children.len() && #[trigger] last.children[j] == routed.1 && is_starter_container(
                            last.name,
                            last.children[j].name,
                        ) && routed.0 == seq![last.name, last.children[j].name];
                    assert(root.children[end].children[j] == routed.1);
                }
            }
        }
        if is_anchor(root, reflection, routed.0, routed.1) {
            if exists|i: int|
                0 <= i < list.len() && #[trigger] root.children[i] == routed.1 && reflection.service(routed.1.class)
                    && routed.0 == seq![routed.1.name] {
                let i = choose|i: int|
                    0 <= i < list.len() && #[trigger] root.children[i] == routed.1 && reflection.service(
                        routed.1.class,
                    ) && routed.0 == seq![routed.1.name];
                if i < end {
                    assert(smaller.children[i] == routed.1);
                    assert(all[before.index_of(routed)] == routed);
                } else {
                    assert(own[0] == routed);
                    assert(all[before.len() as int] == routed);
                }
            } else {
                let (i, j) = choose|i: int, j: int|
                    0 <= i < list.len() && 0 <= j < root.children[i].children.len()
                        && #[trigger] root.children[i].children[j] == routed.1 && is_starter_container(
                        root.children[i].name,
                        routed.1.name,
                    ) && routed.0 == seq![root.children[i].name, routed.1.name];
                if i < end {
                    assert(smaller.children[i].children[j] == routed.1);
                    assert(all[before.index_of(routed)] == routed);
                } else {
                    assert(last.children[j] == routed.1);
                    assert(inner.contains(routed));
                    assert(own[head.len() + inner.index_of(routed)] == routed);
                    assert(all[before.len() + head.len() + inner.index_of(routed)] == routed);
                }
            }
        }
    }
}

/// Every script that can stand on disk becomes source: where a child of a service, or of a
/// container of scripts below `StarterPlayer`, can stand on disk and a script stands at or
/// below it, something is extracted at its route. The containers themselves are none.
pub proof fn law_scripts_become_source(
    root: NodeView,
    reflection: Reflection,
    route: Seq<Seq<char>>,
    anchor: NodeView,
    at: int,
)
    requires
        is_anchor(root, reflection, route, anchor),
        0 <= at < anchor.children.len(),
        stands_on_disk(anchor.children[at]),
        has_script(anchor.children[at]),
        !(route.len() == 1 && is_starter_container(route[0], anchor.children[at].name)),
    ensures
        has_route(extracted(root, reflection), route.push(anchor.children[at].name)),
{
    let anchors = anchors_in(root.children, Seq::empty(), reflection);
    lemma_anchors(root.children, root, reflection, (route, anchor));
    lemma_selected_routes(anchors);
    lemma_stands(anchor.children[at]);
    lemma_scripts(anchor.children[at]);
    let a = anchors.index_of((route, anchor));
    assert(anchors[a] == (route, anchor));
    assert(is_selected(anchors[a].0, anchors[a].1.children[at]));
}

/// What is extracted is a child of a service, or of a container of scripts below
/// `StarterPlayer`, at its route: it can stand on disk, a script stands at or below it, and
/// it is written below `src`, along the route.
pub proof fn law_extracted_source_is_what_stood_there(root: NodeView, reflection: Reflection, k: int)
    requires
        0 <= k < extracted(root, reflection).len(),
    ensures
        ({
            let (route, node) = extracted(root, reflection)[k];
            &&& stands_on_disk(node)
            &&& has_script(node)
            &&& route.len() > 0 && route.last() == node.name
            &&& exists|anchor: NodeView, at: int|
                is_anchor(root, reflection, route.drop_last(), anchor) && 0 <= at < anchor.children.len()
                    && #[trigger] anchor.children[at] == node
            &&& forall|name: Seq<char>|
                output_path(route, name) == seq!["src"@] + route.drop_last() + seq![name]
        }),
{
    let anchors = anchors_in(root.children, Seq::empty(), reflection);
    let (route, node) = extracted(root, reflection)[k];
    lemma_selected_routes(anchors);
    assert(comes_of_any(anchors, extracted(root, reflection)[k]));
    let a = choose|a: int|
        0 <= a < anchors.len() && #[trigger] comes_of(
            anchors[a].0,
            anchors[a].1.children,
            extracted(root, reflection)[k],
        );
    let at = choose|at: int|
        0 <= at < anchors[a].1.children.len() && is_selected(anchors[a].0, #[trigger] anchors[a].1.children[at]) && (
        route, node) == (anchors[a].0.push(anchors[a].1.children[at].name), anchors[a].1.children[at]);
    lemma_stands(node);
    lemma_scripts(node);
    assert(anchors.contains(anchors[a]));
    lemma_anchors(root.children, root, reflection, anchors[a]);
    assert(route.drop_last() =~= anchors[a].0);
    assert(anchors[a].1.children[at] == node);
    assert forall|name: Seq<char>| output_path(route, name) == seq!["src"@] + route.drop_last() + seq![name] by {
        assert(output_path(route, name) =~= seq!["src"@] + route.drop_last() + seq![name]);
    }
}

} // verus!
