//! The ways from the root of a hierarchy to the roots of its mappings, and the
//! instances that they pass.

use crate::hierarchy::{flat_ids, ids};
use crate::snapshot::{lemma_children, nodes, NodeView, Snapshot};
use crate::text::{join, separated, texts};
use crate::tree::{below, Tree, TreeView};
use crate::{Ref, NO_REF};
use std::collections::HashSet;
use vstd::prelude::*;

verus! {

broadcast use vstd::std_specs::hash::group_hash_axioms;

/// Why a route cannot be followed.
#[derive(Debug)]
pub enum RouteError {
    /// A route without a name.
    EmptyRoute,
    /// The named anchor of a route is not there.
    AnchorAbsent(String),
    /// The route leads nowhere.
    Missing(String),
    /// A mapped root is not in the tree.
    MappedRootMissing,
}

impl RouteError {
    pub open spec fn text(self) -> Seq<char> {
        match self {
            RouteError::EmptyRoute => "mapping route is empty"@,
            RouteError::AnchorAbsent(name) => "mapping route anchor "@ + name@ + " is absent"@,
            RouteError::Missing(route) => "composed mapping route "@ + route@ + " is missing"@,
            RouteError::MappedRootMissing => "mapped root is missing"@,
        }
    }

    pub fn message(&self) -> (text: String)
        ensures
            text@ == self.text(),
    {
        match self {
            RouteError::EmptyRoute => "mapping route is empty".to_owned(),
            RouteError::AnchorAbsent(name) => {
                let mut text: String = "mapping route anchor ".to_owned();
                text.append(name.as_str());
                text.append(" is absent");
                text
            },
            RouteError::Missing(route) => {
                let mut text: String = "composed mapping route ".to_owned();
                text.append(route.as_str());
                text.append(" is missing");
                text
            },
            RouteError::MappedRootMissing => "mapped root is missing".to_owned(),
        }
    }
}

/// What routes stand for.
pub open spec fn routes_view(routes: Seq<Vec<String>>) -> Seq<Seq<Seq<char>>> {
    routes.map_values(|route: Vec<String>| texts(route@))
}

/// The first child with a name.
pub open spec fn named_child(list: Seq<NodeView>, name: Seq<char>, from: int) -> Option<int>
    decreases list.len() - from,
{
    if from < 0 || from >= list.len() {
        None
    } else if list[from].name == name {
        Some(from)
    } else {
        named_child(list, name, from + 1)
    }
}

fn find_named(list: &Vec<Snapshot>, name: &str) -> (found: Option<usize>)
    ensures
        match named_child(nodes(list@), name@, 0) {
            Some(at) => found matches Some(place) && place == at && place < list@.len(),
            None => found is None,
        },
{
    let ghost all = nodes(list@);
    let mut at: usize = 0;
    while at < list.len()
        invariant
            at <= list@.len(),
            all == nodes(list@),
            named_child(all, name@, 0) == named_child(all, name@, at as int),
        decreases list@.len() - at,
    {
        proof {
            assert(all[at as int] == list@[at as int].node());
        }
        if list[at].name.as_str().eq(name) {
            return Some(at);
        }
        at = at + 1;
    }
    None
}

// ---------------------------------------------------------------------------
// Cutting routes off

/// Children without those of a name.
pub open spec fn without_named(list: Seq<NodeView>, name: Seq<char>) -> Seq<NodeView>
    decreases list.len(),
{
    if list.len() == 0 {
        Seq::empty()
    } else {
        let before = without_named(list.drop_last(), name);
        if list.last().name == name {
            before
        } else {
            before.push(list.last())
        }
    }
}

/// What is left of a hierarchy when the end of a route is cut off.
pub open spec fn route_cut(node: NodeView, route: Seq<Seq<char>>) -> Result<NodeView, Seq<char>>
    decreases route.len(),
{
    if route.len() <= 1 {
        Ok(NodeView { children: without_named(node.children, route[0]), ..node })
    } else {
        match named_child(node.children, route[0], 0) {
            None => Err(route[0]),
            Some(at) => match route_cut(node.children[at], route.skip(1)) {
                Ok(child) => Ok(NodeView { children: node.children.update(at, child), ..node }),
                Err(name) => Err(name),
            },
        }
    }
}

fn drop_named(list: Vec<Snapshot>, name: &str) -> (kept: Vec<Snapshot>)
    ensures
        nodes(kept@) == without_named(nodes(list@), name@),
{
    let ghost all = nodes(list@);
    let ghost items = list@;
    let mut kept: Vec<Snapshot> = Vec::new();
    proof {
        assert(all.take(0) =~= Seq::empty());
        assert(nodes(kept@) =~= without_named(all.take(0), name@));
    }
    for child in iter: list
        invariant
            iter.seq() == items,
            all == nodes(items),
            nodes(kept@) == without_named(all.take(iter.index()), name@),
    {
        let ghost before = nodes(kept@);
        let ghost view = child.node();
        assert(all.take(iter.index() + 1).drop_last() =~= all.take(iter.index()));
        assert(all.take(iter.index() + 1).last() == view);
        if !child.name.as_str().eq(name) {
            kept.push(child);
            proof {
                assert(nodes(kept@) =~= before.push(view));
            }
        }
    }
    proof {
        assert(all.take(all.len() as int) =~= all);
    }
    kept
}

fn remove_route(node: &mut Snapshot, route: &Vec<String>, from: usize) -> (removed: Result<(), RouteError>)
    requires
        from < route@.len(),
    ensures
        match route_cut(old(node).node(), texts(route@).skip(from as int)) {
            Ok(cut) => removed is Ok && final(node).node() == cut,
            Err(name) => removed matches Err(error) && (error matches RouteError::AnchorAbsent(text) && text@
                == name),
        },
    decreases route@.len() - from,
{
    let ghost whole = node.node();
    let ghost rest = texts(route@).skip(from as int);
    proof {
        lemma_children(*node);
        assert(rest[0] == route@[from as int]@);
        assert(texts(route@).len() == route@.len());
    }
    let mut children: Vec<Snapshot> = Vec::new();
    std::mem::swap(&mut children, &mut node.children);
    let ghost kids = nodes(children@);
    if route.len() - from == 1 {
        node.children = drop_named(children, route[from].as_str());
        proof {
            lemma_children(*node);
            assert(node.node() =~= (NodeView { children: without_named(kids, rest[0]), ..whole }));
        }
        return Ok(());
    }
    match find_named(&children, route[from].as_str()) {
        None => {
            node.children = children;
            Err(RouteError::AnchorAbsent(route[from].clone()))
        },
        Some(at) => {
            proof {
                assert(kids[at as int] == children@[at as int].node());
                assert(rest.skip(1) =~= texts(route@).skip(from + 1));
            }
            let ghost before = children@;
            let child: &mut Snapshot = &mut children[at];
            let removed: Result<(), RouteError> = remove_route(child, route, from + 1);
            proof {
                assert(nodes(children@) =~= kids.update(at as int, children@[at as int].node()));
            }
            node.children = children;
            proof {
                lemma_children(*node);
                if removed is Ok {
                    assert(node.node() =~= (NodeView {
                        children: kids.update(at as int, children@[at as int].node()),
                        ..whole
                    }));
                }
            }
            removed
        },
    }
}

/// What is left of a hierarchy when the ends of the first routes are cut off.
pub open spec fn routes_cut(node: NodeView, routes: Seq<Seq<Seq<char>>>) -> Result<NodeView, Seq<char>>
    decreases routes.len(),
{
    if routes.len() == 0 {
        Ok(node)
    } else {
        match routes_cut(node, routes.drop_last()) {
            Ok(before) => if routes.last().len() == 0 {
                Err("mapping route is empty"@)
            } else {
                match route_cut(before, routes.last()) {
                    Ok(after) => Ok(after),
                    Err(name) => Err("mapping route anchor "@ + name + " is absent"@),
                }
            },
            Err(text) => Err(text),
        }
    }
}

/// Cuts off the ends of routes: what is left belongs to the manifest.
#[verifier::loop_isolation(false)]
pub fn prune_routes(snapshot: Snapshot, routes: &Vec<Vec<String>>) -> (pruned: Result<Snapshot, RouteError>)
    ensures
        match routes_cut(snapshot.node(), routes_view(routes@)) {
            Ok(node) => pruned matches Ok(found) && found.node() == node,
            Err(text) => pruned matches Err(error) && error.text() == text,
        },
{
    let ghost start = snapshot.node();
    let ghost all = routes_view(routes@);
    let mut snapshot: Snapshot = snapshot;
    let mut at: usize = 0;
    proof {
        assert(all.take(0) =~= Seq::empty());
    }
    while at < routes.len()
        invariant
            at <= routes@.len(),
            all == routes_view(routes@),
            routes_cut(start, all.take(at as int)) == Ok::<NodeView, Seq<char>>(snapshot.node()),
        decreases routes@.len() - at,
    {
        let ghost before = snapshot.node();
        proof {
            let next = all.take(at + 1);
            assert(next.drop_last() =~= all.take(at as int));
            assert(next.last() == texts(routes@[at as int]@));
            assert(texts(routes@[at as int]@).len() == routes@[at as int]@.len());
            assert(texts(routes@[at as int]@).skip(0) =~= texts(routes@[at as int]@));
        }
        if routes[at].len() == 0 {
            proof {
                lemma_cut_fails(start, all, at as int);
            }
            return Err(RouteError::EmptyRoute);
        }
        match remove_route(&mut snapshot, &routes[at], 0) {
            Ok(()) => {},
            Err(error) => {
                proof {
                    lemma_cut_fails(start, all, at as int);
                }
                return Err(error);
            },
        }
        at = at + 1;
    }
    proof {
        assert(all.take(all.len() as int) =~= all);
    }
    Ok(snapshot)
}

/// Once a route cannot be cut off nothing after it counts.
proof fn lemma_cut_fails(node: NodeView, routes: Seq<Seq<Seq<char>>>, at: int)
    requires
        0 <= at < routes.len(),
        routes_cut(node, routes.take(at + 1)) is Err,
    ensures
        routes_cut(node, routes) == routes_cut(node, routes.take(at + 1)),
    decreases routes.len(),
{
    if at + 1 == routes.len() {
        assert(routes.take(at + 1) =~= routes);
    } else {
        assert(routes.drop_last().take(at + 1) =~= routes.take(at + 1));
        lemma_cut_fails(node, routes.drop_last(), at);
    }
}

// ---------------------------------------------------------------------------
// Following routes

/// The nodes that a route passes, its end last.
pub open spec fn route_nodes(node: NodeView, route: Seq<Seq<char>>) -> Option<Seq<NodeView>>
    decreases route.len(),
{
    if route.len() == 0 {
        Some(Seq::empty())
    } else {
        match named_child(node.children, route[0], 0) {
            None => None,
            Some(at) => match route_nodes(node.children[at], route.skip(1)) {
                None => None,
                Some(rest) => Some(seq![node.children[at]] + rest),
            },
        }
    }
}

/// The end of a route, which is the node itself where the route has no name.
pub open spec fn route_end(node: NodeView, passed: Seq<NodeView>) -> NodeView {
    if passed.len() == 0 {
        node
    } else {
        passed.last()
    }
}

/// What routes lead to: the instances at and below their ends, the ends, and the
/// instances that they pass on the way.
#[verifier::ext_equal]
pub struct RouteRefs {
    pub refs: Set<Ref>,
    pub roots: Seq<Ref>,
    pub routing: Set<Ref>,
}

/// The identities of nodes.
pub open spec fn node_ids(list: Seq<NodeView>) -> Seq<Ref> {
    list.map_values(|node: NodeView| node.id)
}

/// What routes lead to.
pub open spec fn routes_led(node: NodeView, routes: Seq<Seq<Seq<char>>>) -> Result<RouteRefs, Seq<char>>
    decreases routes.len(),
{
    if routes.len() == 0 {
        Ok(RouteRefs { refs: Set::empty(), roots: Seq::empty(), routing: Set::empty() })
    } else {
        match routes_led(node, routes.drop_last()) {
            Err(text) => Err(text),
            Ok(before) => match route_nodes(node, routes.last()) {
                None => Err("composed mapping route "@ + separated(routes.last(), "."@) + " is missing"@),
                Some(passed) => Ok(
                    RouteRefs {
                        refs: before.refs.union(ids(route_end(node, passed))),
                        roots: before.roots.push(route_end(node, passed).id),
                        routing: if passed.len() == 0 {
                            before.routing
                        } else {
                            before.routing.union(node_ids(passed.drop_last()).to_set())
                        },
                    },
                ),
            },
        }
    }
}

pub(crate) fn add_ids(node: &Snapshot, refs: &mut HashSet<u128>)
    ensures
        final(refs)@ == old(refs)@.union(ids(node.node())),
{
    let list: Vec<crate::hierarchy::FlatNode> = crate::hierarchy::flatten_snapshot(node);
    let ghost all = flat_ids(crate::hierarchy::flat_views(list@));
    let ghost start = refs@;
    let mut at: usize = 0;
    proof {
        assert(all.take(0).to_set() =~= Set::empty());
        assert(refs@ =~= start.union(all.take(0).to_set()));
    }
    while at < list.len()
        invariant
            at <= list@.len(),
            all == flat_ids(crate::hierarchy::flat_views(list@)),
            refs@ == start.union(all.take(at as int).to_set()),
        decreases list@.len() - at,
    {
        refs.insert(list[at].snapshot.id);
        proof {
            crate::hierarchy::lemma_taken_set(all, at as int);
            assert(all[at as int] == list@[at as int].snapshot.id);
            assert(refs@ =~= start.union(all.take(at + 1).to_set()));
        }
        at = at + 1;
    }
    proof {
        assert(all.take(list@.len() as int) =~= all);
    }
}

/// Follows a route from a position in it, and notes the instances passed before
/// its end.
fn follow<'a>(node: &'a Snapshot, route: &Vec<String>, from: usize, routing: &mut HashSet<u128>) -> (end: Option<
    &'a Snapshot,
>)
    requires
        from <= route@.len(),
    ensures
        match route_nodes(node.node(), texts(route@).skip(from as int)) {
            None => end is None,
            Some(passed) => end matches Some(found) && found.node() == route_end(node.node(), passed) && final(routing)@ == (if passed.len() == 0 {
                old(routing)@
            } else {
                old(routing)@.union(node_ids(passed.drop_last()).to_set())
            }),
        },
    decreases route@.len() - from,
{
    let ghost rest = texts(route@).skip(from as int);
    proof {
        lemma_children(*node);
        assert(texts(route@).len() == route@.len());
    }
    if from == route.len() {
        proof {
            assert(rest.len() == 0);
        }
        return Some(node);
    }
    proof {
        assert(rest[0] == route@[from as int]@);
        assert(rest.skip(1) =~= texts(route@).skip(from + 1));
    }
    match find_named(&node.children, route[from].as_str()) {
        None => None,
        Some(at) => {
            let child: &'a Snapshot = &node.children[at];
            proof {
                assert(node.node().children[at as int] == child.node());
            }
            if from + 1 < route.len() {
                routing.insert(child.id);
            }
            let ghost noted = routing@;
            let end: Option<&'a Snapshot> = follow(child, route, from + 1, routing);
            proof {
                match route_nodes(child.node(), rest.skip(1)) {
                    None => {},
                    Some(passed) => {
                        let whole = seq![child.node()] + passed;
                        lemma_route_len(child.node(), rest.skip(1));
                        if passed.len() == 0 {
                            assert(whole.drop_last() =~= Seq::empty());
                            assert(node_ids(whole.drop_last()).to_set() =~= Set::empty());
                            assert(routing@ =~= old(routing)@.union(node_ids(whole.drop_last()).to_set()));
                        } else {
                            assert(whole.drop_last() =~= seq![child.node()] + passed.drop_last());
                            let tail = node_ids(passed.drop_last());
                            let all = node_ids(whole.drop_last());
                            assert(all =~= seq![child.id] + tail);
                            assert(all.to_set() =~= tail.to_set().insert(child.id)) by {
                                assert forall|id: Ref| all.to_set().contains(id) == tail.to_set().insert(
                                    child.id,
                                ).contains(id) by {
                                    if tail.contains(id) {
                                        let k = tail.index_of(id);
                                        assert(all[k + 1] == id);
                                    }
                                    assert(all[0] == child.id);
                                    if all.contains(id) {
                                        let k = all.index_of(id);
                                        if k > 0 {
                                            assert(tail[k - 1] == id);
                                        }
                                    }
                                }
                            }
                            assert(routing@ =~= old(routing)@.union(all.to_set()));
                            assert(whole.last() == passed.last());
                        }
                    },
                }
            }
            end
        },
    }
}

proof fn lemma_route_len(node: NodeView, route: Seq<Seq<char>>)
    ensures
        route_nodes(node, route) matches Some(passed) ==> passed.len() == route.len(),
    decreases route.len(),
{
    if route.len() > 0 {
        match named_child(node.children, route[0], 0) {
            None => {},
            Some(at) => {
                lemma_route_len(node.children[at], route.skip(1));
            },
        }
    }
}

/// Once a route leads nowhere nothing after it counts.
proof fn lemma_led_fails(node: NodeView, routes: Seq<Seq<Seq<char>>>, at: int)
    requires
        0 <= at < routes.len(),
        routes_led(node, routes.take(at + 1)) is Err,
    ensures
        routes_led(node, routes) == routes_led(node, routes.take(at + 1)),
    decreases routes.len(),
{
    if at + 1 == routes.len() {
        assert(routes.take(at + 1) =~= routes);
    } else {
        assert(routes.drop_last().take(at + 1) =~= routes.take(at + 1));
        lemma_led_fails(node, routes.drop_last(), at);
    }
}

/// Finds what routes lead to: the instances at and below their ends, the ends in
/// order, and the instances that they pass on the way.
pub fn snapshot_refs_for_routes(snapshot: &Snapshot, routes: &Vec<Vec<String>>) -> (led: Result<
    (HashSet<u128>, Vec<Ref>, HashSet<u128>),
    RouteError,
>)
    ensures
        match routes_led(snapshot.node(), routes_view(routes@)) {
            Ok(expected) => led matches Ok((refs, roots, routing)) && refs@ == expected.refs && roots@
                == expected.roots && routing@ == expected.routing,
            Err(text) => led matches Err(error) && error.text() == text,
        },
{
    let mut refs: HashSet<u128> = HashSet::new();
    let mut roots: Vec<Ref> = Vec::new();
    let mut routing: HashSet<u128> = HashSet::new();
    let ghost all = routes_view(routes@);
    let ghost node = snapshot.node();
    let mut at: usize = 0;
    proof {
        assert(all.take(0) =~= Seq::empty());
        assert(refs@ =~= Set::empty());
        assert(routing@ =~= Set::empty());
        assert(roots@ =~= Seq::empty());
    }
    while at < routes.len()
        invariant
            at <= routes@.len(),
            all == routes_view(routes@),
            node == snapshot.node(),
            routes_led(node, all.take(at as int)) == Ok::<RouteRefs, Seq<char>>(
                RouteRefs { refs: refs@, roots: roots@, routing: routing@ },
            ),
        decreases routes@.len() - at,
    {
        proof {
            let next = all.take(at + 1);
            assert(next.drop_last() =~= all.take(at as int));
            assert(next.last() == texts(routes@[at as int]@));
            assert(texts(routes@[at as int]@).skip(0) =~= texts(routes@[at as int]@));
        }
        match follow(snapshot, &routes[at], 0, &mut routing) {
            None => {
                proof {
                    lemma_led_fails(node, all, at as int);
                }
                return Err(RouteError::Missing(join(&routes[at], ".")));
            },
            Some(end) => {
                roots.push(end.id);
                add_ids(end, &mut refs);
            },
        }
        at = at + 1;
    }
    proof {
        assert(all.take(all.len() as int) =~= all);
    }
    Ok((refs, roots, routing))
}

/// An instance that a mapped root hangs below, other than the root of the tree.
pub open spec fn on_the_way(view: TreeView, roots: Seq<Ref>, id: Ref) -> bool {
    view.has(id) && id != view.root && exists|k: int|
        0 <= k < roots.len() && #[trigger] roots[k] != id && below(view, roots[k], id)
}

fn add_way(tree: &Tree, id: Ref, passed: &mut HashSet<u128>)
    requires
        tree.wf(),
        tree@.has(id),
    ensures
        forall|other: Ref| #[trigger]
            final(passed)@.contains(other) <==> old(passed)@.contains(other) || (tree@.has(other) && other
                != tree@.root && other != id && below(tree@, id, other)),
{
    let ghost view = tree@;
    let ghost start = passed@;
    proof {
        assert(view.has_depths(view.depths()));
    }
    if id == tree.root_ref() {
        proof {
            assert forall|other: Ref| other != id implies !#[trigger] below(view, id, other) by {}
        }
        return;
    }
    let mut current: Ref = match tree.get_instance(id) {
        Some(node) => node.parent(),
        None => NO_REF,
    };
    proof {
        assert(view.depths()[view.nodes[id].parent] < view.depths()[id]);
        assert forall|other: Ref| view.has(other) && other != id implies (#[trigger] below(view, id, other) <==> below(
            view,
            current,
            other,
        )) by {}
        assert forall|other: Ref| below(view, current, other) && view.has(other) implies other != id by {
            lemma_below_depth(view, current, other);
        }
    }
    while current != tree.root_ref()
        invariant
            tree.wf(),
            view == tree@,
            view.has_depths(view.depths()),
            view.has(id),
            view.has(current),
            forall|other: Ref| view.has(other) && #[trigger] below(view, current, other) ==> other != id,
            forall|other: Ref| #[trigger]
                passed@.contains(other) || (view.has(other) && other != view.root && below(view, current, other))
                    <==> start.contains(other) || (view.has(other) && other != view.root && other != id && below(
                    view,
                    id,
                    other,
                )),
        decreases view.depths()[current],
    {
        proof {
            assert(view.depths()[view.nodes[current].parent] < view.depths()[current]);
        }
        let ghost before = passed@;
        passed.insert(current);
        let parent: Ref = match tree.get_instance(current) {
            Some(node) => node.parent(),
            None => NO_REF,
        };
        proof {
            assert forall|other: Ref| #[trigger]
                passed@.contains(other) || (view.has(other) && other != view.root && below(view, parent, other)) <==> start.contains(
                    other,
                ) || (view.has(other) && other != view.root && other != id && below(view, id, other)) by {
                assert(before.contains(other) || (view.has(other) && other != view.root && below(view, current, other))
                    <==> start.contains(other) || (view.has(other) && other != view.root && other != id && below(
                    view,
                    id,
                    other,
                )));
                assert(below(view, current, other) <==> other == current || below(view, parent, other));
            }
            assert forall|other: Ref| view.has(other) && #[trigger] below(view, parent, other) implies other != id by {
                assert(below(view, current, other));
            }
        }
        current = parent;
    }
    proof {
        assert forall|other: Ref| #[trigger]
            passed@.contains(other) <==> start.contains(other) || (view.has(other) && other != view.root && other != id
                && below(view, id, other)) by {
            assert(below(view, current, other) <==> other == current);
        }
    }
}

proof fn lemma_below_depth(view: TreeView, lower: Ref, upper: Ref)
    requires
        view.wf(),
        view.has(lower),
        view.has(upper),
        below(view, lower, upper),
    ensures
        view.depths()[upper] <= view.depths()[lower],
    decreases view.depths()[lower],
{
    assert(view.has_depths(view.depths()));
    if lower != upper && lower != view.root {
        assert(view.depths()[view.nodes[lower].parent] < view.depths()[lower]);
        lemma_below_depth(view, view.nodes[lower].parent, upper);
    }
}

/// Finds the instances that mapped roots hang below, other than the root of the
/// tree.
pub fn routing_refs(tree: &Tree, roots: &Vec<Ref>) -> (routing: Result<HashSet<u128>, RouteError>)
    requires
        tree.wf(),
    ensures
        if exists|k: int| 0 <= k < roots@.len() && !tree@.has(#[trigger] roots@[k]) {
            routing matches Err(error) && error is MappedRootMissing
        } else {
            routing matches Ok(found) && forall|id: Ref| #[trigger]
                found@.contains(id) <==> on_the_way(tree@, roots@, id)
        },
{
    let mut found: HashSet<u128> = HashSet::new();
    let ghost view = tree@;
    let mut at: usize = 0;
    while at < roots.len()
        invariant
            at <= roots@.len(),
            tree.wf(),
            view == tree@,
            forall|k: int| 0 <= k < at ==> view.has(#[trigger] roots@[k]),
            forall|id: Ref| #[trigger] found@.contains(id) <==> on_the_way(view, roots@.take(at as int), id),
        decreases roots@.len() - at,
    {
        if !tree.contains(roots[at]) {
            proof {
                assert(!view.has(roots@[at as int]));
            }
            return Err(RouteError::MappedRootMissing);
        }
        let ghost before = found@;
        add_way(tree, roots[at], &mut found);
        proof {
            let done = roots@.take(at as int);
            let next = roots@.take(at + 1);
            assert forall|id: Ref| #[trigger] found@.contains(id) <==> on_the_way(view, next, id) by {
                assert(before.contains(id) <==> on_the_way(view, done, id));
                if on_the_way(view, done, id) {
                    let k = choose|k: int| 0 <= k < done.len() && #[trigger] done[k] != id && below(view, done[k], id);
                    assert(next[k] == done[k]);
                }
                assert(next[at as int] == roots@[at as int]);
                if on_the_way(view, next, id) {
                    let k = choose|k: int| 0 <= k < next.len() && #[trigger] next[k] != id && below(view, next[k], id);
                    if k < at {
                        assert(done[k] == next[k]);
                    }
                }
            }
        }
        at = at + 1;
    }
    proof {
        assert(roots@.take(roots@.len() as int) =~= roots@);
    }
    Ok(found)
}

/// A mapping owns the instance that it leads to and every descendant of it.
pub proof fn law_mappings_own_every_descendant(node: NodeView, routes: Seq<Seq<Seq<char>>>, at: int)
    requires
        routes_led(node, routes) is Ok,
        0 <= at < routes.len(),
    ensures
        route_nodes(node, routes[at]) matches Some(passed) && {
            let led = routes_led(node, routes)->Ok_0;
            &&& ids(route_end(node, passed)).subset_of(led.refs)
            &&& led.roots.len() == routes.len()
            &&& led.roots[at] == route_end(node, passed).id
        },
    decreases routes.len(),
{
    let before = routes_led(node, routes.drop_last())->Ok_0;
    lemma_one_root_each(node, routes);
    lemma_one_root_each(node, routes.drop_last());
    if at < routes.len() - 1 {
        law_mappings_own_every_descendant(node, routes.drop_last(), at);
        assert(routes.drop_last()[at] == routes[at]);
    }
}

proof fn lemma_one_root_each(node: NodeView, routes: Seq<Seq<Seq<char>>>)
    requires
        routes_led(node, routes) is Ok,
    ensures
        routes_led(node, routes)->Ok_0.roots.len() == routes.len(),
    decreases routes.len(),
{
    if routes.len() > 0 {
        lemma_one_root_each(node, routes.drop_last());
    }
}

} // verus!
