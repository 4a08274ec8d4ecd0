//! Where the routes of a project lead, and what is cut off at their ends.

use crate::hierarchy::ids;
use crate::project_routes::{
    named_child, node_ids, route_cut, route_end, route_nodes, routes_led, without_named,
};
use crate::snapshot::NodeView;
use crate::Ref;
use vstd::prelude::*;

verus! {

/// The first child of that name.
pub open spec fn is_first_named(list: Seq<NodeView>, name: Seq<char>, at: int) -> bool {
    &&& 0 <= at < list.len()
    &&& list[at].name == name
    &&& forall|k: int| 0 <= k < at ==> (#[trigger] list[k]).name != name
}

proof fn lemma_named_child(list: Seq<NodeView>, name: Seq<char>, from: int)
    requires
        0 <= from <= list.len(),
    ensures
        match named_child(list, name, from) {
            Some(at) => from <= at < list.len() && list[at].name == name && forall|k: int|
                from <= k < at ==> (#[trigger] list[k]).name != name,
            None => forall|k: int| from <= k < list.len() ==> (#[trigger] list[k]).name != name,
        },
    decreases list.len() - from,
{
    if from < list.len() && list[from].name != name {
        lemma_named_child(list, name, from + 1);
    }
}

proof fn lemma_without_named(list: Seq<NodeView>, name: Seq<char>)
    ensures
        forall|k: int|
            0 <= k < without_named(list, name).len() ==> (#[trigger] without_named(list, name)[k]).name != name
                && list.contains(without_named(list, name)[k]),
        forall|k: int|
            0 <= k < list.len() && (#[trigger] list[k]).name != name ==> without_named(list, name).contains(list[k]),
    decreases list.len(),
{
    if list.len() > 0 {
        let fewer = list.drop_last();
        let before = without_named(fewer, name);
        let left = without_named(list, name);
        lemma_without_named(fewer, name);
        assert(list[list.len() - 1] == list.last());
        assert forall|k: int| 0 <= k < left.len() implies (#[trigger] left[k]).name != name && list.contains(left[k]) by {
            if k < before.len() {
                assert(left[k] == before[k]);
                assert(fewer.contains(before[k]));
                assert(list[fewer.index_of(before[k])] == left[k]);
            } else {
                assert(left[k] == list[list.len() - 1]);
            }
        }
        assert forall|k: int| 0 <= k < list.len() && (#[trigger] list[k]).name != name implies left.contains(list[k]) by {
            if k < fewer.len() {
                assert(fewer[k] == list[k]);
                assert(before.contains(fewer[k]));
                assert(left[before.index_of(list[k])] == list[k]);
            } else {
                assert(left[left.len() - 1] == list[k]);
            }
        }
    }
}

/// What is left of an instance has what it had but for what is below it.
pub open spec fn is_itself(before: NodeView, after: NodeView) -> bool {
    &&& after.id == before.id
    &&& after.name == before.name
    &&& after.raw_name == before.raw_name
    &&& after.class == before.class
    &&& after.properties == before.properties
}

/// Cutting off a route takes what stands at its end and nothing else: all children of the
/// last name go from the instance before the end and the others stay, and on the way only
/// the first child of each name changes, below itself.
pub proof fn law_cutting_takes_the_end_only(node: NodeView, route: Seq<Seq<char>>)
    requires
        route.len() > 0,
        route_cut(node, route) is Ok,
    ensures
        ({
            let after = route_cut(node, route)->Ok_0;
            &&& is_itself(node, after)
            &&& route.len() == 1 ==> {
                &&& forall|k: int|
                    0 <= k < after.children.len() ==> (#[trigger] after.children[k]).name != route[0]
                        && node.children.contains(after.children[k])
                &&& forall|k: int|
                    0 <= k < node.children.len() && (#[trigger] node.children[k]).name != route[0]
                        ==> after.children.contains(node.children[k])
            }
            &&& route.len() > 1 ==> after.children.len() == node.children.len() && exists|at: int| #[trigger]
                is_first_named(node.children, route[0], at) && route_cut(node.children[at], route.skip(1)) == Ok::<
                    NodeView,
                    Seq<char>,
                >(after.children[at]) && forall|k: int|
                    0 <= k < node.children.len() && k != at ==> #[trigger] after.children[k] == node.children[k]
        }),
{
    if route.len() == 1 {
        lemma_without_named(node.children, route[0]);
    } else {
        lemma_named_child(node.children, route[0], 0);
        let at = named_child(node.children, route[0], 0)->0;
        assert(is_first_named(node.children, route[0], at));
    }
}

/// The instance that a route passes before one of those that it passes.
pub open spec fn above(node: NodeView, passed: Seq<NodeView>, k: int) -> NodeView {
    if k == 0 {
        node
    } else {
        passed[k - 1]
    }
}

/// An instance is the first child of that name below another.
#[verifier::opaque]
pub open spec fn is_first_below(upper: NodeView, name: Seq<char>, child: NodeView) -> bool {
    exists|at: int| #[trigger] is_first_named(upper.children, name, at) && upper.children[at] == child
}

/// A route passes one instance for each of its names, each the first of its name below the
/// one before.
pub proof fn law_routes_follow_names(node: NodeView, route: Seq<Seq<char>>, k: int)
    requires
        route_nodes(node, route) is Some,
        0 <= k < route.len(),
    ensures
        route_nodes(node, route)->0.len() == route.len(),
        is_first_below(above(node, route_nodes(node, route)->0, k), route[k], route_nodes(node, route)->0[k]),
    decreases route.len(),
{
    lemma_named_child(node.children, route[0], 0);
    let first = named_child(node.children, route[0], 0)->0;
    let child = node.children[first];
    let rest = route_nodes(child, route.skip(1))->0;
    let passed = seq![child] + rest;
    assert(route_nodes(node, route) == Some(passed));
    lemma_passed_len(child, route.skip(1));
    if k == 0 {
        assert(is_first_below(node, route[0], child)) by {
            reveal(is_first_below);
            assert(is_first_named(node.children, route[0], first));
        }
    } else {
        law_routes_follow_names(child, route.skip(1), k - 1);
        assert(passed[k] == rest[k - 1]);
        assert(above(node, passed, k) == above(child, rest, k - 1));
        assert(route.skip(1)[k - 1] == route[k]);
    }
}

proof fn lemma_passed_len(node: NodeView, route: Seq<Seq<char>>)
    ensures
        route_nodes(node, route) matches Some(passed) ==> passed.len() == route.len(),
    decreases route.len(),
{
    if route.len() > 0 {
        if let Some(at) = named_child(node.children, route[0], 0) {
            lemma_passed_len(node.children[at], route.skip(1));
        }
    }
}

/// A route leads somewhere where every one of its names is there: it does exactly if the
/// first child of its first name is there and the rest leads somewhere from that one.
pub proof fn law_routes_end_where_names_are_missing(node: NodeView, route: Seq<Seq<char>>, at: int)
    requires
        route.len() > 0,
    ensures
        is_first_named(node.children, route[0], at) ==> (route_nodes(node, route) is Some <==> route_nodes(
            node.children[at],
            route.skip(1),
        ) is Some),
        (forall|k: int| 0 <= k < node.children.len() ==> (#[trigger] node.children[k]).name != route[0])
            ==> route_nodes(node, route) is None,
{
    lemma_named_child(node.children, route[0], 0);
    if is_first_named(node.children, route[0], at) {
        let first = named_child(node.children, route[0], 0)->0;
        if first < at {
            assert(node.children[first].name != route[0]);
        } else if at < first {
            assert(node.children[at].name != route[0]);
        }
    }
}

/// What a project maps is what stands at and below the ends of its routes. What its routes
/// pass before that only leads there.
pub proof fn law_mappings_are_the_ends_of_routes(node: NodeView, routes: Seq<Seq<Seq<char>>>, k: int)
    requires
        routes_led(node, routes) is Ok,
        0 <= k < routes.len(),
    ensures
        route_nodes(node, routes[k]) is Some,
        ({
            let led = routes_led(node, routes)->Ok_0;
            let passed = route_nodes(node, routes[k])->0;
            let end = if passed.len() == 0 {
                node
            } else {
                passed[passed.len() - 1]
            };
            &&& led.roots.len() == routes.len()
            &&& led.roots[k] == end.id
            &&& ids(end).subset_of(led.refs)
            &&& forall|j: int| 0 <= j < passed.len() - 1 ==> led.routing.contains((#[trigger] passed[j]).id)
        }),
    decreases routes.len(),
{
    let fewer = routes.drop_last();
    lemma_roots_len(node, routes);
    lemma_roots_len(node, fewer);
    if k < fewer.len() {
        assert(fewer[k] == routes[k]);
        law_mappings_are_the_ends_of_routes(node, fewer, k);
    } else {
        let passed = route_nodes(node, routes[k])->0;
        if passed.len() > 0 {
            let list = node_ids(passed.drop_last());
            assert forall|j: int| 0 <= j < passed.len() - 1 implies list.to_set().contains((#[trigger] passed[j]).id) by {
                assert(list[j] == passed[j].id);
            }
        }
    }
}

proof fn lemma_roots_len(node: NodeView, routes: Seq<Seq<Seq<char>>>)
    ensures
        routes_led(node, routes) matches Ok(led) ==> led.roots.len() == routes.len(),
    decreases routes.len(),
{
    if routes.len() > 0 {
        lemma_roots_len(node, routes.drop_last());
    }
}

/// A route leads to or passes the instance.
pub open spec fn leads_to(node: NodeView, route: Seq<Seq<char>>, id: Ref) -> bool {
    route_nodes(node, route) matches Some(passed) && ids(route_end(node, passed)).contains(id)
}

/// Nothing else is mapped: a mapped instance stands at or below the end of a route.
pub proof fn law_nothing_else_is_mapped(node: NodeView, routes: Seq<Seq<Seq<char>>>, id: Ref)
    requires
        routes_led(node, routes) is Ok,
        routes_led(node, routes)->Ok_0.refs.contains(id),
    ensures
        exists|k: int| 0 <= k < routes.len() && leads_to(node, #[trigger] routes[k], id),
    decreases routes.len(),
{
    if routes.len() > 0 {
        let fewer = routes.drop_last();
        let before = routes_led(node, fewer)->Ok_0;
        if before.refs.contains(id) {
            law_nothing_else_is_mapped(node, fewer, id);
            let k = choose|k: int| 0 <= k < fewer.len() && leads_to(node, #[trigger] fewer[k], id);
            assert(leads_to(node, routes[k], id));
        } else {
            assert(leads_to(node, routes[routes.len() - 1], id));
        }
    }
}

} // verus!
