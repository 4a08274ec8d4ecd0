//! What reconciling a capture is for: every mention of an instance follows it.

use crate::capture_identity::{
    added_ids, added_nodes, candidates, completes, matched_children, matched_node, matched_roots, matching_of, of_class,
    of_digest, of_name, reconciled, removed_nodes, renamed_changes, renamed_node, renamed_ref, selected, Evidence,
    ReconcileError,
};
use crate::hierarchy::{flat, flat_ids, flat_list, ids, lemma_position, lemma_positions, position, positions, FlatView};
use crate::manifest_identity::ManifestIdentityAllocator;
use crate::snapshot::{AdditionView, ChangesView, NodeView, UpdateView};
use crate::variant::VariantView;
use crate::{Ref, NO_REF};
use std::collections::HashMap;
use vstd::prelude::*;

verus! {

/// Where instances had the identities `from` and have the identities `to`, one by one, a
/// mention of one of them mentions it still. Other mentions are what they were.
pub open spec fn follows(from: Seq<Ref>, to: Seq<Ref>, before: Ref, after: Ref) -> bool {
    &&& forall|k: int| 0 <= k < from.len() && #[trigger] from[k] == before ==> after == to[k]
    &&& !from.contains(before) ==> after == before
}

/// A reference mentions the instance that it mentioned, and any other value stays.
pub open spec fn value_follows(from: Seq<Ref>, to: Seq<Ref>, before: VariantView, after: VariantView) -> bool {
    match before {
        VariantView::Ref(target) => after matches VariantView::Ref(found) && follows(from, to, target, found),
        VariantView::Object(target) => after matches VariantView::Object(found) && follows(from, to, target, found),
        _ => after == before,
    }
}

pub open spec fn properties_follow(
    from: Seq<Ref>,
    to: Seq<Ref>,
    before: Map<Seq<char>, VariantView>,
    after: Map<Seq<char>, VariantView>,
) -> bool {
    &&& before.dom() == after.dom()
    &&& forall|name: Seq<char>| #[trigger]
        before.dom().contains(name) ==> value_follows(from, to, before[name], after[name])
}

/// A hierarchy is what it was, under the later identities.
pub open spec fn node_follows(from: Seq<Ref>, to: Seq<Ref>, before: NodeView, after: NodeView) -> bool
    decreases before,
{
    &&& follows(from, to, before.id, after.id)
    &&& after.name == before.name
    &&& after.raw_name == before.raw_name
    &&& after.class == before.class
    &&& properties_follow(from, to, before.properties, after.properties)
    &&& after.children.len() == before.children.len()
    &&& forall|at: int|
        #![trigger before.children[at]]
        #![trigger after.children[at]]
        0 <= at < before.children.len() ==> node_follows(from, to, before.children[at], after.children[at])
}

pub open spec fn update_follows(from: Seq<Ref>, to: Seq<Ref>, before: UpdateView, after: UpdateView) -> bool {
    &&& follows(from, to, before.id, after.id)
    &&& match before.parent {
        Some(parent) => after.parent matches Some(found) && follows(from, to, parent, found),
        None => after.parent is None,
    }
    &&& match before.properties {
        Some(values) => after.properties matches Some(found) && properties_follow(from, to, values, found),
        None => after.properties is None,
    }
    &&& after.name == before.name
    &&& after.raw_name == before.raw_name
    &&& after.class == before.class
    &&& after.removed_properties == before.removed_properties
}

/// Changes are what they were, under the later identities of the instances that they add.
pub open spec fn changes_follow(before: ChangesView, after: ChangesView) -> bool {
    let from = added_ids(before.additions);
    let to = added_ids(after.additions);
    &&& from.len() == to.len()
    &&& after.additions.len() == before.additions.len()
    &&& forall|at: int|
        #![trigger before.additions[at]]
        #![trigger after.additions[at]]
        0 <= at < before.additions.len() ==> follows(
            from,
            to,
            before.additions[at].parent,
            after.additions[at].parent,
        ) && node_follows(from, to, before.additions[at].node, after.additions[at].node)
    &&& after.updates.len() == before.updates.len()
    &&& forall|at: int|
        #![trigger before.updates[at]]
        #![trigger after.updates[at]]
        0 <= at < before.updates.len() ==> update_follows(from, to, before.updates[at], after.updates[at])
    &&& after.removals == before.removals
}

// ---------------------------------------------------------------------------
// Renaming follows

pub(crate) proof fn lemma_flat_append(a: Seq<FlatView>, b: Seq<FlatView>)
    ensures
        flat_ids(a + b) == flat_ids(a) + flat_ids(b),
{
    assert(flat_ids(a + b) =~= flat_ids(a) + flat_ids(b));
}

proof fn lemma_renamed_ids(node: NodeView, map: Map<Ref, Ref>, parent: Option<Ref>, other: Option<Ref>)
    ensures
        flat_ids(flat(renamed_node(node, map), other)) == flat_ids(flat(node, parent)).map_values(
            |id: Ref| renamed_ref(id, map),
        ),
    decreases node, 1nat, node.children.len(),
{
    let after = renamed_node(node, map);
    let turn = |id: Ref| renamed_ref(id, map);
    lemma_renamed_children(node, map, node.children.len() as int);
    assert(node.children.take(node.children.len() as int) =~= node.children);
    assert(after.children.take(node.children.len() as int) =~= after.children);
    lemma_flat_append(seq![FlatView { parent, node }], flat_list(node.children, Some(node.id)));
    lemma_flat_append(seq![FlatView { parent: other, node: after }], flat_list(after.children, Some(after.id)));
    let below = flat_ids(flat_list(node.children, Some(node.id)));
    assert(flat_ids(flat(node, parent)) =~= seq![node.id] + below);
    assert(flat_ids(flat(after, other)) =~= seq![after.id] + below.map_values(turn));
    assert(flat_ids(flat(after, other)) =~= flat_ids(flat(node, parent)).map_values(turn));
}

proof fn lemma_renamed_children(node: NodeView, map: Map<Ref, Ref>, count: int)
    requires
        0 <= count <= node.children.len(),
    ensures
        flat_ids(flat_list(renamed_node(node, map).children.take(count), Some(renamed_node(node, map).id))) == flat_ids(
            flat_list(node.children.take(count), Some(node.id)),
        ).map_values(|id: Ref| renamed_ref(id, map)),
    decreases node, 0nat, count,
{
    let turn = |id: Ref| renamed_ref(id, map);
    let before = node.children.take(count);
    let after = renamed_node(node, map).children.take(count);
    let own = Some(node.id);
    let other = Some(renamed_node(node, map).id);
    if count == 0 {
        assert(flat_ids(flat_list(after, other)) =~= flat_ids(flat_list(before, own)).map_values(turn));
    } else {
        lemma_renamed_children(node, map, count - 1);
        assert(before.drop_last() =~= node.children.take(count - 1));
        assert(after.drop_last() =~= renamed_node(node, map).children.take(count - 1));
        assert(after.last() == renamed_node(before.last(), map));
        lemma_renamed_ids(node.children[count - 1], map, own, other);
        lemma_flat_append(flat_list(before.drop_last(), own), flat(before.last(), own));
        lemma_flat_append(flat_list(after.drop_last(), other), flat(after.last(), other));
        assert(flat_ids(flat_list(after, other)) =~= flat_ids(flat_list(before, own)).map_values(turn));
    }
}

proof fn lemma_renamed_added(additions: Seq<AdditionView>, map: Map<Ref, Ref>, after: Seq<AdditionView>)
    requires
        after.len() == additions.len(),
        forall|k: int| 0 <= k < additions.len() ==> (#[trigger] after[k]).node == renamed_node(additions[k].node, map),
    ensures
        added_ids(after) == added_ids(additions).map_values(|id: Ref| renamed_ref(id, map)),
    decreases additions.len(),
{
    let turn = |id: Ref| renamed_ref(id, map);
    let list = added_nodes(additions);
    let later = added_nodes(after);
    if additions.len() == 0 {
        assert(added_ids(after) =~= added_ids(additions).map_values(turn));
    } else {
        lemma_renamed_added(additions.drop_last(), map, after.drop_last());
        assert(added_nodes(additions.drop_last()) =~= list.drop_last());
        assert(added_nodes(after.drop_last()) =~= later.drop_last());
        assert(after[additions.len() - 1].node == renamed_node(additions[additions.len() - 1].node, map));
        assert(later.last() == renamed_node(list.last(), map));
        lemma_renamed_ids(list.last(), map, None, None);
        lemma_flat_append(flat_list(list.drop_last(), None), flat(list.last(), None));
        lemma_flat_append(flat_list(later.drop_last(), None), flat(later.last(), None));
        assert(added_ids(after) =~= added_ids(additions).map_values(turn));
    }
}

pub(crate) proof fn lemma_ref_follows(from: Seq<Ref>, map: Map<Ref, Ref>, id: Ref)
    requires
        map.dom() == from.to_set(),
    ensures
        follows(from, from.map_values(|id: Ref| renamed_ref(id, map)), id, renamed_ref(id, map)),
{
    let to = from.map_values(|id: Ref| renamed_ref(id, map));
    assert(from.to_set().contains(id) <==> from.contains(id));
    assert forall|k: int| 0 <= k < from.len() && #[trigger] from[k] == id implies renamed_ref(id, map) == to[k] by {}
}

pub(crate) proof fn lemma_properties_follow(from: Seq<Ref>, map: Map<Ref, Ref>, values: Map<Seq<char>, VariantView>)
    requires
        map.dom() == from.to_set(),
    ensures
        properties_follow(
            from,
            from.map_values(|id: Ref| renamed_ref(id, map)),
            values,
            crate::capture_identity::renamed_properties(values, map),
        ),
{
    let to = from.map_values(|id: Ref| renamed_ref(id, map));
    let after = crate::capture_identity::renamed_properties(values, map);
    assert(values.dom() =~= after.dom());
    assert forall|name: Seq<char>| #[trigger] values.dom().contains(name) implies value_follows(
        from,
        to,
        values[name],
        after[name],
    ) by {
        match values[name] {
            VariantView::Ref(target) => lemma_ref_follows(from, map, target),
            VariantView::Object(target) => lemma_ref_follows(from, map, target),
            _ => {},
        }
    }
}

proof fn lemma_node_follows(from: Seq<Ref>, map: Map<Ref, Ref>, node: NodeView)
    requires
        map.dom() == from.to_set(),
    ensures
        node_follows(from, from.map_values(|id: Ref| renamed_ref(id, map)), node, renamed_node(node, map)),
    decreases node,
{
    let to = from.map_values(|id: Ref| renamed_ref(id, map));
    let after = renamed_node(node, map);
    lemma_ref_follows(from, map, node.id);
    lemma_properties_follow(from, map, node.properties);
    assert forall|at: int|
        #![trigger node.children[at]]
        #![trigger after.children[at]]
        0 <= at < node.children.len() implies node_follows(from, to, node.children[at], after.children[at]) by {
        lemma_node_follows(from, map, node.children[at]);
    }
}

// ---------------------------------------------------------------------------
// What a matching names

/// The identities of a list of nodes and of everything below them.
pub(crate) open spec fn named(list: Seq<NodeView>) -> Set<Ref> {
    flat_ids(flat_list(list, None)).to_set()
}

pub(crate) proof fn lemma_flat_parents(list: Seq<NodeView>, a: Option<Ref>, b: Option<Ref>)
    ensures
        flat_ids(flat_list(list, a)) == flat_ids(flat_list(list, b)),
    decreases list.len(),
{
    if list.len() > 0 {
        lemma_flat_parents(list.drop_last(), a, b);
        lemma_flat_append(flat_list(list.drop_last(), a), flat(list.last(), a));
        lemma_flat_append(flat_list(list.drop_last(), b), flat(list.last(), b));
        assert(flat_ids(flat(list.last(), a)) =~= flat_ids(flat(list.last(), b))) by {
            let rest = flat_list(list.last().children, Some(list.last().id));
            lemma_flat_append(seq![FlatView { parent: a, node: list.last() }], rest);
            lemma_flat_append(seq![FlatView { parent: b, node: list.last() }], rest);
            assert(flat_ids(seq![FlatView { parent: a, node: list.last() }]) =~= flat_ids(
                seq![FlatView { parent: b, node: list.last() }],
            ));
        }
        assert(flat_ids(flat_list(list, a)) =~= flat_ids(flat_list(list, b)));
    } else {
        assert(flat_ids(flat_list(list, a)) =~= flat_ids(flat_list(list, b)));
    }
}

pub(crate) proof fn lemma_named_more(list: Seq<NodeView>)
    requires
        list.len() > 0,
    ensures
        named(list) =~= named(list.drop_last()).union(ids(list.last())),
{
    let before = flat_ids(flat_list(list.drop_last(), None));
    let last = flat_ids(flat(list.last(), None));
    lemma_flat_append(flat_list(list.drop_last(), None), flat(list.last(), None));
    assert forall|id: Ref| (before + last).contains(id) <==> before.contains(id) || last.contains(id) by {
        if before.contains(id) {
            assert((before + last)[before.index_of(id)] == id);
        }
        if last.contains(id) {
            assert((before + last)[before.len() + last.index_of(id)] == id);
        }
    }
}

pub(crate) proof fn lemma_ids_of(node: NodeView)
    ensures
        ids(node) =~= named(node.children).insert(node.id),
{
    let head = seq![FlatView { parent: None::<Ref>, node }];
    let below = flat_ids(flat_list(node.children, Some(node.id)));
    lemma_flat_append(head, flat_list(node.children, Some(node.id)));
    lemma_flat_parents(node.children, Some(node.id), None);
    assert(flat_ids(head) =~= seq![node.id]);
    let all = seq![node.id] + below;
    assert forall|id: Ref| ids(node).contains(id) <==> named(node.children).insert(node.id).contains(id) by {
        assert(all[0] == node.id);
        if below.contains(id) {
            assert(all[1 + below.index_of(id)] == id);
        }
        if all.contains(id) && id != node.id {
            assert(below[all.index_of(id) - 1] == id);
        }
    }
}

/// An instance of that identity and class stands in a hierarchy.
pub open spec fn stands_in(node: NodeView, id: Ref, class: Seq<char>) -> bool
    decreases node,
{
    (node.id == id && node.class == class) || exists|at: int|
        0 <= at < node.children.len() && stands_in(#[trigger] node.children[at], id, class)
}

/// An instance of that identity and class stands in one of several hierarchies.
pub open spec fn stands_among(list: Seq<NodeView>, id: Ref, class: Seq<char>) -> bool {
    exists|at: int| 0 <= at < list.len() && stands_in(#[trigger] list[at], id, class)
}

proof fn lemma_selected(list: Seq<NodeView>, taken: Set<Ref>, new: NodeView, known: Map<Ref, crate::hashing::Digest>, digest: crate::hashing::Digest)
    ensures
        match selected(list, taken, new, known, digest) {
            Ok(Some(at)) => 0 <= at < list.len() && list[at].class == new.class && !taken.contains(list[at].id),
            Ok(None) => forall|at: int|
                0 <= at < list.len() && (#[trigger] list[at]).class == new.class ==> taken.contains(list[at].id),
            Err(count) => count > 1,
        },
{
    let among = candidates(list, taken, new.class, known, digest);
    lemma_positions(list.len(), of_digest(list, taken, new.class, known, digest));
    lemma_positions(list.len(), of_class(list, taken, new.class));
    lemma_positions(among.len(), of_name(list, among, new));
    let named = positions(among.len(), of_name(list, among, new));
    let exact = positions(list.len(), of_digest(list, taken, new.class, known, digest));
    if among.len() == 1 {
        assert(0 <= among[0] < list.len());
    } else if named.len() == 1 {
        assert(0 <= named[0] < among.len());
        assert(0 <= among[named[0]] < list.len());
    } else if among.len() == 0 {
        let keep = of_class(list, taken, new.class);
        assert forall|at: int| 0 <= at < list.len() && (#[trigger] list[at]).class == new.class implies taken.contains(
            list[at].id,
        ) by {
            if !taken.contains(list[at].id) {
                assert(keep(at));
                assert(positions(list.len(), keep).contains(at));
            }
        }
    }
}

/// Every entry of a matching that is not in another pairs a new instance with a prior one
/// of its class.
spec fn pairs_like(olds: Seq<NodeView>, news: Seq<NodeView>, before: Map<Ref, Ref>, after: Map<Ref, Ref>) -> bool {
    &&& after.dom().subset_of(before.dom().union(named(news)))
    &&& before.dom().subset_of(after.dom())
    &&& forall|id: Ref| #[trigger]
        after.dom().contains(id) ==> (before.dom().contains(id) && after[id] == before[id]) || exists|class: Seq<char>| #[trigger]
            stands_among(news, id, class) && stands_among(olds, after[id], class)
}

proof fn lemma_matched_node(old: NodeView, new: NodeView, location: Seq<char>, matching: Map<Ref, Ref>, evidence: Evidence)
    requires
        matched_node(old, new, location, matching, evidence) is Ok,
        old.class == new.class,
    ensures
        pairs_like(seq![old], seq![new], matching, matched_node(old, new, location, matching, evidence)->Ok_0),
    decreases new, 0nat,
{
    let started = matching.insert(new.id, old.id);
    lemma_matched_children(old, new.children, location, started, evidence);
    let after = matched_node(old, new, location, matching, evidence)->Ok_0;
    let olds = seq![old];
    let news = seq![new];
    lemma_named_more(news);
    assert(news.drop_last() =~= Seq::empty());
    assert(named(news) =~= ids(new));
    lemma_ids_of(new);
    assert(news[0] == new && olds[0] == old);
    assert forall|id: Ref| #[trigger] after.dom().contains(id) implies (matching.dom().contains(id) && after[id]
        == matching[id]) || exists|class: Seq<char>| #[trigger] stands_among(news, id, class) && stands_among(
        olds,
        after[id],
        class,
    ) by {
        if started.dom().contains(id) && after[id] == started[id] {
            if id == new.id {
                assert(stands_in(news[0], id, new.class));
                assert(stands_in(olds[0], old.id, new.class));
                assert(stands_among(news, id, new.class));
            }
        } else {
            let class = choose|class: Seq<char>| #[trigger] stands_among(new.children, id, class) && stands_among(
                old.children,
                after[id],
                class,
            );
            assert(stands_in(news[0], id, class));
            assert(stands_in(olds[0], after[id], class));
            assert(stands_among(news, id, class));
        }
    }
}

proof fn lemma_matched_children(old: NodeView, list: Seq<NodeView>, location: Seq<char>, matching: Map<Ref, Ref>, evidence: Evidence)
    requires
        matched_children(old, list, location, matching, evidence) is Ok,
    ensures
        pairs_like(old.children, list, matching, matched_children(old, list, location, matching, evidence)->Ok_0.0),
    decreases list, 1nat,
{
    if list.len() > 0 {
        lemma_matched_children(old, list.drop_last(), location, matching, evidence);
        lemma_named_more(list);
        let before = matched_children(old, list.drop_last(), location, matching, evidence)->Ok_0;
        let child = list.last();
        lemma_selected(old.children, before.1, child, evidence.old, evidence.new[child.id]);
        match selected(old.children, before.1, child, evidence.old, evidence.new[child.id]) {
            Ok(Some(at)) => {
                let place = crate::capture_identity::below(location, child.name);
                lemma_matched_node(old.children[at], child, place, before.0, evidence);
                let after = matched_node(old.children[at], child, place, before.0, evidence)->Ok_0;
                lemma_pairs_join(old.children, list, matching, before.0, after, at);
            },
            _ => {
                lemma_pairs_more(old.children, list, matching, before.0);
            },
        }
    }
}

proof fn lemma_pairs_more(olds: Seq<NodeView>, list: Seq<NodeView>, matching: Map<Ref, Ref>, before: Map<Ref, Ref>)
    requires
        list.len() > 0,
        pairs_like(olds, list.drop_last(), matching, before),
    ensures
        pairs_like(olds, list, matching, before),
{
    lemma_named_more(list);
    assert forall|id: Ref| #[trigger] before.dom().contains(id) implies (matching.dom().contains(id) && before[id]
        == matching[id]) || exists|class: Seq<char>| #[trigger] stands_among(list, id, class) && stands_among(
        olds,
        before[id],
        class,
    ) by {
        if !(matching.dom().contains(id) && before[id] == matching[id]) {
            let class = choose|class: Seq<char>| #[trigger] stands_among(list.drop_last(), id, class) && stands_among(
                olds,
                before[id],
                class,
            );
            let at = choose|at: int| 0 <= at < list.drop_last().len() && stands_in(#[trigger] list.drop_last()[at], id, class);
            assert(stands_in(list[at], id, class));
            assert(stands_among(list, id, class));
        }
    }
}

proof fn lemma_pairs_join(
    olds: Seq<NodeView>,
    list: Seq<NodeView>,
    matching: Map<Ref, Ref>,
    before: Map<Ref, Ref>,
    after: Map<Ref, Ref>,
    place: int,
)
    requires
        list.len() > 0,
        0 <= place < olds.len(),
        pairs_like(olds, list.drop_last(), matching, before),
        pairs_like(seq![olds[place]], seq![list.last()], before, after),
    ensures
        pairs_like(olds, list, matching, after),
{
    lemma_named_more(list);
    lemma_named_more(seq![list.last()]);
    assert(seq![list.last()].drop_last() =~= Seq::<NodeView>::empty());
    assert(named(seq![list.last()]) =~= ids(list.last()));
    lemma_pairs_more(olds, list, matching, before);
    assert forall|id: Ref| #[trigger] after.dom().contains(id) implies (matching.dom().contains(id) && after[id]
        == matching[id]) || exists|class: Seq<char>| #[trigger] stands_among(list, id, class) && stands_among(
        olds,
        after[id],
        class,
    ) by {
        if before.dom().contains(id) && after[id] == before[id] {
        } else {
            let class = choose|class: Seq<char>| #[trigger] stands_among(seq![list.last()], id, class) && stands_among(
                seq![olds[place]],
                after[id],
                class,
            );
            assert(stands_in(list[list.len() - 1], id, class));
            assert(stands_in(olds[place], after[id], class));
            assert(stands_among(list, id, class));
        }
    }
}

proof fn lemma_matched_roots(removed: Seq<NodeView>, list: Seq<NodeView>, evidence: Evidence)
    requires
        matched_roots(removed, list, evidence) is Ok,
    ensures
        pairs_like(removed, list, Map::empty(), matched_roots(removed, list, evidence)->Ok_0.0),
    decreases list.len(),
{
    if list.len() > 0 {
        lemma_matched_roots(removed, list.drop_last(), evidence);
        lemma_named_more(list);
        let before = matched_roots(removed, list.drop_last(), evidence)->Ok_0;
        let new = list.last();
        lemma_selected(removed, before.1, new, evidence.old, evidence.new[new.id]);
        match selected(removed, before.1, new, evidence.old, evidence.new[new.id]) {
            Ok(Some(at)) => {
                lemma_matched_node(removed[at], new, new.name, before.0, evidence);
                let after = matched_node(removed[at], new, new.name, before.0, evidence)->Ok_0;
                lemma_pairs_join(removed, list, Map::empty(), before.0, after, at);
            },
            _ => {
                lemma_pairs_more(removed, list, Map::empty(), before.0);
            },
        }
    }
}

proof fn lemma_removed(canonical: NodeView, removals: Seq<Ref>, at: int)
    requires
        0 <= at < removed_nodes(canonical, removals).len(),
    ensures
        ({
            let node = removed_nodes(canonical, removals)[at];
            removals.contains(node.id) && exists|k: int|
                0 <= k < flat(canonical, None).len() && #[trigger] flat(canonical, None)[k].node == node
        }),
    decreases removals.len(),
{
    if removals.len() > 0 {
        let before = removed_nodes(canonical, removals.drop_last());
        let list = flat(canonical, None);
        lemma_position(list, removals.last());
        if at < before.len() {
            lemma_removed(canonical, removals.drop_last(), at);
            let id = before[at].id;
            assert(removals[removals.drop_last().index_of(id)] == id);
        } else {
            let k = position(list, removals.last())->0;
            assert(list[k].node == removed_nodes(canonical, removals)[at]);
            assert(removals[removals.len() - 1] == removals.last());
        }
    }
}

/// An instance of a place that stands at or below a removed one.
pub open spec fn given_up(canonical: NodeView, removals: Seq<Ref>, id: Ref, class: Seq<char>) -> bool {
    exists|k: int|
        #![trigger flat(canonical, None)[k]]
        0 <= k < flat(canonical, None).len() && removals.contains(flat(canonical, None)[k].node.id) && stands_in(
            flat(canonical, None)[k].node,
            id,
            class,
        )
}

/// Reconciling changes nothing but identities, and every mention of an added instance
/// follows it: the parents of updates and additions, the references in their properties
/// and below them. Each added instance either keeps the identity of a prior instance of its
/// class that the capture gave up, or has one that no prior instance has; no two of those
/// are the same.
pub proof fn law_mentions_follow_added_instances(
    canonical: NodeView,
    before: ChangesView,
    allocator: ManifestIdentityAllocator,
    after: ChangesView,
    outcome: Result<HashMap<u128, u128>, ReconcileError>,
)
    requires
        reconciled(canonical, before, allocator, after, outcome),
        outcome is Ok,
    ensures
        ({
            let map = outcome->Ok_0@;
            let from = added_ids(before.additions);
            let to = added_ids(after.additions);
            &&& changes_follow(before, after)
            &&& map.dom() == from.to_set()
            &&& forall|k: int| 0 <= k < from.len() ==> map[#[trigger] from[k]] == to[k]
            &&& forall|k: int|
                0 <= k < from.len() ==> (#[trigger] to[k] != NO_REF && !ids(canonical).contains(to[k])) || exists|
                    class: Seq<char>,
                | #[trigger]
                    stands_among(added_nodes(before.additions), from[k], class) && given_up(
                        canonical,
                        before.removals,
                        to[k],
                        class,
                    )
            &&& forall|i: int, j: int|
                0 <= i < from.len() && 0 <= j < from.len() && from[i] != from[j] && !ids(canonical).contains(to[i])
                    && !ids(canonical).contains(to[j]) ==> #[trigger] to[i] != #[trigger] to[j]
        }),
{
    lemma_outcome_follows(canonical, before, after, outcome->Ok_0@);
}

proof fn lemma_given_up(canonical: NodeView, removals: Seq<Ref>, id: Ref, class: Seq<char>)
    requires
        stands_among(removed_nodes(canonical, removals), id, class),
    ensures
        given_up(canonical, removals, id, class),
{
    let removed = removed_nodes(canonical, removals);
    let at = choose|at: int| 0 <= at < removed.len() && stands_in(#[trigger] removed[at], id, class);
    lemma_removed(canonical, removals, at);
    let k = choose|k: int| 0 <= k < flat(canonical, None).len() && #[trigger] flat(canonical, None)[k].node == removed[at];
    assert(removals.contains(flat(canonical, None)[k].node.id));
}

proof fn lemma_stands_flat(node: NodeView, parent: Option<Ref>, id: Ref, class: Seq<char>)
    requires
        stands_in(node, id, class),
    ensures
        flat_ids(flat(node, parent)).contains(id),
    decreases node,
{
    lemma_ids_of(node);
    lemma_flat_parents(seq![node], parent, None);
    assert(seq![node].drop_last() =~= Seq::<NodeView>::empty());
    assert(flat_list(seq![node].drop_last(), parent) =~= Seq::empty());
    assert(flat_list(seq![node].drop_last(), None) =~= Seq::empty());
    assert(flat_list(seq![node], parent) =~= flat(node, parent));
    assert(flat_list(seq![node], None) =~= flat(node, None));
    if !(node.id == id && node.class == class) {
        let at = choose|at: int| 0 <= at < node.children.len() && stands_in(#[trigger] node.children[at], id, class);
        lemma_stands_flat(node.children[at], None, id, class);
        lemma_named_child(node.children, at, id);
    }
    assert(ids(node).contains(id));
}

proof fn lemma_named_child(list: Seq<NodeView>, at: int, id: Ref)
    requires
        0 <= at < list.len(),
        ids(list[at]).contains(id),
    ensures
        named(list).contains(id),
    decreases list.len(),
{
    lemma_named_more(list);
    if at < list.len() - 1 {
        lemma_named_child(list.drop_last(), at, id);
    }
}

pub(crate) proof fn lemma_outcome_follows(canonical: NodeView, before: ChangesView, after: ChangesView, map: Map<Ref, Ref>)
    requires
        matching_of(canonical, before) is Ok,
        completes(matching_of(canonical, before)->Ok_0, added_ids(before.additions), ids(canonical), map),
        after == renamed_changes(before, map),
    ensures
        ({
            let from = added_ids(before.additions);
            let to = added_ids(after.additions);
            &&& changes_follow(before, after)
            &&& map.dom() == from.to_set()
            &&& forall|k: int| 0 <= k < from.len() ==> map[#[trigger] from[k]] == to[k]
            &&& forall|k: int|
                0 <= k < from.len() ==> (#[trigger] to[k] != NO_REF && !ids(canonical).contains(to[k])) || exists|
                    class: Seq<char>,
                | #[trigger]
                    stands_among(added_nodes(before.additions), from[k], class) && given_up(
                        canonical,
                        before.removals,
                        to[k],
                        class,
                    )
            &&& forall|i: int, j: int|
                0 <= i < from.len() && 0 <= j < from.len() && from[i] != from[j] && !ids(canonical).contains(to[i])
                    && !ids(canonical).contains(to[j]) ==> #[trigger] to[i] != #[trigger] to[j]
        }),
{
    let matching = matching_of(canonical, before)->Ok_0;
    let from = added_ids(before.additions);
    let to = added_ids(after.additions);
    let removed = removed_nodes(canonical, before.removals);
    let list = added_nodes(before.additions);
    lemma_matched_roots(removed, list, crate::capture_identity::evidence_of(canonical, before));
    assert(map.dom() =~= from.to_set());
    lemma_renamed_added(before.additions, map, after.additions);
    assert(to == from.map_values(|id: Ref| renamed_ref(id, map)));
    assert forall|k: int| 0 <= k < from.len() implies map[#[trigger] from[k]] == to[k] by {
        assert(from.to_set().contains(from[k]));
    }
    assert forall|at: int|
        #![trigger before.additions[at]]
        #![trigger after.additions[at]]
        0 <= at < before.additions.len() implies follows(from, to, before.additions[at].parent, after.additions[at].parent)
        && node_follows(from, to, before.additions[at].node, after.additions[at].node) by {
        lemma_ref_follows(from, map, before.additions[at].parent);
        lemma_node_follows(from, map, before.additions[at].node);
    }
    assert forall|at: int|
        #![trigger before.updates[at]]
        #![trigger after.updates[at]]
        0 <= at < before.updates.len() implies update_follows(from, to, before.updates[at], after.updates[at]) by {
        let update = before.updates[at];
        lemma_ref_follows(from, map, update.id);
        if let Some(parent) = update.parent {
            lemma_ref_follows(from, map, parent);
        }
        if let Some(values) = update.properties {
            lemma_properties_follow(from, map, values);
        }
    }
    assert forall|k: int| 0 <= k < from.len() implies (#[trigger] to[k] != NO_REF && !ids(canonical).contains(to[k]))
        || exists|class: Seq<char>| #[trigger] stands_among(list, from[k], class) && given_up(
        canonical,
        before.removals,
        to[k],
        class,
    ) by {
        let id = from[k];
        assert(map[id] == to[k]);
        assert(from.contains(id));
        if matching.dom().contains(id) {
            let class = choose|class: Seq<char>| #[trigger] stands_among(list, id, class) && stands_among(
                removed,
                matching[id],
                class,
            );
            lemma_given_up(canonical, before.removals, to[k], class);
            assert(stands_among(list, from[k], class));
        }
    }
    assert forall|i: int, j: int|
        0 <= i < from.len() && 0 <= j < from.len() && from[i] != from[j] && !ids(canonical).contains(to[i])
            && !ids(canonical).contains(to[j]) implies #[trigger] to[i] != #[trigger] to[j] by {
        assert(map[from[i]] == to[i] && map[from[j]] == to[j]);
        assert(from.contains(from[i]) && from.contains(from[j]));
        lemma_prior(canonical, before, from[i]);
        lemma_prior(canonical, before, from[j]);
        assert(!matching.dom().contains(from[i]));
        assert(!matching.dom().contains(from[j]));
        assert(map[from[i]] != map[from[j]]);
    }
}

/// What a matching names is prior.
proof fn lemma_prior(canonical: NodeView, before: ChangesView, id: Ref)
    requires
        matching_of(canonical, before) is Ok,
    ensures
        matching_of(canonical, before)->Ok_0.dom().contains(id) ==> ids(canonical).contains(
            matching_of(canonical, before)->Ok_0[id],
        ),
{
    let matching = matching_of(canonical, before)->Ok_0;
    let removed = removed_nodes(canonical, before.removals);
    let list = added_nodes(before.additions);
    lemma_matched_roots(removed, list, crate::capture_identity::evidence_of(canonical, before));
    if matching.dom().contains(id) {
        let class = choose|class: Seq<char>| #[trigger] stands_among(list, id, class) && stands_among(
            removed,
            matching[id],
            class,
        );
        lemma_given_up(canonical, before.removals, matching[id], class);
        let k = choose|k: int|
            #![trigger flat(canonical, None)[k]]
            0 <= k < flat(canonical, None).len() && before.removals.contains(flat(canonical, None)[k].node.id)
                && stands_in(flat(canonical, None)[k].node, matching[id], class);
        lemma_stands_flat(flat(canonical, None)[k].node, None, matching[id], class);
        lemma_nested(canonical, None, k, matching[id]);
    }
}

/// What stands below an instance of a hierarchy stands in the hierarchy.
proof fn lemma_nested(node: NodeView, parent: Option<Ref>, k: int, id: Ref)
    requires
        0 <= k < flat(node, parent).len(),
        ids(flat(node, parent)[k].node).contains(id),
    ensures
        ids(node).contains(id),
    decreases node, 1nat,
{
    lemma_ids_of(node);
    let head = seq![FlatView { parent, node }];
    assert(flat(node, parent) == head + flat_list(node.children, Some(node.id)));
    if k > 0 {
        assert(flat(node, parent)[k] == flat_list(node.children, Some(node.id))[k - 1]);
        lemma_nested_below(node.children, Some(node.id), k - 1, id);
    }
}

proof fn lemma_nested_below(list: Seq<NodeView>, parent: Option<Ref>, k: int, id: Ref)
    requires
        0 <= k < flat_list(list, parent).len(),
        ids(flat_list(list, parent)[k].node).contains(id),
    ensures
        named(list).contains(id),
    decreases list, 0nat,
{
    lemma_named_more(list);
    let before = flat_list(list.drop_last(), parent);
    if k < before.len() {
        assert(flat_list(list, parent)[k] == before[k]);
        lemma_nested_below(list.drop_last(), parent, k, id);
    } else {
        assert(flat_list(list, parent)[k] == flat(list.last(), parent)[k - before.len()]);
        lemma_nested(list.last(), parent, k - before.len(), id);
    }
}

} // verus!
