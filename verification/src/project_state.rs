//! The state of a served project: what is pending, which identities are retired,
//! and what the hierarchy is after Studio committed.

use crate::capture_identity::{framed, push_framed, push_value, value_text};
use crate::hashing::{blake3_digest, blake3_hash, digest_chars, digest_text, stable_identity, stable_ref};
use crate::hierarchy::{flat, ids, set_members};
use crate::live_policy::{location, Canonical};
use crate::manifest_identity::{be_bytes, push_be};
use crate::snapshot::{lemma_children, nodes, Changes, ChangesView, NodeView, Snapshot, UpdateView, UpdatedSnapshot};
use crate::text::{decimal, decimal_text, ref_chars, ref_text, text_bytes, texts};
use crate::text_map::{lemma_listed_keys, ordered_keys, Plain};
use crate::variant::{Properties, Variant, VariantView};
use crate::Ref;
use std::collections::HashSet;
use vstd::prelude::*;
use vstd::string::StringSliceAdditionalSpecFns;

verus! {

broadcast use vstd::std_specs::hash::group_hash_axioms;

// ---------------------------------------------------------------------------
// Pending changes

/// Properties of scripts that the engine keeps for itself.
pub open spec fn engine_owned(name: Seq<char>) -> bool {
    name == "Capabilities"@ || name == "LinkedSource"@ || name == "Sandboxed"@ || name == "SourceAssetId"@
}

/// An update that only resets what the engine keeps for itself on a mapped
/// instance.
pub open spec fn engine_reset(update: UpdateView, mapped: Set<Ref>) -> bool {
    &&& mapped.contains(update.id)
    &&& update.parent is None
    &&& update.name is None
    &&& update.raw_name is None
    &&& update.class is None
    &&& (update.properties matches Some(properties) ==> properties.dom() =~= Set::empty())
    &&& update.removed_properties.len() > 0
    &&& forall|k: int|
        0 <= k < update.removed_properties.len() ==> engine_owned(#[trigger] update.removed_properties[k])
}

/// The realization of mappings has changes that are not synchronized.
pub open spec fn changes_pending(changes: ChangesView, mapped: Set<Ref>) -> bool {
    ||| changes.additions.len() > 0
    ||| changes.removals.len() > 0
    ||| exists|k: int| 0 <= k < changes.updates.len() && !engine_reset(#[trigger] changes.updates[k], mapped)
}

fn is_engine_reset(update: &UpdatedSnapshot, mapped: &HashSet<u128>) -> (reset: bool)
    ensures
        reset == engine_reset(update@, mapped@),
{
    let set: bool = match &update.properties {
        Some(properties) => {
            let len: usize = properties.len();
            proof {
                assert(properties.deep().dom() =~= properties@.dom());
                if len == 0 {
                    assert(properties.keys().to_set() =~= Set::empty());
                } else {
                    assert(properties.keys().contains(properties.keys()[0]));
                    assert(properties.keys().to_set().contains(properties.keys()[0]));
                }
            }
            len > 0
        },
        None => false,
    };
    proof {
        assert(update@.removed_properties.len() == update.removed_properties@.len());
    }
    if !mapped.contains(&update.id) || update.parent.is_some() || update.name.is_some() || update.raw_name.is_some()
        || update.class.is_some() || set || update.removed_properties.len() == 0 {
        return false;
    }
    let mut at: usize = 0;
    while at < update.removed_properties.len()
        invariant
            at <= update.removed_properties@.len(),
            update@.removed_properties.len() == update.removed_properties@.len(),
            forall|k: int| 0 <= k < at ==> engine_owned(#[trigger] update@.removed_properties[k]),
        decreases update.removed_properties@.len() - at,
    {
        let name: &str = update.removed_properties[at].as_str();
        proof {
            assert(update@.removed_properties[at as int] == name@);
        }
        if !(name.eq("Capabilities") || name.eq("LinkedSource") || name.eq("Sandboxed") || name.eq("SourceAssetId")) {
            assert(!engine_owned(update@.removed_properties[at as int]));
            return false;
        }
        at = at + 1;
    }
    true
}

/// Whether the realization of mappings has changes that are not synchronized.
pub fn projected_realization_changes_pending(changes: &Changes, mapped_refs: &HashSet<u128>) -> (pending: bool)
    ensures
        pending == changes_pending(changes@, mapped_refs@),
{
    proof {
        assert(changes@.additions.len() == changes.additions@.len());
        assert(changes@.updates.len() == changes.updates@.len());
    }
    if changes.additions.len() > 0 || changes.removals.len() > 0 {
        return true;
    }
    let mut at: usize = 0;
    while at < changes.updates.len()
        invariant
            at <= changes.updates@.len(),
            changes@.updates.len() == changes.updates@.len(),
            forall|k: int| 0 <= k < at ==> engine_reset(#[trigger] changes@.updates[k], mapped_refs@),
        decreases changes.updates@.len() - at,
    {
        proof {
            assert(changes@.updates[at as int] == changes.updates@[at as int]@);
        }
        if !is_engine_reset(&changes.updates[at], mapped_refs) {
            assert(!engine_reset(changes@.updates[at as int], mapped_refs@));
            return true;
        }
        at = at + 1;
    }
    false
}

/// The mappings of a project are not synchronized yet.
#[derive(Clone, Copy, Debug, PartialEq, Eq, Structural)]
pub struct ProjectSynchronizationPending;

impl ProjectSynchronizationPending {
    pub fn message(&self) -> (text: &'static str)
        ensures
            text@
                == "filesystem mapping realization has pending changes; wait for project synchronization before Capture Manifest"@,
    {
        "filesystem mapping realization has pending changes; wait for project synchronization before Capture Manifest"
    }
}

// ---------------------------------------------------------------------------
// The generation of a realization

/// Everything of a node as bytes, its children in the order of their identities.
pub open spec fn realization_text(node: NodeView) -> Seq<u8>
    decreases node,
{
    be_bytes(node.id as nat, 16) + framed(text_bytes(node.class)) + framed(text_bytes(node.name)) + (
    match node.raw_name {
        Some(raw) => seq![1u8] + framed(raw),
        None => seq![0u8],
    }) + all_properties_text(node.properties, ordered_keys(node.properties.dom())) + be_bytes(
        node.children.len(),
        8,
    ) + realization_texts(node.children, child_order(node.children))
}

/// The texts of children in an order.
pub open spec fn realization_texts(list: Seq<NodeView>, order: Seq<int>) -> Seq<u8>
    decreases list, order.len(),
{
    if order.len() == 0 {
        Seq::empty()
    } else if 0 <= order.last() < list.len() {
        realization_texts(list, order.drop_last()) + realization_text(list[order.last()])
    } else {
        Seq::empty()
    }
}

/// Named values as bytes, references by their targets.
pub open spec fn all_properties_text(values: Map<Seq<char>, VariantView>, names: Seq<Seq<char>>) -> Seq<u8>
    decreases names.len(),
{
    if names.len() == 0 {
        Seq::empty()
    } else {
        all_properties_text(values, names.drop_last()) + framed(text_bytes(names.last())) + exact_text(
            values[names.last()],
        )
    }
}

/// A value as bytes, a reference by its target.
pub open spec fn exact_text(value: VariantView) -> Seq<u8> {
    match value {
        VariantView::Ref(target) => framed(text_bytes("Ref"@)) + be_bytes(target as nat, 16),
        other => value_text(other),
    }
}

/// The places of children with one more behind those whose identity is not
/// greater.
pub open spec fn place_inserted(list: Seq<NodeView>, order: Seq<int>, at: int) -> Seq<int>
    decreases order.len(),
{
    if order.len() == 0 {
        seq![at]
    } else if list[at].id < list[order.last()].id {
        place_inserted(list, order.drop_last(), at).push(order.last())
    } else {
        order.push(at)
    }
}

/// The places of the first children in the order of their identities.
pub open spec fn first_places(list: Seq<NodeView>, count: nat) -> Seq<int>
    decreases count,
{
    if count == 0 {
        Seq::empty()
    } else {
        place_inserted(list, first_places(list, (count - 1) as nat), count - 1)
    }
}

/// The places of children in the order of their identities.
pub open spec fn child_order(list: Seq<NodeView>) -> Seq<int> {
    first_places(list, list.len())
}

proof fn lemma_place_inserted(list: Seq<NodeView>, order: Seq<int>, at: int, place: int)
    requires
        0 <= place <= order.len(),
        forall|k: int| place <= k < order.len() ==> list[at].id < list[#[trigger] order[k]].id,
        place > 0 ==> !(list[at].id < list[order[place - 1]].id),
    ensures
        place_inserted(list, order, at) == order.insert(place, at),
    decreases order.len(),
{
    if order.len() == 0 {
        assert(order.insert(place, at) =~= seq![at]);
    } else if place == order.len() {
        assert(order.insert(place, at) =~= order.push(at));
    } else {
        assert(list[at].id < list[order[order.len() - 1]].id);
        lemma_place_inserted(list, order.drop_last(), at, place);
        assert(order.drop_last().insert(place, at).push(order.last()) =~= order.insert(place, at));
    }
}

/// Numbers as the integers they are.
spec fn as_ints(list: Seq<usize>) -> Seq<int> {
    list.map_values(|at: usize| at as int)
}

fn find_child_order(children: &Vec<Snapshot>) -> (order: Vec<usize>)
    ensures
        as_ints(order@) == child_order(nodes(children@)),
        forall|k: int| 0 <= k < order@.len() ==> (#[trigger] order@[k]) < children@.len(),
{
    let ghost list = nodes(children@);
    let mut order: Vec<usize> = Vec::new();
    let mut at: usize = 0;
    proof {
        assert(as_ints(order@) =~= first_places(list, 0));
    }
    while at < children.len()
        invariant
            at <= children@.len(),
            list == nodes(children@),
            as_ints(order@) == first_places(list, at as nat),
            forall|k: int| 0 <= k < order@.len() ==> (#[trigger] order@[k]) < at,
        decreases children@.len() - at,
    {
        let ghost before = as_ints(order@);
        let mut place: usize = order.len();
        while place > 0 && children[at].id < children[order[place - 1]].id
            invariant
                at < children@.len(),
                place <= order@.len(),
                list == nodes(children@),
                forall|k: int| 0 <= k < order@.len() ==> (#[trigger] order@[k]) < at,
                forall|k: int| place <= k < order@.len() ==> list[at as int].id < list[#[trigger] order@[k] as int].id,
            decreases place,
        {
            place = place - 1;
        }
        proof {
            assert forall|k: int| place <= k < before.len() implies list[at as int].id < list[#[trigger] before[k]].id by {
                assert(before[k] == order@[k] as int);
            }
            if place > 0 {
                assert(before[place - 1] == order@[place - 1] as int);
            }
            lemma_place_inserted(list, before, at as int, place as int);
        }
        let ghost earlier = order@;
        order.insert(place, at);
        proof {
            assert(as_ints(order@) =~= before.insert(place as int, at as int));
            assert forall|k: int| 0 <= k < order@.len() implies (#[trigger] order@[k]) < at + 1 by {
                if k < place {
                    assert(order@[k] == earlier[k]);
                } else if k > place {
                    assert(order@[k] == earlier[k - 1]);
                }
            }
        }
        at = at + 1;
    }
    order
}

fn push_exact(out: &mut Vec<u8>, value: &Variant)
    ensures
        final(out)@ == old(out)@ + exact_text(value@),
{
    match value {
        Variant::Ref(target) => {
            push_framed(out, "Ref".as_bytes());
            push_be(out, *target, 16);
        },
        _ => {
            push_value(out, value);
        },
    }
    proof {
        assert(out@ =~= old(out)@ + exact_text(value@));
    }
}

fn push_all_properties(out: &mut Vec<u8>, values: &Properties)
    ensures
        final(out)@ == old(out)@ + all_properties_text(values.deep(), ordered_keys(values.deep().dom())),
{
    let len: usize = values.len();
    let ghost names = values.keys();
    proof {
        lemma_listed_keys(*values);
        assert(values.deep().dom() =~= values@.dom());
        assert(names.take(0) =~= Seq::empty());
        assert(out@ =~= old(out)@ + all_properties_text(values.deep(), names.take(0)));
    }
    let mut at: usize = 0;
    while at < len
        invariant
            at <= len,
            len == names.len(),
            names == values.keys(),
            values.listed(),
            out@ == old(out)@ + all_properties_text(values.deep(), names.take(at as int)),
        decreases len - at,
    {
        push_framed(out, values.key_at(at).as_str().as_bytes());
        push_exact(out, values.value_at(at));
        proof {
            let next = names.take(at + 1);
            assert(next.drop_last() =~= names.take(at as int));
            assert(names.contains(names[at as int]));
            assert(names.to_set().contains(names[at as int]));
            assert(values.deep()[names[at as int]] == values@[names[at as int]]@);
            assert(out@ =~= old(out)@ + all_properties_text(values.deep(), next));
        }
        at = at + 1;
    }
    proof {
        assert(names.take(len as int) =~= names);
    }
}

fn push_realization(out: &mut Vec<u8>, node: &Snapshot)
    ensures
        final(out)@ == old(out)@ + realization_text(node.node()),
    decreases node,
{
    let ghost view = node.node();
    push_be(out, node.id, 16);
    push_framed(out, node.class.as_str().as_bytes());
    push_framed(out, node.name.as_str().as_bytes());
    match &node.raw_name {
        Some(raw) => {
            out.push(1);
            push_framed(out, raw.as_slice());
        },
        None => {
            out.push(0);
        },
    }
    push_all_properties(out, &node.properties);
    push_be(out, node.children.len() as u128, 8);
    let order: Vec<usize> = find_child_order(&node.children);
    let ghost start = out@;
    let ghost list = view.children;
    let ghost places = as_ints(order@);
    proof {
        lemma_children(*node);
        assert(list =~= nodes(node.children@));
        assert(places.take(0) =~= Seq::empty());
        assert(start + realization_texts(list, places.take(0)) =~= start);
        assert(start =~= old(out)@ + (be_bytes(view.id as nat, 16) + framed(text_bytes(view.class)) + framed(
            text_bytes(view.name),
        ) + (match view.raw_name {
            Some(raw) => seq![1u8] + framed(raw),
            None => seq![0u8],
        }) + all_properties_text(view.properties, ordered_keys(view.properties.dom())) + be_bytes(
            view.children.len(),
            8,
        )));
    }
    let mut at: usize = 0;
    while at < order.len()
        invariant
            at <= order@.len(),
            list == node.node().children,
            list.len() == node.children@.len(),
            forall|k: int| 0 <= k < list.len() ==> #[trigger] list[k] == node.children@[k].node(),
            forall|k: int| 0 <= k < order@.len() ==> (#[trigger] order@[k]) < node.children@.len(),
            places == as_ints(order@),
            out@ == start + realization_texts(list, places.take(at as int)),
        decreases order@.len() - at,
    {
        push_realization(out, &node.children[order[at]]);
        proof {
            let next = places.take(at + 1);
            assert(next.drop_last() =~= places.take(at as int));
            assert(next.last() == order@[at as int] as int);
            assert(list[order@[at as int] as int] == node.children@[order@[at as int] as int].node());
            assert(out@ =~= start + realization_texts(list, next));
        }
        at = at + 1;
    }
    proof {
        assert(places.take(places.len() as int) =~= places);
        assert(out@ =~= old(out)@ + realization_text(view));
    }
}

/// Routes as bytes.
pub open spec fn routes_text(routes: Seq<Seq<Seq<char>>>) -> Seq<u8>
    decreases routes.len(),
{
    if routes.len() == 0 {
        Seq::empty()
    } else {
        routes_text(routes.drop_last()) + be_bytes(routes.last().len(), 8) + crate::capture_identity::list_text(
            routes.last(),
        )
    }
}

/// The generation of a realization: a digest of its nodes and its routes in
/// which the order of siblings leaves no trace.
pub open spec fn generation_of(candidate: NodeView, routes: Seq<Seq<Seq<char>>>) -> Seq<char> {
    digest_chars(blake3_hash(realization_text(candidate) + routes_text(routes)))
}

/// The children at some places.
spec fn picked(list: Seq<NodeView>, order: Seq<int>) -> Seq<NodeView> {
    order.map_values(|at: int| list[at])
}

/// The texts of nodes.
spec fn joined_realizations(list: Seq<NodeView>) -> Seq<u8>
    decreases list.len(),
{
    if list.len() == 0 {
        Seq::empty()
    } else {
        joined_realizations(list.drop_last()) + realization_text(list.last())
    }
}

/// Identities that grow.
spec fn ids_grow(list: Seq<NodeView>) -> bool {
    forall|i: int, j: int| 0 <= i < j < list.len() ==> (#[trigger] list[i]).id < (#[trigger] list[j]).id
}

proof fn lemma_picked_inserted(list: Seq<NodeView>, order: Seq<int>, at: int)
    requires
        ids_grow(picked(list, order)),
        forall|k: int| 0 <= k < order.len() ==> list[#[trigger] order[k]].id != list[at].id,
    ensures
        ids_grow(picked(list, place_inserted(list, order, at))),
        place_inserted(list, order, at).len() == order.len() + 1,
        forall|place: int|
            #![trigger place_inserted(list, order, at).contains(place)]
            place_inserted(list, order, at).contains(place) == (order.contains(place) || place == at),
        forall|k: int|
            0 <= k < order.len() + 1 ==> {
                let found = #[trigger] place_inserted(list, order, at)[k];
                found == at || order.contains(found)
            },
    decreases order.len(),
{
    let all = place_inserted(list, order, at);
    if order.len() == 0 {
        assert(all =~= seq![at]);
        assert(all[0] == at);
    } else {
        let shorter = order.drop_last();
        let last = order.last();
        assert forall|i: int, j: int| 0 <= i < j < picked(list, shorter).len() implies (#[trigger] picked(list, shorter)[i]).id < (
        #[trigger] picked(list, shorter)[j]).id by {
            assert(picked(list, shorter)[i] == picked(list, order)[i]);
            assert(picked(list, shorter)[j] == picked(list, order)[j]);
        }
        assert forall|k: int| 0 <= k < shorter.len() implies list[#[trigger] shorter[k]].id != list[at].id by {
            assert(shorter[k] == order[k]);
        }
        assert(order[order.len() - 1] == last);
        if list[at].id < list[last].id {
            lemma_picked_inserted(list, shorter, at);
            let rest = place_inserted(list, shorter, at);
            assert(all == rest.push(last));
            assert forall|k: int| 0 <= k < rest.len() implies list[#[trigger] rest[k]].id < list[last].id by {
                if rest[k] != at {
                    let m = shorter.index_of(rest[k]);
                    assert(picked(list, order)[m] == list[order[m]]);
                    assert(picked(list, order)[order.len() - 1] == list[last]);
                }
            }
            assert forall|i: int, j: int| 0 <= i < j < picked(list, all).len() implies (#[trigger] picked(list, all)[i]).id < (
            #[trigger] picked(list, all)[j]).id by {
                assert(picked(list, all)[i] == list[rest[i]]);
                if j < rest.len() {
                    assert(picked(list, rest)[i].id < picked(list, rest)[j].id);
                }
            }
            assert forall|place: int| all.contains(place) == (order.contains(place) || place == at) by {
                lemma_pushed(rest, last, place);
                lemma_pushed(shorter, last, place);
                assert(shorter.push(last) =~= order);
            }
        } else {
            assert(all == order.push(at));
            assert forall|i: int, j: int| 0 <= i < j < picked(list, all).len() implies (#[trigger] picked(list, all)[i]).id < (
            #[trigger] picked(list, all)[j]).id by {
                assert(picked(list, all)[i] == picked(list, order)[i]);
                if j < order.len() {
                    assert(picked(list, all)[j] == picked(list, order)[j]);
                } else {
                    assert(picked(list, order)[order.len() - 1] == list[last]);
                    if i < order.len() - 1 {
                        assert(picked(list, order)[i].id < picked(list, order)[order.len() - 1].id);
                    }
                }
            }
            assert forall|place: int| all.contains(place) == (order.contains(place) || place == at) by {
                lemma_pushed(order, at, place);
            }
        }
        assert forall|k: int| 0 <= k < order.len() + 1 implies ({
            let found = #[trigger] all[k];
            found == at || order.contains(found)
        }) by {
            assert(all.contains(all[k]));
        }
    }
}

proof fn lemma_pushed(list: Seq<int>, last: int, place: int)
    ensures
        list.push(last).contains(place) == (list.contains(place) || place == last),
{
    let all = list.push(last);
    if list.contains(place) {
        assert(all[list.index_of(place)] == place);
    }
    if place == last {
        assert(all[list.len() as int] == place);
    }
    if all.contains(place) && place != last {
        assert(list[all.index_of(place)] == place);
    }
}

proof fn lemma_first_places(list: Seq<NodeView>, count: nat)
    requires
        count <= list.len(),
        forall|i: int, j: int| 0 <= i < j < list.len() ==> (#[trigger] list[i]).id != (#[trigger] list[j]).id,
    ensures
        ids_grow(picked(list, first_places(list, count))),
        first_places(list, count).len() == count,
        forall|place: int| #[trigger] first_places(list, count).contains(place) == (0 <= place < count),
    decreases count,
{
    if count > 0 {
        let before = first_places(list, (count - 1) as nat);
        lemma_first_places(list, (count - 1) as nat);
        assert forall|k: int| 0 <= k < before.len() implies list[#[trigger] before[k]].id != list[count - 1].id by {
            assert(before.contains(before[k]));
        }
        lemma_picked_inserted(list, before, count - 1);
    }
}

proof fn lemma_joined_realizations(list: Seq<NodeView>, order: Seq<int>)
    requires
        forall|k: int| 0 <= k < order.len() ==> 0 <= #[trigger] order[k] < list.len(),
    ensures
        realization_texts(list, order) == joined_realizations(picked(list, order)),
    decreases order.len(),
{
    if order.len() > 0 {
        let shorter = order.drop_last();
        assert forall|k: int| 0 <= k < shorter.len() implies 0 <= #[trigger] shorter[k] < list.len() by {
            assert(shorter[k] == order[k]);
        }
        lemma_joined_realizations(list, shorter);
        assert(picked(list, order).drop_last() =~= picked(list, shorter));
        assert(0 <= order[order.len() - 1] < list.len());
    }
}

/// Two lists whose identities grow are the same where they hold the same nodes.
proof fn lemma_growing_lists(left: Seq<NodeView>, right: Seq<NodeView>)
    requires
        ids_grow(left),
        ids_grow(right),
        forall|node: NodeView| #[trigger] left.contains(node) == right.contains(node),
    ensures
        left == right,
    decreases left.len(),
{
    if left.len() == 0 {
        if right.len() > 0 {
            assert(right.contains(right[0]));
            assert(left.contains(right[0]));
        }
        assert(left =~= right);
    } else {
        let x = left.last();
        assert(left.contains(x));
        assert(right.contains(x));
        let y = right.last();
        assert(right.contains(y));
        assert(left.contains(y));
        let i = right.index_of(x);
        let j = left.index_of(y);
        if i < right.len() - 1 {
            assert(right[i].id < right[right.len() - 1].id);
        }
        if j < left.len() - 1 {
            assert(left[j].id < left[left.len() - 1].id);
        }
        assert(i == right.len() - 1);
        assert(x == y);
        let shorter_left = left.drop_last();
        let shorter_right = right.drop_last();
        assert forall|a: int, b: int| 0 <= a < b < shorter_left.len() implies (#[trigger] shorter_left[a]).id < (
        #[trigger] shorter_left[b]).id by {
            assert(left[a].id < left[b].id);
        }
        assert forall|a: int, b: int| 0 <= a < b < shorter_right.len() implies (#[trigger] shorter_right[a]).id < (
        #[trigger] shorter_right[b]).id by {
            assert(right[a].id < right[b].id);
        }
        assert forall|node: NodeView| #[trigger] shorter_left.contains(node) == shorter_right.contains(node) by {
            assert(left.contains(node) == right.contains(node));
            if shorter_left.contains(node) {
                let k = shorter_left.index_of(node);
                assert(left[k] == node);
                assert(left[k].id < left[left.len() - 1].id);
                assert(left.contains(node));
                let m = right.index_of(node);
                assert(m < right.len() - 1);
                assert(shorter_right[m] == node);
            }
            if shorter_right.contains(node) {
                let k = shorter_right.index_of(node);
                assert(right[k] == node);
                assert(right[k].id < right[right.len() - 1].id);
                assert(right.contains(node));
                assert(left.contains(node));
                let m = left.index_of(node);
                assert(m < left.len() - 1);
                assert(shorter_left[m] == node);
            }
        }
        lemma_growing_lists(shorter_left, shorter_right);
        assert(left =~= shorter_left.push(x));
        assert(right =~= shorter_right.push(x));
    }
}

proof fn lemma_picked_members(list: Seq<NodeView>, node: NodeView)
    requires
        forall|i: int, j: int| 0 <= i < j < list.len() ==> (#[trigger] list[i]).id != (#[trigger] list[j]).id,
    ensures
        picked(list, child_order(list)).contains(node) == list.contains(node),
{
    let order = child_order(list);
    lemma_first_places(list, list.len());
    if list.contains(node) {
        let k = list.index_of(node);
        assert(order.contains(k));
        let m = order.index_of(k);
        assert(picked(list, order)[m] == node);
    }
    if picked(list, order).contains(node) {
        let m = picked(list, order).index_of(node);
        assert(order.contains(order[m]));
        assert(list[order[m]] == node);
    }
}

/// The generation of a realization does not depend on the order of siblings: two places
/// that hold the same children, each identity once, have the same.
pub proof fn law_generations_forget_sibling_order(node: NodeView, children: Seq<NodeView>, routes: Seq<Seq<Seq<char>>>)
    requires
        forall|i: int, j: int|
            0 <= i < j < node.children.len() ==> (#[trigger] node.children[i]).id != (#[trigger] node.children[j]).id,
        forall|i: int, j: int| 0 <= i < j < children.len() ==> (#[trigger] children[i]).id != (#[trigger] children[j]).id,
        forall|child: NodeView| #[trigger] node.children.contains(child) == children.contains(child),
    ensures
        generation_of(node, routes) == generation_of((NodeView { children, ..node }), routes),
{
    let list = node.children;
    let left = picked(list, child_order(list));
    let right = picked(children, child_order(children));
    lemma_first_places(list, list.len());
    lemma_first_places(children, children.len());
    assert forall|child: NodeView| #[trigger] left.contains(child) == right.contains(child) by {
        lemma_picked_members(list, child);
        lemma_picked_members(children, child);
        assert(list.contains(child) == children.contains(child));
    }
    lemma_growing_lists(left, right);
    assert(left.len() == list.len());
    assert(right.len() == children.len());
    assert forall|k: int| 0 <= k < child_order(list).len() implies 0 <= #[trigger] child_order(list)[k] < list.len() by {
        assert(child_order(list).contains(child_order(list)[k]));
    }
    assert forall|k: int| 0 <= k < child_order(children).len() implies 0 <= #[trigger] child_order(children)[k]
        < children.len() by {
        assert(child_order(children).contains(child_order(children)[k]));
    }
    lemma_joined_realizations(list, child_order(list));
    lemma_joined_realizations(children, child_order(children));
    let other = NodeView { children, ..node };
    assert(realization_text(node) == realization_text(other));
}

/// The generation of a realization.
pub fn projected_realization_generation(candidate: &Snapshot, routes: &Vec<Vec<String>>) -> (generation: String)
    ensures
        generation@ == generation_of(candidate.node(), crate::project_routes::routes_view(routes@)),
{
    let mut text: Vec<u8> = Vec::new();
    push_realization(&mut text, candidate);
    let ghost start = text@;
    let ghost all = crate::project_routes::routes_view(routes@);
    let mut at: usize = 0;
    proof {
        assert(start =~= realization_text(candidate.node()));
        assert(all.take(0) =~= Seq::empty());
        assert(start + routes_text(all.take(0)) =~= start);
    }
    while at < routes.len()
        invariant
            at <= routes@.len(),
            all == crate::project_routes::routes_view(routes@),
            text@ == start + routes_text(all.take(at as int)),
        decreases routes@.len() - at,
    {
        push_be(&mut text, routes[at].len() as u128, 8);
        crate::capture_identity::push_list(&mut text, &routes[at]);
        proof {
            let next = all.take(at + 1);
            assert(next.drop_last() =~= all.take(at as int));
            assert(next.last() == texts(routes@[at as int]@));
            assert(texts(routes@[at as int]@).len() == routes@[at as int]@.len());
            assert(text@ =~= start + routes_text(next));
        }
        at = at + 1;
    }
    proof {
        assert(all.take(all.len() as int) =~= all);
    }
    digest_text(blake3_digest(text.as_slice()))
}

// ---------------------------------------------------------------------------
// Retired identities

/// The identities that a new realization of the source gives up: those that were
/// mapped, and those that were removed, unless they are mapped again.
pub fn retired_source_refs(
    previous_mapped: &HashSet<u128>,
    next_mapped: &HashSet<u128>,
    removals: &Vec<Ref>,
) -> (retired: HashSet<u128>)
    ensures
        retired@ == previous_mapped@.union(removals@.to_set()).difference(next_mapped@),
{
    let members: Vec<Ref> = set_members(previous_mapped);
    let mut retired: HashSet<u128> = HashSet::new();
    let mut at: usize = 0;
    proof {
        assert(members@.take(0).to_set() =~= Set::empty());
        assert(retired@ =~= members@.take(0).to_set().difference(next_mapped@));
    }
    while at < members.len()
        invariant
            at <= members@.len(),
            retired@ == members@.take(at as int).to_set().difference(next_mapped@),
        decreases members@.len() - at,
    {
        if !next_mapped.contains(&members[at]) {
            retired.insert(members[at]);
        }
        proof {
            crate::hierarchy::lemma_taken_set(members@, at as int);
            assert(retired@ =~= members@.take(at + 1).to_set().difference(next_mapped@));
        }
        at = at + 1;
    }
    proof {
        assert(members@.take(members@.len() as int) =~= members@);
        assert(removals@.take(0).to_set() =~= Set::empty());
        assert(retired@ =~= previous_mapped@.union(removals@.take(0).to_set()).difference(next_mapped@));
    }
    let mut next: usize = 0;
    while next < removals.len()
        invariant
            next <= removals@.len(),
            retired@ == previous_mapped@.union(removals@.take(next as int).to_set()).difference(next_mapped@),
        decreases removals@.len() - next,
    {
        if !next_mapped.contains(&removals[next]) {
            retired.insert(removals[next]);
        }
        proof {
            crate::hierarchy::lemma_taken_set(removals@, next as int);
            assert(retired@ =~= previous_mapped@.union(removals@.take(next + 1).to_set()).difference(next_mapped@));
        }
        next = next + 1;
    }
    proof {
        assert(removals@.take(removals@.len() as int) =~= removals@);
    }
    retired
}

// ---------------------------------------------------------------------------
// Services of a capture

/// The places of the children with a class and name.
pub open spec fn anchors(list: Seq<NodeView>, class: Seq<char>, name: Seq<char>) -> Seq<Ref>
    decreases list.len(),
{
    if list.len() == 0 {
        Seq::empty()
    } else {
        let before = anchors(list.drop_last(), class, name);
        if list.last().class == class && list.last().name == name {
            before.push(list.last().id)
        } else {
            before
        }
    }
}

/// What the identity of a new service is derived from.
pub open spec fn service_seed(root: Ref, class: Seq<char>, name: Seq<char>) -> Seq<char> {
    "capture-service-v1:"@ + ref_chars(root) + ":"@ + decimal(text_bytes(class).len()) + ":"@ + class + ":"@ + decimal(
        text_bytes(name).len(),
    ) + ":"@ + name
}

/// Why a service of a capture has no identity.
#[derive(Debug)]
pub enum AnchorError {
    /// Several services of the class and name.
    Ambiguous { class: String, name: String },
    /// The new identity is taken.
    Taken { class: String, name: String },
}

impl AnchorError {
    pub open spec fn text(self) -> Seq<char> {
        match self {
            AnchorError::Ambiguous { class, name } => "capture service shell "@ + class@ + " '"@ + name@
                + "' has no unique canonical anchor"@,
            AnchorError::Taken { class, name } => "new capture service identity for "@ + class@ + " '"@ + name@
                + "' collides with canonical state"@,
        }
    }

    pub fn message(&self) -> (text: String)
        ensures
            text@ == self.text(),
    {
        match self {
            AnchorError::Ambiguous { class, name } => {
                let mut text: String = "capture service shell ".to_owned();
                text.append(class.as_str());
                text.append(" '");
                text.append(name.as_str());
                text.append("' has no unique canonical anchor");
                text
            },
            AnchorError::Taken { class, name } => {
                let mut text: String = "new capture service identity for ".to_owned();
                text.append(class.as_str());
                text.append(" '");
                text.append(name.as_str());
                text.append("' collides with canonical state");
                text
            },
        }
    }
}

fn find_anchors(children: &Vec<Snapshot>, class: &str, name: &str) -> (found: Vec<Ref>)
    ensures
        found@ == anchors(nodes(children@), class@, name@),
{
    let ghost list = nodes(children@);
    let mut found: Vec<Ref> = Vec::new();
    let mut at: usize = 0;
    proof {
        assert(list.take(0) =~= Seq::empty());
        assert(found@ =~= anchors(list.take(0), class@, name@));
    }
    while at < children.len()
        invariant
            at <= children@.len(),
            list == nodes(children@),
            found@ == anchors(list.take(at as int), class@, name@),
        decreases children@.len() - at,
    {
        proof {
            let next = list.take(at + 1);
            assert(next.drop_last() =~= list.take(at as int));
            assert(next.last() == children@[at as int].node());
        }
        if children[at].class.as_str().eq(class) && children[at].name.as_str().eq(name) {
            found.push(children[at].id);
        }
        at = at + 1;
    }
    proof {
        assert(list.take(list.len() as int) =~= list);
    }
    found
}

/// The identity of a service of a capture: that of the one service of its class
/// and name, or a new one that is derived from the root, the class and the name.
pub fn capture_service_anchor(canonical: &Snapshot, class: &str, name: &str) -> (anchor: Result<Ref, AnchorError>)
    ensures
        ({
            let found = anchors(canonical.node().children, class@, name@);
            let fresh = stable_identity(service_seed(canonical.id, class@, name@));
            if found.len() > 1 {
                anchor matches Err(error) && (error matches AnchorError::Ambiguous { class: c, name: n } && c@
                    == class@ && n@ == name@)
            } else if found.len() == 1 {
                anchor == Ok::<Ref, AnchorError>(found[0])
            } else if ids(canonical.node()).contains(fresh) {
                anchor matches Err(error) && (error matches AnchorError::Taken { class: c, name: n } && c@ == class@
                    && n@ == name@)
            } else {
                anchor == Ok::<Ref, AnchorError>(fresh)
            }
        }),
{
    proof {
        lemma_children(*canonical);
    }
    let found: Vec<Ref> = find_anchors(&canonical.children, class, name);
    if found.len() > 1 {
        return Err(AnchorError::Ambiguous { class: class.to_owned(), name: name.to_owned() });
    }
    if found.len() == 1 {
        return Ok(found[0]);
    }
    let mut seed: String = "capture-service-v1:".to_owned();
    seed.append(ref_text(canonical.id).as_str());
    seed.append(":");
    seed.append(decimal_text(class.as_bytes().len() as u64).as_str());
    seed.append(":");
    seed.append(class);
    seed.append(":");
    seed.append(decimal_text(name.as_bytes().len() as u64).as_str());
    seed.append(":");
    seed.append(name);
    let fresh: Ref = stable_ref(seed.as_str());
    let list: Vec<crate::hierarchy::FlatNode> = crate::hierarchy::flatten_snapshot(canonical);
    let taken: HashSet<u128> = crate::hierarchy::flat_id_set(&list);
    if taken.contains(&fresh) {
        return Err(AnchorError::Taken { class: class.to_owned(), name: name.to_owned() });
    }
    Ok(fresh)
}

// ---------------------------------------------------------------------------
// After a commit

/// A mapped instance that the earlier hierarchy lacks.
pub open spec fn lost(earlier: Seq<crate::hierarchy::FlatView>, mapped: Set<Ref>, node: NodeView) -> bool
    decreases node,
{
    if mapped.contains(node.id) {
        location(earlier, node.id) is None
    } else {
        exists|k: int| 0 <= k < node.children.len() && lost(earlier, mapped, #[trigger] node.children[k])
    }
}

/// A committed hierarchy in which mapped instances are as they were.
pub open spec fn committed_node(earlier: Seq<crate::hierarchy::FlatView>, mapped: Set<Ref>, node: NodeView) -> NodeView
    decreases node,
{
    if mapped.contains(node.id) {
        location(earlier, node.id)->0.node
    } else {
        NodeView { children: committed_list(earlier, mapped, node.children), ..node }
    }
}

pub open spec fn committed_list(
    earlier: Seq<crate::hierarchy::FlatView>,
    mapped: Set<Ref>,
    list: Seq<NodeView>,
) -> Seq<NodeView>
    decreases list,
{
    if list.len() == 0 {
        Seq::empty()
    } else {
        committed_list(earlier, mapped, list.drop_last()).push(committed_node(earlier, mapped, list.last()))
    }
}

/// A mapped instance is gone from the hierarchy that was served.
#[derive(Clone, Copy, Debug, PartialEq, Eq, Structural)]
pub struct LostInstance;

impl LostInstance {
    pub fn message(&self) -> (text: &'static str)
        ensures
            text@ == "filesystem-owned instance disappeared from the hybrid baseline"@,
    {
        "filesystem-owned instance disappeared from the hybrid baseline"
    }
}

fn merge_committed(node: &Snapshot, earlier: &Canonical, mapped: &HashSet<u128>) -> (merged: Result<
    Snapshot,
    LostInstance,
>)
    requires
        earlier.wf(),
    ensures
        if lost(earlier.flat(), mapped@, node.node()) {
            merged is Err
        } else {
            merged matches Ok(found) && found.node() == committed_node(earlier.flat(), mapped@, node.node())
        },
    decreases node,
{
    if mapped.contains(&node.id) {
        return match earlier.find(node.id) {
            Some(found) => Ok(found.snapshot.clone()),
            None => Err(LostInstance),
        };
    }
    let ghost list = node.node().children;
    let mut children: Vec<Snapshot> = Vec::new();
    proof {
        lemma_children(*node);
        assert(list.take(0) =~= Seq::empty());
        assert(nodes(children@) =~= committed_list(earlier.flat(), mapped@, list.take(0)));
    }
    let mut at: usize = 0;
    while at < node.children.len()
        invariant
            at <= node.children@.len(),
            earlier.wf(),
            !mapped@.contains(node.id),
            list == node.node().children,
            list.len() == node.children@.len(),
            forall|k: int| 0 <= k < list.len() ==> #[trigger] list[k] == node.children@[k].node(),
            forall|k: int| 0 <= k < at ==> !lost(earlier.flat(), mapped@, #[trigger] list[k]),
            nodes(children@) == committed_list(earlier.flat(), mapped@, list.take(at as int)),
        decreases node.children@.len() - at,
    {
        let ghost before = nodes(children@);
        proof {
            assert(list[at as int] == node.children@[at as int].node());
        }
        match merge_committed(&node.children[at], earlier, mapped) {
            Ok(child) => {
                let ghost view = child.node();
                children.push(child);
                proof {
                    let next = list.take(at + 1);
                    assert(next.drop_last() =~= list.take(at as int));
                    assert(next.last() == list[at as int]);
                    assert(nodes(children@) =~= before.push(view));
                }
            },
            Err(error) => {
                assert(lost(earlier.flat(), mapped@, list[at as int]));
                return Err(error);
            },
        }
        at = at + 1;
    }
    proof {
        assert(list.take(list.len() as int) =~= list);
    }
    let merged: Snapshot = Snapshot {
        id: node.id,
        name: node.name.clone(),
        raw_name: crate::snapshot::copy_raw(&node.raw_name),
        class: node.class.clone(),
        properties: node.properties.copy(),
        children,
    };
    proof {
        lemma_children(merged);
        assert(merged.node() =~= committed_node(earlier.flat(), mapped@, node.node()));
    }
    Ok(merged)
}

/// The hierarchy after Studio committed: what belongs to the file system stays as
/// it was served, whatever the source says meanwhile.
pub fn canonical_after_studio_commit(
    previous: &Snapshot,
    committed: &Snapshot,
    mapped_refs: &HashSet<u128>,
) -> (merged: Result<Snapshot, LostInstance>)
    ensures
        if lost(flat(previous.node(), None), mapped_refs@, committed.node()) {
            merged is Err
        } else {
            merged matches Ok(found) && found.node() == committed_node(
                flat(previous.node(), None),
                mapped_refs@,
                committed.node(),
            )
        },
{
    let earlier: Canonical = Canonical::of(previous);
    merge_committed(committed, &earlier, mapped_refs)
}

} // verus!
