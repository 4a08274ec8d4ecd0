//! What counts as evidence that a captured instance is one that was there before.

use crate::capture_identity::{
    added_nodes, candidates, evidence_of, identity_only, list_digests, matched_children, matched_node, matched_roots,
    matching_of, node_digest, of_class, of_digest, of_name, properties_text, reconciled, removed_nodes,
    renamed_changes, selected, Evidence, ReconcileError,
};
use crate::capture_laws::{lemma_flat_append, lemma_flat_parents, lemma_ids_of, lemma_named_more, named};
use crate::hashing::Digest;
use crate::hierarchy::{flat, flat_ids, flat_list, ids, lemma_position, lemma_positions, position, positions, FlatView};
use crate::manifest_identity::ManifestIdentityAllocator;

use crate::snapshot::{ChangesView, NodeView};
use crate::text_map::{lemma_ordered_keys, ordered_keys};
use crate::variant::VariantView;
use crate::Ref;
use std::collections::HashMap;
use vstd::prelude::*;

verus! {

// ---------------------------------------------------------------------------
// Which prior instance is taken

/// A prior instance is still free and has the class of the captured one.
pub open spec fn is_free(list: Seq<NodeView>, taken: Set<Ref>, new: NodeView, at: int) -> bool {
    0 <= at < list.len() && !taken.contains(list[at].id) && list[at].class == new.class
}

/// A free prior instance also has the captured one's content, as far as digests show.
pub open spec fn is_alike(
    list: Seq<NodeView>,
    taken: Set<Ref>,
    new: NodeView,
    known: Map<Ref, Digest>,
    digest: Digest,
    at: int,
) -> bool {
    is_free(list, taken, new, at) && known.dom().contains(list[at].id) && known[list[at].id] == digest
}

/// A prior instance is called what the captured one is called.
pub open spec fn is_namesake(list: Seq<NodeView>, new: NodeView, at: int) -> bool {
    list[at].name == new.name && list[at].raw_name == new.raw_name
}

/// A prior instance could be the captured one: it is free, and it has the same content
/// unless no free one has.
pub open spec fn could_be(
    list: Seq<NodeView>,
    taken: Set<Ref>,
    new: NodeView,
    known: Map<Ref, Digest>,
    digest: Digest,
    at: int,
) -> bool {
    &&& is_free(list, taken, new, at)
    &&& is_alike(list, taken, new, known, digest, at) || forall|other: int|
        !(#[trigger] is_alike(list, taken, new, known, digest, other))
}

proof fn lemma_candidates(
    list: Seq<NodeView>,
    taken: Set<Ref>,
    new: NodeView,
    known: Map<Ref, Digest>,
    digest: Digest,
)
    ensures
        ({
            let among = candidates(list, taken, new.class, known, digest);
            &&& forall|k: int|
                0 <= k < among.len() ==> could_be(list, taken, new, known, digest, #[trigger] among[k])
            &&& forall|at: int| #[trigger]
                could_be(list, taken, new, known, digest, at) ==> among.contains(at)
            &&& forall|i: int, j: int| 0 <= i < j < among.len() ==> #[trigger] among[i] != #[trigger] among[j]
        }),
{
    let exact = of_digest(list, taken, new.class, known, digest);
    let loose = of_class(list, taken, new.class);
    let among = candidates(list, taken, new.class, known, digest);
    lemma_positions(list.len(), exact);
    lemma_positions(list.len(), loose);
    let found = positions(list.len(), exact);
    assert forall|at: int| #[trigger] is_alike(list, taken, new, known, digest, at) <==> found.contains(at) by {
        if is_alike(list, taken, new, known, digest, at) {
            assert(exact(at));
        }
        if found.contains(at) {
            let k = found.index_of(at);
            assert(exact(found[k]));
        }
    }
    if found.len() > 0 {
        assert(found.contains(found[0]));
        assert(is_alike(list, taken, new, known, digest, found[0]));
        assert forall|k: int| 0 <= k < among.len() implies could_be(
            list,
            taken,
            new,
            known,
            digest,
            #[trigger] among[k],
        ) by {
            assert(found.contains(among[k]));
            assert(is_alike(list, taken, new, known, digest, among[k]));
        }
    } else {
        assert forall|k: int| 0 <= k < among.len() implies could_be(
            list,
            taken,
            new,
            known,
            digest,
            #[trigger] among[k],
        ) by {
            assert(loose(among[k]));
        }
        assert forall|at: int| #[trigger] could_be(list, taken, new, known, digest, at) implies among.contains(at) by {
            assert(loose(at));
        }
    }
}

/// The prior instance that a captured one is taken for is never a guess. It is the only one
/// that it could be, or the only namesake among those. Nothing is taken where there is none,
/// and the capture is blocked, with their number, where several could be it and names do not
/// tell.
pub proof fn law_evidence_is_never_a_guess(
    list: Seq<NodeView>,
    taken: Set<Ref>,
    new: NodeView,
    known: Map<Ref, Digest>,
    digest: Digest,
    at: int,
    other: int,
)
    requires
        could_be(list, taken, new, known, digest, at),
    ensures
        (forall|k: int| #[trigger] could_be(list, taken, new, known, digest, k) ==> k == at) ==> selected(
            list,
            taken,
            new,
            known,
            digest,
        ) == Ok::<Option<int>, nat>(Some(at)),
        is_namesake(list, new, at) && (forall|k: int| #[trigger]
            could_be(list, taken, new, known, digest, k) && is_namesake(list, new, k) ==> k == at) ==> selected(
            list,
            taken,
            new,
            known,
            digest,
        ) == Ok::<Option<int>, nat>(Some(at)),
        other != at && could_be(list, taken, new, known, digest, other) && ((is_namesake(list, new, at) && is_namesake(
            list,
            new,
            other,
        )) || (forall|k: int| #[trigger] could_be(list, taken, new, known, digest, k) ==> !is_namesake(list, new, k)))
            ==> selected(list, taken, new, known, digest) is Err,
        selected(list, taken, new, known, digest) matches Err(count) ==> count >= 2,
        selected(list, taken, new, known, digest) != Ok::<Option<int>, nat>(None),
{
    let among = candidates(list, taken, new.class, known, digest);
    lemma_candidates(list, taken, new, known, digest);
    let by_name = of_name(list, among, new);
    lemma_positions(among.len(), by_name);
    let called = positions(among.len(), by_name);
    assert(among.contains(at));
    let a = among.index_of(at);
    if forall|k: int| #[trigger] could_be(list, taken, new, known, digest, k) ==> k == at {
        if among.len() > 1 {
            assert(could_be(list, taken, new, known, digest, among[0]));
            assert(could_be(list, taken, new, known, digest, among[1]));
        }
    }
    if is_namesake(list, new, at) && (forall|k: int| #[trigger]
        could_be(list, taken, new, known, digest, k) && is_namesake(list, new, k) ==> k == at) {
        assert(by_name(a));
        assert(called.contains(a));
        if called.len() > 1 {
            assert(by_name(called[0]) && by_name(called[1]));
            assert(could_be(list, taken, new, known, digest, among[called[0]]));
            assert(could_be(list, taken, new, known, digest, among[called[1]]));
        }
        let c = called.index_of(a);
        assert(called[c] == a);
    }
    if other != at && could_be(list, taken, new, known, digest, other) {
        assert(among.contains(other));
        let o = among.index_of(other);
        assert(among.len() > 1) by {
            assert(a != o);
        }
        if is_namesake(list, new, at) && is_namesake(list, new, other) {
            assert(by_name(a) && by_name(o));
            assert(called.contains(a) && called.contains(o));
            let i = called.index_of(a);
            let j = called.index_of(o);
            assert(i != j);
        } else if forall|k: int| #[trigger] could_be(list, taken, new, known, digest, k) ==> !is_namesake(list, new, k) {
            if called.len() > 0 {
                assert(by_name(called[0]));
                assert(could_be(list, taken, new, known, digest, among[called[0]]));
            }
        }
    }
}

// ---------------------------------------------------------------------------
// What digests are taken of

/// Two values say the same of an instance: they are equal, or both mention an instance.
pub open spec fn same_say(left: VariantView, right: VariantView) -> bool {
    left == right || (left is Ref && right is Ref)
}

/// Two hierarchies hold the same: the same classes, and the same properties but for those
/// that say where or when an instance was made and for which instances are mentioned.
/// Identities and names do not matter.
pub open spec fn same_content(left: NodeView, right: NodeView) -> bool
    decreases left,
{
    &&& left.class == right.class
    &&& left.properties.dom() == right.properties.dom() && left.properties.dom().finite()
    &&& forall|name: Seq<char>| #[trigger]
        left.properties.dom().contains(name) && name != "Name"@ && name != "Parent"@ && name != "HistoryId"@ && name
            != "UniqueId"@ ==> same_say(left.properties[name], right.properties[name])
    &&& left.children.len() == right.children.len()
    &&& forall|at: int|
        #![trigger left.children[at]]
        #![trigger right.children[at]]
        0 <= at < left.children.len() ==> same_content(left.children[at], right.children[at])
}

/// No identity occurs twice, and none has a digest yet.
pub open spec fn is_new(all: Seq<Ref>, known: Map<Ref, Digest>) -> bool {
    all.no_duplicates() && forall|k: int| 0 <= k < all.len() ==> !known.dom().contains(#[trigger] all[k])
}

proof fn lemma_same_properties(
    left: Map<Seq<char>, VariantView>,
    right: Map<Seq<char>, VariantView>,
    names: Seq<Seq<char>>,
)
    requires
        forall|k: int|
            0 <= k < names.len() && !identity_only(#[trigger] names[k]) ==> same_say(left[names[k]], right[names[k]]),
    ensures
        properties_text(left, names) == properties_text(right, names),
    decreases names.len(),
{
    if names.len() > 0 {
        let fewer = names.drop_last();
        assert(forall|k: int| 0 <= k < fewer.len() ==> #[trigger] fewer[k] == names[k]);
        lemma_same_properties(left, right, fewer);
        assert(names[names.len() - 1] == names.last());
    }
}

proof fn lemma_known_list(list: Seq<NodeView>, known: Map<Ref, Digest>)
    ensures
        list_digests(list, known).1.dom().subset_of(known.dom().union(named(list))),
    decreases list, 1nat,
{
    if list.len() > 0 {
        lemma_known_list(list.drop_last(), known);
        let before = list_digests(list.drop_last(), known);
        lemma_known_node(list.last(), before.1);
        lemma_named_more(list);
    }
}

proof fn lemma_known_node(node: NodeView, known: Map<Ref, Digest>)
    ensures
        node_digest(node, known).1.dom().subset_of(known.dom().union(ids(node))),
    decreases node, 2nat,
{
    lemma_ids_of(node);
    if !known.dom().contains(node.id) {
        lemma_known_list(node.children, known);
    }
}

proof fn lemma_split(a: Seq<Ref>, b: Seq<Ref>, known: Map<Ref, Digest>, later: Map<Ref, Digest>)
    requires
        is_new(a + b, known),
        later.dom().subset_of(known.dom().union(a.to_set())),
    ensures
        is_new(a, known),
        is_new(b, known),
        is_new(b, later),
{
    let all = a + b;
    assert forall|k: int| 0 <= k < a.len() implies !known.dom().contains(#[trigger] a[k]) by {
        assert(all[k] == a[k]);
    }
    assert forall|i: int, j: int| 0 <= i < a.len() && 0 <= j < a.len() && i != j implies a[i] != a[j] by {
        assert(all[i] == a[i] && all[j] == a[j]);
    }
    assert forall|i: int, j: int| 0 <= i < b.len() && 0 <= j < b.len() && i != j implies b[i] != b[j] by {
        assert(all[a.len() + i] == b[i] && all[a.len() + j] == b[j]);
    }
    assert forall|k: int| 0 <= k < b.len() implies !known.dom().contains(#[trigger] b[k]) && !later.dom().contains(
        b[k],
    ) by {
        assert(all[a.len() + k] == b[k]);
        if a.to_set().contains(b[k]) {
            let i = a.index_of(b[k]);
            assert(all[i] == b[k]);
        }
    }
}

proof fn lemma_same_list(left: Seq<NodeView>, right: Seq<NodeView>, here: Map<Ref, Digest>, there: Map<Ref, Digest>)
    requires
        left.len() == right.len(),
        forall|k: int|
            #![trigger left[k]]
            #![trigger right[k]]
            0 <= k < left.len() ==> same_content(left[k], right[k]),
        is_new(flat_ids(flat_list(left, None)), here),
        is_new(flat_ids(flat_list(right, None)), there),
    ensures
        list_digests(left, here).0 == list_digests(right, there).0,
    decreases left, 1nat,
{
    if left.len() > 0 {
        let l = left.drop_last();
        let r = right.drop_last();
        lemma_flat_append(flat_list(l, None), flat(left.last(), None));
        lemma_flat_append(flat_list(r, None), flat(right.last(), None));
        lemma_known_list(l, here);
        lemma_known_list(r, there);
        lemma_split(
            flat_ids(flat_list(l, None)),
            flat_ids(flat(left.last(), None)),
            here,
            list_digests(l, here).1,
        );
        lemma_split(
            flat_ids(flat_list(r, None)),
            flat_ids(flat(right.last(), None)),
            there,
            list_digests(r, there).1,
        );
        assert forall|k: int|
            #![trigger l[k]]
            #![trigger r[k]]
            0 <= k < l.len() implies same_content(l[k], r[k]) by {
            assert(l[k] == left[k]);
            assert(r[k] == right[k]);
        }
        lemma_same_list(l, r, here, there);
        assert(same_content(left[left.len() - 1], right[left.len() - 1]));
        lemma_same_node(left.last(), right.last(), list_digests(l, here).1, list_digests(r, there).1);
    }
}

proof fn lemma_same_node(left: NodeView, right: NodeView, here: Map<Ref, Digest>, there: Map<Ref, Digest>)
    requires
        same_content(left, right),
        is_new(flat_ids(flat(left, None)), here),
        is_new(flat_ids(flat(right, None)), there),
    ensures
        node_digest(left, here).0 == node_digest(right, there).0,
    decreases left, 2nat,
{
    lemma_heads(left, here);
    lemma_heads(right, there);
    lemma_same_list(left.children, right.children, here, there);
    let names = ordered_keys(left.properties.dom());
    lemma_ordered_keys(left.properties.dom());
    assert forall|k: int| 0 <= k < names.len() && !identity_only(#[trigger] names[k]) implies same_say(
        left.properties[names[k]],
        right.properties[names[k]],
    ) by {
        assert(names.to_set().contains(names[k]));
        assert(left.properties.dom().contains(names[k]));
    }
    lemma_same_properties(left.properties, right.properties, names);
}

proof fn lemma_heads(node: NodeView, known: Map<Ref, Digest>)
    requires
        is_new(flat_ids(flat(node, None)), known),
    ensures
        !known.dom().contains(node.id),
        is_new(flat_ids(flat_list(node.children, None)), known),
{
    let head = seq![FlatView { parent: None::<Ref>, node }];
    lemma_flat_append(head, flat_list(node.children, Some(node.id)));
    lemma_flat_parents(node.children, Some(node.id), None);
    assert(flat_ids(head) =~= seq![node.id]);
    lemma_split(seq![node.id], flat_ids(flat_list(node.children, None)), known, known);
    assert(seq![node.id][0] == node.id);
}

/// What is the same under other identities and names has the same digest: the digest of a
/// captured instance is that of a prior one with the same content, so that a renamed or
/// moved instance is found again.
pub proof fn law_same_content_has_the_same_digest(left: NodeView, right: NodeView)
    requires
        same_content(left, right),
        flat_ids(flat(left, None)).no_duplicates(),
        flat_ids(flat(right, None)).no_duplicates(),
    ensures
        node_digest(left, Map::empty()).0 == node_digest(right, Map::empty()).0,
{
    lemma_same_node(left, right, Map::empty(), Map::empty());
}

// ---------------------------------------------------------------------------
// One for another

proof fn lemma_kept_children(
    old: NodeView,
    list: Seq<NodeView>,
    location: Seq<char>,
    matching: Map<Ref, Ref>,
    evidence: Evidence,
    id: Ref,
)
    requires
        matched_children(old, list, location, matching, evidence) is Ok,
        !named(list).contains(id),
    ensures
        ({
            let after = matched_children(old, list, location, matching, evidence)->Ok_0.0;
            &&& after.dom().contains(id) == matching.dom().contains(id)
            &&& matching.dom().contains(id) ==> after[id] == matching[id]
        }),
    decreases list, 1nat,
{
    if list.len() > 0 {
        lemma_named_more(list);
        lemma_kept_children(old, list.drop_last(), location, matching, evidence, id);
        let before = matched_children(old, list.drop_last(), location, matching, evidence)->Ok_0;
        let child = list.last();
        match selected(old.children, before.1, child, evidence.old, evidence.new[child.id]) {
            Ok(Some(at)) => {
                lemma_kept_node(
                    old.children[at],
                    child,
                    crate::capture_identity::below(location, child.name),
                    before.0,
                    evidence,
                    id,
                );
            },
            _ => {},
        }
    }
}

proof fn lemma_kept_node(
    old: NodeView,
    new: NodeView,
    location: Seq<char>,
    matching: Map<Ref, Ref>,
    evidence: Evidence,
    id: Ref,
)
    requires
        matched_node(old, new, location, matching, evidence) is Ok,
        !ids(new).contains(id),
    ensures
        ({
            let after = matched_node(old, new, location, matching, evidence)->Ok_0;
            &&& after.dom().contains(id) == matching.dom().contains(id)
            &&& matching.dom().contains(id) ==> after[id] == matching[id]
        }),
    decreases new, 2nat,
{
    lemma_ids_of(new);
    lemma_kept_children(old, new.children, location, matching.insert(new.id, old.id), evidence, id);
}

/// An instance that is put in the place of a removed one of its class keeps the identity of
/// that one, whatever it is called and holds, where it is the only one added and the other
/// the only one removed.
pub proof fn law_a_replaced_instance_keeps_its_identity(
    canonical: NodeView,
    before: ChangesView,
    allocator: ManifestIdentityAllocator,
    after: ChangesView,
    outcome: Result<HashMap<u128, u128>, ReconcileError>,
    at: int,
)
    requires
        reconciled(canonical, before, allocator, after, outcome),
        outcome is Ok,
        before.additions.len() == 1,
        flat_ids(flat(before.additions[0].node, None)).no_duplicates(),
        0 <= at < flat(canonical, None).len(),
        flat_ids(flat(canonical, None)).no_duplicates(),
        before.removals == seq![flat(canonical, None)[at].node.id],
        flat(canonical, None)[at].node.class == before.additions[0].node.class,
    ensures
        after.additions.len() == 1,
        after.additions[0].node.id == before.removals[0],
{
    let all = flat(canonical, None);
    let prior = all[at].node;
    let new = before.additions[0].node;
    let removed = removed_nodes(canonical, before.removals);
    lemma_position(all, prior.id);
    let found = position(all, prior.id)->0;
    assert(flat_ids(all)[found] == flat_ids(all)[at]);
    assert(before.removals.drop_last() =~= Seq::empty());
    assert(removed =~= seq![prior]) by {
        reveal_with_fuel(removed_nodes, 2);
    }
    let evidence = evidence_of(canonical, before);
    let list = added_nodes(before.additions);
    assert(list =~= seq![new]);
    assert(list.drop_last() =~= Seq::empty());
    reveal_with_fuel(matched_roots, 2);
    assert(matched_roots(removed, list.drop_last(), evidence)->Ok_0.1 == Set::<Ref>::empty());
    let digest = evidence.new[new.id];
    let none = Set::<Ref>::empty();
    assert(is_free(removed, none, new, 0));
    assert(could_be(removed, none, new, evidence.old, digest, 0)) by {
        assert forall|other: int| #[trigger] is_alike(removed, none, new, evidence.old, digest, other) implies other
            == 0 by {}
    }
    law_evidence_is_never_a_guess(removed, none, new, evidence.old, digest, 0, 0);
    assert(selected(removed, none, new, evidence.old, digest) == Ok::<Option<int>, nat>(Some(0)));
    let matching = matching_of(canonical, before)->Ok_0;
    assert(matched_node(prior, new, new.name, Map::empty(), evidence) is Ok);
    assert(!named(new.children).contains(new.id)) by {
        let head = seq![FlatView { parent: None::<Ref>, node: new }];
        lemma_flat_append(head, flat_list(new.children, Some(new.id)));
        lemma_flat_parents(new.children, Some(new.id), None);
        assert(flat_ids(head) =~= seq![new.id]);
        let below = flat_ids(flat_list(new.children, None));
        let whole = flat_ids(flat(new, None));
        assert(whole[0] == new.id);
        if below.contains(new.id) {
            assert(whole[1 + below.index_of(new.id)] == new.id);
        }
    }
    lemma_kept_children(prior, new.children, new.name, Map::<Ref, Ref>::empty().insert(new.id, prior.id), evidence, new.id);
    assert(matching.dom().contains(new.id) && matching[new.id] == prior.id);
    let map = outcome->Ok_0@;
    assert(map[new.id] == prior.id);
    assert(map.dom().contains(new.id));
    assert(after == renamed_changes(before, map));
}

} // verus!
