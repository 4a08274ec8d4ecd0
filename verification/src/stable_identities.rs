//! Fresh identities for a place that is imported.

use crate::capture_identity::{rename_properties, renamed_properties};
use crate::hierarchy::{flat, flat_ids, flat_list, flat_views, flatten_snapshot, FlatNode, FlatView};
use crate::manifest_identity::{IdentityError, ManifestIdentityAllocator};
use crate::snapshot::{copy_raw, lemma_children, nodes, NodeView, Snapshot};
use crate::source_metadata::{refused, SourceError};
use crate::text::{joined, ref_chars, ref_text};
use crate::text_map::{lemma_listed_keys, ordered_keys};
use crate::variant::{Properties, Variant, VariantView};
use crate::{Ref, NO_REF};
use std::collections::HashMap;
use vstd::prelude::*;

verus! {

broadcast use vstd::std_specs::hash::group_hash_axioms;

/// What each identity becomes; of several that are the same, the last counts. Nothing
/// refers to no identity.
pub open spec fn paired(ids: Seq<Ref>, fresh: Seq<Ref>, count: nat) -> Map<Ref, Ref>
    decreases count,
{
    if count == 0 {
        Map::empty()
    } else {
        let before = paired(ids, fresh, (count - 1) as nat);
        if ids[count - 1] == NO_REF {
            before
        } else {
            before.insert(ids[count - 1], fresh[count - 1])
        }
    }
}

/// Why a value cannot follow its target.
pub open spec fn value_fault(value: VariantView, map: Map<Ref, Ref>) -> Option<Seq<char>> {
    match value {
        VariantView::Ref(target) => if target != NO_REF && !map.dom().contains(target) {
            Some("reference target "@ + ref_chars(target) + " is outside place"@)
        } else {
            None
        },
        VariantView::Object(target) => if target != NO_REF && !map.dom().contains(target) {
            Some("content target "@ + ref_chars(target) + " is outside place"@)
        } else {
            None
        },
        _ => None,
    }
}

/// Why a value among properties cannot follow its target, the first in their order.
pub open spec fn properties_fault(values: Map<Seq<char>, VariantView>, names: Seq<Seq<char>>, map: Map<Ref, Ref>) -> Option<
    Seq<char>,
>
    decreases names.len(),
{
    if names.len() == 0 {
        None
    } else {
        match properties_fault(values, names.drop_last(), map) {
            Some(text) => Some(text),
            None => value_fault(values[names.last()], map),
        }
    }
}

/// Why a value of a hierarchy cannot follow its target, the first in its order.
pub open spec fn flat_fault(list: Seq<FlatView>, map: Map<Ref, Ref>) -> Option<Seq<char>>
    decreases list.len(),
{
    if list.len() == 0 {
        None
    } else {
        match flat_fault(list.drop_last(), map) {
            Some(text) => Some(text),
            None => {
                let values = list.last().node.properties;
                properties_fault(values, ordered_keys(values.dom()), map)
            },
        }
    }
}

/// How many instances a hierarchy has.
pub open spec fn size(node: NodeView) -> nat {
    flat(node, None).len()
}

pub open spec fn sizes(list: Seq<NodeView>) -> nat {
    flat_list(list, None).len()
}

proof fn lemma_flat_len(node: NodeView, left: Option<Ref>, right: Option<Ref>)
    ensures
        flat(node, left).len() == flat(node, right).len(),
{
}

pub(crate) proof fn lemma_flat_list_len(list: Seq<NodeView>, left: Option<Ref>, right: Option<Ref>)
    ensures
        flat_list(list, left).len() == flat_list(list, right).len(),
    decreases list.len(),
{
    if list.len() > 0 {
        lemma_flat_list_len(list.drop_last(), left, right);
        lemma_flat_len(list.last(), left, right);
    }
}

pub(crate) proof fn lemma_sizes(node: NodeView)
    ensures
        size(node) == 1 + sizes(node.children),
{
    lemma_flat_list_len(node.children, Some(node.id), None);
}

/// A hierarchy with fresh identities in its order, from one of them on.
pub open spec fn renumbered(node: NodeView, fresh: Seq<Ref>, from: nat, map: Map<Ref, Ref>) -> NodeView
    decreases node,
{
    NodeView {
        id: fresh[from as int],
        properties: renamed_properties(node.properties, map),
        children: renumbered_list(node.children, fresh, from + 1, map),
        ..node
    }
}

pub open spec fn renumbered_list(list: Seq<NodeView>, fresh: Seq<Ref>, from: nat, map: Map<Ref, Ref>) -> Seq<NodeView>
    decreases list,
{
    if list.len() == 0 {
        Seq::empty()
    } else {
        renumbered_list(list.drop_last(), fresh, from, map).push(
            renumbered(list.last(), fresh, from + sizes(list.drop_last()), map),
        )
    }
}

/// A place with fresh identities, or why a value of it cannot follow its target.
pub open spec fn stabilized(node: NodeView, fresh: Seq<Ref>) -> Result<NodeView, Seq<char>> {
    let map = paired(flat_ids(flat(node, None)), fresh, size(node));
    match flat_fault(flat(node, None), map) {
        Some(text) => Err(text),
        None => Ok(renumbered(node, fresh, 0, map)),
    }
}

fn find_fault(values: &Properties, map: &HashMap<u128, u128>) -> (fault: Option<String>)
    ensures
        match properties_fault(values.deep(), ordered_keys(values.deep().dom()), map@) {
            Some(text) => fault matches Some(fault) && fault@ == text,
            None => fault is None,
        },
{
    let count: usize = values.len();
    let ghost all = values.deep();
    let ghost names = values.keys();
    proof {
        lemma_listed_keys(*values);
        assert(all.dom() =~= values@.dom());
        assert(names.take(0) =~= Seq::empty());
    }
    let mut at: usize = 0;
    let mut fault: Option<String> = None;
    while at < count
        invariant
            at <= count,
            count == names.len(),
            names == values.keys(),
            all == values.deep(),
            values.listed(),
            match properties_fault(all, names.take(at as int), map@) {
                Some(text) => fault matches Some(fault) && fault@ == text,
                None => fault is None,
            },
        decreases count - at,
    {
        let value: &Variant = values.value_at(at);
        proof {
            assert(names.take(at + 1).drop_last() =~= names.take(at as int));
            assert(names.contains(names[at as int]));
            assert(all[names[at as int]] == value@);
        }
        if fault.is_none() {
            match value {
                Variant::Ref(target) => {
                    if *target != NO_REF && !map.contains_key(target) {
                        let mut text: String = joined("reference target ", ref_text(*target).as_str());
                        text.append(" is outside place");
                        fault = Some(text);
                    }
                },
                Variant::Object(target) => {
                    if *target != NO_REF && !map.contains_key(target) {
                        let mut text: String = joined("content target ", ref_text(*target).as_str());
                        text.append(" is outside place");
                        fault = Some(text);
                    }
                },
                _ => {},
            }
        }
        at = at + 1;
    }
    proof {
        assert(names.take(names.len() as int) =~= names);
    }
    fault
}

fn renumber(snapshot: &Snapshot, fresh: &Vec<Ref>, from: usize, map: &HashMap<u128, u128>) -> (renamed: (Snapshot, usize))
    requires
        from + size(snapshot.node()) <= fresh@.len(),
    ensures
        renamed.0.node() == renumbered(snapshot.node(), fresh@, from as nat, map@),
        renamed.1 == from + size(snapshot.node()),
    decreases snapshot,
{
    proof {
        lemma_children(*snapshot);
        lemma_sizes(snapshot.node());
        assert(fresh@.len() == fresh.len());
    }
    let mut properties: Properties = snapshot.properties.copy();
    rename_properties(&mut properties, map);
    let ghost list = snapshot.node().children;
    let mut children: Vec<Snapshot> = Vec::new();
    let mut next: usize = from + 1;
    let mut at: usize = 0;
    proof {
        assert(list.take(0) =~= Seq::empty());
        assert(nodes(children@) =~= Seq::empty());
    }
    while at < snapshot.children.len()
        invariant
            at <= snapshot.children@.len(),
            list == nodes(snapshot.children@),
            list == snapshot.node().children,
            from + 1 + sizes(list) <= fresh@.len(),
            next == from + 1 + sizes(list.take(at as int)),
            nodes(children@) == renumbered_list(list.take(at as int), fresh@, (from + 1) as nat, map@),
        decreases snapshot.children@.len() - at,
    {
        let ghost built = nodes(children@);
        proof {
            assert(list.take(at + 1).drop_last() =~= list.take(at as int));
            assert(list.take(at + 1).last() == snapshot.children@[at as int].node());
            lemma_sizes_within(list, at + 1);
        }
        let (child, after): (Snapshot, usize) = renumber(&snapshot.children[at], fresh, next, map);
        children.push(child);
        proof {
            assert(nodes(children@) =~= built.push(child.node()));
        }
        next = after;
        at = at + 1;
    }
    let renamed: Snapshot = Snapshot {
        id: fresh[from],
        name: snapshot.name.clone(),
        raw_name: copy_raw(&snapshot.raw_name),
        class: snapshot.class.clone(),
        properties,
        children,
    };
    proof {
        lemma_children(renamed);
        assert(list.take(list.len() as int) =~= list);
        assert(renamed.node() =~= renumbered(snapshot.node(), fresh@, from as nat, map@));
    }
    (renamed, next)
}

proof fn lemma_sizes_within(list: Seq<NodeView>, at: int)
    requires
        0 <= at <= list.len(),
    ensures
        sizes(list.take(at)) <= sizes(list),
    decreases list.len() - at,
{
    if at == list.len() {
        assert(list.take(at) =~= list);
    } else {
        assert(list.take(at + 1).drop_last() =~= list.take(at));
        lemma_sizes_within(list, at + 1);
    }
}

/// Gives a place fresh identities, one for each instance in its order. References and
/// object content follow their targets.
pub fn stabilize_with(snapshot: &Snapshot, fresh: &Vec<Ref>) -> (result: Result<Snapshot, SourceError>)
    requires
        fresh@.len() == size(snapshot.node()),
    ensures
        match stabilized(snapshot.node(), fresh@) {
            Ok(expected) => result matches Ok(renamed) && renamed.node() == expected,
            Err(text) => result matches Err(error) && error.message@ == text,
        },
{
    let list: Vec<FlatNode> = flatten_snapshot(snapshot);
    let ghost views = flat_views(list@);
    let ghost ids = flat_ids(views);
    let mut map: HashMap<u128, u128> = HashMap::new();
    let mut at: usize = 0;
    proof {
        assert(map@ =~= Map::empty());
    }
    while at < list.len()
        invariant
            at <= list@.len(),
            list@.len() == fresh@.len(),
            views == flat_views(list@),
            ids == flat_ids(views),
            map@ == paired(ids, fresh@, at as nat),
        decreases list@.len() - at,
    {
        let id: Ref = list[at].snapshot.id;
        proof {
            assert(ids[at as int] == id);
        }
        if id != NO_REF {
            map.insert(id, fresh[at]);
        }
        at = at + 1;
    }
    let mut next: usize = 0;
    proof {
        assert(views.take(0) =~= Seq::empty());
    }
    while next < list.len()
        invariant
            next <= list@.len(),
            views == flat_views(list@),
            views == flat(snapshot.node(), None),
            map@ == paired(flat_ids(views), fresh@, size(snapshot.node())),
            flat_fault(views.take(next as int), map@) is None,
        decreases list@.len() - next,
    {
        proof {
            assert(views.take(next + 1).drop_last() =~= views.take(next as int));
            assert(views.take(next + 1).last() == list@[next as int]@);
        }
        match find_fault(&list[next].snapshot.properties, &map) {
            Some(text) => {
                proof {
                    lemma_fault_stays(views, map@, next + 1);
                }
                return Err(refused(text));
            },
            None => {},
        }
        next = next + 1;
    }
    proof {
        assert(views.take(views.len() as int) =~= views);
    }
    let (renamed, _): (Snapshot, usize) = renumber(snapshot, fresh, 0, &map);
    Ok(renamed)
}

proof fn lemma_fault_stays(list: Seq<FlatView>, map: Map<Ref, Ref>, at: int)
    requires
        0 <= at <= list.len(),
        flat_fault(list.take(at), map) is Some,
    ensures
        flat_fault(list, map) == flat_fault(list.take(at), map),
    decreases list.len() - at,
{
    if at == list.len() {
        assert(list.take(at) =~= list);
    } else {
        assert(list.take(at + 1).drop_last() =~= list.take(at));
        lemma_fault_stays(list, map, at + 1);
    }
}

/// Why a place cannot be given fresh identities.
#[derive(Debug)]
pub enum StabilizationError {
    Identity(IdentityError),
    Reference(SourceError),
}

/// Gives a place fresh identities, all of them different and none of them empty: the
/// next ones at hand, as far as they go, and then those of the random source.
pub fn stabilize_snapshot_ids(snapshot: &Snapshot, allocator: &mut ManifestIdentityAllocator) -> (result: Result<
    Snapshot,
    StabilizationError,
>)
    requires
        old(allocator).wf(),
    ensures
        final(allocator).wf(),
        ({
            let list = old(allocator).at_hand();
            let count = size(snapshot.node());
            if count <= list.len() {
                match stabilized(snapshot.node(), list.take(count as int)) {
                    Ok(expected) => result matches Ok(renamed) && renamed.node() == expected,
                    Err(text) => result matches Err(StabilizationError::Reference(error)) && error.message@
                        == text,
                }
            } else {
                old(allocator).pending() is Some ==> result is Err && result->Err_0 is Identity
            }
        }),
        match result {
            Ok(renamed) => exists|fresh: Seq<Ref>|
                {
                    &&& fresh.len() == size(snapshot.node())
                    &&& fresh.no_duplicates()
                    &&& !fresh.contains(NO_REF)
                    &&& #[trigger] stabilized(snapshot.node(), fresh) == Ok::<NodeView, Seq<char>>(renamed.node())
                },
            Err(StabilizationError::Reference(error)) => exists|fresh: Seq<Ref>|
                fresh.len() == size(snapshot.node()) && #[trigger] stabilized(snapshot.node(), fresh) == Err::<
                    NodeView,
                    Seq<char>,
                >(error.message@),
            Err(StabilizationError::Identity(error)) => error == old(allocator).shortage(),
        },
{
    let list: Vec<FlatNode> = flatten_snapshot(snapshot);
    let mut fresh: Vec<Ref> = Vec::new();
    let ghost ahead = allocator.at_hand();
    proof {
        assert(ahead.take(0) =~= fresh@);
        assert(ahead.skip(0) =~= ahead);
    }
    while fresh.len() < list.len()
        invariant
            fresh@.len() <= list@.len(),
            list@.len() == size(snapshot.node()),
            ahead == old(allocator).at_hand(),
            allocator.wf(),
            allocator.pending() is Some == old(allocator).pending() is Some,
            fresh@.len() <= ahead.len() ==> fresh@ == ahead.take(fresh@.len() as int) && allocator.at_hand()
                == ahead.skip(fresh@.len() as int),
            fresh@.len() > ahead.len() ==> old(allocator).pending() is None,
            fresh@.no_duplicates(),
            forall|k: int| 0 <= k < fresh@.len() ==> fresh@[k] != NO_REF && allocator.issued(#[trigger] fresh@[k]),
        decreases list@.len() - fresh@.len(),
    {
        let ghost before = *allocator;
        match allocator.next() {
            Ok(id) => {
                proof {
                    assert forall|k: int| 0 <= k < fresh@.len() implies #[trigger] fresh@[k] != id by {
                        assert(before.issued(fresh@[k]));
                    }
                    assert(allocator.issued(id));
                    let count = fresh@.len() as int;
                    if count < ahead.len() {
                        assert(ahead.skip(count)[0] == ahead[count]);
                        assert(ahead.skip(count).skip(1) =~= ahead.skip(count + 1));
                        assert(ahead.take(count + 1) =~= ahead.take(count).push(id));
                    }
                }
                fresh.push(id);
            },
            Err(error) => {
                return Err(StabilizationError::Identity(error));
            },
        }
    }
    match stabilize_with(snapshot, &fresh) {
        Ok(renamed) => {
            proof {
                assert(stabilized(snapshot.node(), fresh@) == Ok::<NodeView, Seq<char>>(renamed.node()));
            }
            Ok(renamed)
        },
        Err(error) => {
            proof {
                assert(stabilized(snapshot.node(), fresh@) == Err::<NodeView, Seq<char>>(error.message@));
            }
            Err(StabilizationError::Reference(error))
        },
    }
}

} // verus!
