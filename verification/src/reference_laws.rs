//! What checking and renewing references is for: they lead where they led, and nowhere else.

use crate::capture_identity::{added_ids, added_nodes, renamed_ref};
use crate::capture_laws::{
    follows, lemma_flat_append, lemma_ids_of, lemma_named_more, lemma_properties_follow, named, node_follows,
};
use crate::evaluation::sound;
use crate::hierarchy::{flat, flat_ids, flat_list, ids, lemma_position, position, FlatView};
use crate::project_references::{
    addition_blockers, change_blockers, dangles, first_dangling, first_dangling_node, first_duplicate, list_blockers, node_blockers, own_blockers,
    property_blockers, update_blockers, with_addition_paths, with_child_paths, with_paths, Paths,
};
use crate::snapshot::{AdditionView, ChangesView, NodeView, UpdateView};
use crate::stable_identities::{
    flat_fault, lemma_flat_list_len, lemma_sizes, paired, properties_fault, renumbered, renumbered_list, size, sizes,
    stabilized,
};
use crate::text_map::{lemma_ordered_keys, ordered_keys};
use crate::variant::VariantView;
use crate::{Ref, NO_REF};
use vstd::prelude::*;

verus! {

/// The properties of every instance can be looked through.
pub open spec fn all_finite(node: NodeView) -> bool {
    forall|k: int| 0 <= k < flat(node, None).len() ==> (#[trigger] flat(node, None)[k]).node.properties.dom().finite()
}

// ---------------------------------------------------------------------------
// Places that are composed

proof fn lemma_duplicates(list: Seq<FlatView>, from: int)
    requires
        0 <= from <= list.len(),
    ensures
        first_duplicate(list, from) is None <==> forall|i: int, j: int|
            0 <= i < j < list.len() && from <= j ==> (#[trigger] list[i]).node.id != (#[trigger] list[j]).node.id,
    decreases list.len() - from,
{
    if from < list.len() {
        lemma_duplicates(list, from + 1);
        let id = list[from].node.id;
        lemma_position(list.take(from), id);
        match position(list.take(from), id) {
            Some(earlier) => {
                assert(list.take(from)[earlier] == list[earlier]);
                assert(list[earlier].node.id == list[from].node.id);
            },
            None => {
                assert forall|i: int| 0 <= i < from implies (#[trigger] list[i]).node.id != id by {
                    assert(list.take(from)[i] == list[i]);
                }
                if first_duplicate(list, from) is None {
                    assert forall|i: int, j: int| 0 <= i < j < list.len() && from <= j implies (#[trigger] list[i]).node.id
                        != (#[trigger] list[j]).node.id by {
                        if j == from {
                            assert(list[i].node.id != id);
                        }
                    }
                }
            },
        }
    }
}

proof fn lemma_dangling(known: Set<Ref>, properties: Map<Seq<char>, VariantView>, names: Seq<Seq<char>>, from: int)
    requires
        0 <= from <= names.len(),
    ensures
        first_dangling(known, properties, names, from) is None <==> forall|k: int|
            from <= k < names.len() ==> !dangles(known, properties[#[trigger] names[k]]),
    decreases names.len() - from,
{
    if from < names.len() {
        lemma_dangling(known, properties, names, from + 1);
        if dangles(known, properties[names[from]]) {
            assert(!(!dangles(known, properties[names[from]])));
        }
    }
}

/// A reference leads to no instance of a set, though it leads somewhere.
pub open spec fn leads_out(known: Set<Ref>, value: VariantView) -> bool {
    value matches VariantView::Ref(target) && target != NO_REF && !known.contains(target)
}

proof fn lemma_dangling_node(known: Set<Ref>, list: Seq<FlatView>, from: int)
    requires
        0 <= from <= list.len(),
        forall|k: int| 0 <= k < list.len() ==> (#[trigger] list[k]).node.properties.dom().finite(),
    ensures
        first_dangling_node(known, list, from) is None <==> forall|k: int, name: Seq<char>|
            from <= k < list.len() && (#[trigger] list[k]).node.properties.dom().contains(name) ==> !leads_out(
                known,
                #[trigger] list[k].node.properties[name],
            ),
    decreases list.len() - from,
{
    if from < list.len() {
        lemma_dangling_node(known, list, from + 1);
        let properties = list[from].node.properties;
        let names = ordered_keys(properties.dom());
        lemma_ordered_keys(properties.dom());
        lemma_dangling(known, properties, names, 0);
        if first_dangling(known, properties, names, 0) is None {
            assert forall|name: Seq<char>| properties.dom().contains(name) implies !leads_out(
                known,
                #[trigger] properties[name],
            ) by {
                assert(names.to_set().contains(name));
                let k = names.index_of(name);
                assert(!dangles(known, properties[names[k]]));
            }
            if first_dangling_node(known, list, from) is None {
                assert forall|k: int, name: Seq<char>|
                    from <= k < list.len() && (#[trigger] list[k]).node.properties.dom().contains(name) implies !leads_out(
                    known,
                    #[trigger] list[k].node.properties[name],
                ) by {
                    if k == from {
                        assert(!leads_out(known, properties[name]));
                    }
                }
            }
        } else {
            let k = choose|k: int| 0 <= k < names.len() && dangles(known, properties[#[trigger] names[k]]);
            assert(names.contains(names[k]));
            assert(names.to_set().contains(names[k]));
            assert(leads_out(known, list[from].node.properties[names[k]]));
        }
    }
}

/// A place is composed only where no two instances have one identity and every reference
/// leads to an instance of the place or nowhere, and it is then composed.
pub proof fn law_composed_places_are_whole(node: NodeView)
    requires
        all_finite(node),
    ensures
        sound(node) <==> flat_ids(flat(node, None)).no_duplicates() && forall|k: int, name: Seq<char>|
            0 <= k < flat(node, None).len() && (#[trigger] flat(node, None)[k]).node.properties.dom().contains(name)
                ==> !leads_out(ids(node), #[trigger] flat(node, None)[k].node.properties[name]),
{
    let list = flat(node, None);
    let all = flat_ids(list);
    lemma_duplicates(list, 0);
    lemma_dangling_node(ids(node), list, 0);
    if first_duplicate(list, 0) is None {
        assert forall|i: int, j: int| 0 <= i < all.len() && 0 <= j < all.len() && i != j implies all[i] != all[j] by {
            if i < j {
                assert(list[i].node.id != list[j].node.id);
            } else {
                assert(list[j].node.id != list[i].node.id);
            }
        }
    }
    if all.no_duplicates() {
        assert forall|i: int, j: int| 0 <= i < j < list.len() && 0 <= j implies (#[trigger] list[i]).node.id != (
        #[trigger] list[j]).node.id by {
            assert(all[i] != all[j]);
        }
    }
}

// ---------------------------------------------------------------------------
// References between what is on disk and what is not

/// A value of a mapped instance that refers to an instance of the place which is not mapped.
pub open spec fn crosses(known: Set<Ref>, mapped: Set<Ref>, owner: Ref, value: VariantView) -> bool {
    let target = match value {
        VariantView::Ref(target) => target,
        VariantView::Object(target) => target,
        _ => NO_REF,
    };
    target != NO_REF && mapped.contains(owner) && known.contains(owner) && known.contains(target) && !mapped.contains(
        target,
    )
}

proof fn lemma_property_blockers(
    paths: Paths,
    mapped: Set<Ref>,
    owner: Ref,
    properties: Map<Seq<char>, VariantView>,
    names: Seq<Seq<char>>,
)
    ensures
        property_blockers(paths, mapped, owner, properties, names).len() == 0 <==> forall|k: int|
            0 <= k < names.len() ==> !crosses(paths.dom(), mapped, owner, properties[#[trigger] names[k]]),
    decreases names.len(),
{
    if names.len() > 0 {
        let rest = names.drop_last();
        lemma_property_blockers(paths, mapped, owner, properties, rest);
        assert(forall|k: int| 0 <= k < rest.len() ==> #[trigger] rest[k] == names[k]);
        assert(names[names.len() - 1] == names.last());
        if property_blockers(paths, mapped, owner, properties, rest).len() != 0 {
            let k = choose|k: int|
                0 <= k < rest.len() && crosses(paths.dom(), mapped, owner, properties[#[trigger] rest[k]]);
            assert(crosses(paths.dom(), mapped, owner, properties[names[k]]));
        } else {
            assert forall|k: int| 0 <= k < rest.len() implies !crosses(
                paths.dom(),
                mapped,
                owner,
                properties[#[trigger] names[k]],
            ) by {
                assert(!crosses(paths.dom(), mapped, owner, properties[rest[k]]));
            }
        }
    }
}

/// No value of an instance crosses.
pub open spec fn keeps_to_itself(known: Set<Ref>, mapped: Set<Ref>, node: NodeView) -> bool {
    forall|name: Seq<char>| #[trigger]
        node.properties.dom().contains(name) ==> !crosses(known, mapped, node.id, node.properties[name])
}

proof fn lemma_own_blockers(paths: Paths, mapped: Set<Ref>, node: NodeView)
    requires
        node.properties.dom().finite(),
    ensures
        own_blockers(paths, mapped, node.id, node.properties).len() == 0 <==> keeps_to_itself(
            paths.dom(),
            mapped,
            node,
        ),
{
    let names = ordered_keys(node.properties.dom());
    lemma_ordered_keys(node.properties.dom());
    lemma_property_blockers(paths, mapped, node.id, node.properties, names);
    if own_blockers(paths, mapped, node.id, node.properties).len() == 0 {
        assert forall|name: Seq<char>| #[trigger] node.properties.dom().contains(name) implies !crosses(
            paths.dom(),
            mapped,
            node.id,
            node.properties[name],
        ) by {
            assert(names.to_set().contains(name));
            let k = names.index_of(name);
            assert(!crosses(paths.dom(), mapped, node.id, node.properties[names[k]]));
        }
    } else {
        let k = choose|k: int|
            0 <= k < names.len() && crosses(paths.dom(), mapped, node.id, node.properties[#[trigger] names[k]]);
        assert(names.contains(names[k]));
        assert(names.to_set().contains(names[k]));
        assert(node.properties.dom().contains(names[k]));
    }
}

proof fn lemma_node_blockers(paths: Paths, mapped: Set<Ref>, node: NodeView, parent: Option<Ref>)
    requires
        forall|k: int| 0 <= k < flat(node, parent).len() ==> (#[trigger] flat(node, parent)[k]).node.properties.dom().finite(),
    ensures
        node_blockers(paths, mapped, node).len() == 0 <==> forall|k: int|
            0 <= k < flat(node, parent).len() ==> keeps_to_itself(
                paths.dom(),
                mapped,
                (#[trigger] flat(node, parent)[k]).node,
            ),
    decreases node, 1nat,
{
    let all = flat(node, parent);
    let below = flat_list(node.children, Some(node.id));
    assert(all == seq![FlatView { parent, node }] + below);
    assert(all[0].node == node);
    assert(forall|k: int| 0 <= k < below.len() ==> #[trigger] below[k] == all[k + 1]);
    lemma_own_blockers(paths, mapped, node);
    lemma_list_blockers(paths, mapped, node.children, Some(node.id));
    if node_blockers(paths, mapped, node).len() == 0 {
        assert forall|k: int| 0 <= k < all.len() implies keeps_to_itself(paths.dom(), mapped, (#[trigger] all[k]).node) by {
            if k > 0 {
                assert(keeps_to_itself(paths.dom(), mapped, below[k - 1].node));
            }
        }
    } else if own_blockers(paths, mapped, node.id, node.properties).len() == 0 {
        let k = choose|k: int| 0 <= k < below.len() && !keeps_to_itself(paths.dom(), mapped, (#[trigger] below[k]).node);
        assert(!keeps_to_itself(paths.dom(), mapped, all[k + 1].node));
    } else {
        assert(!keeps_to_itself(paths.dom(), mapped, all[0].node));
    }
}

proof fn lemma_list_blockers(paths: Paths, mapped: Set<Ref>, list: Seq<NodeView>, parent: Option<Ref>)
    requires
        forall|k: int|
            0 <= k < flat_list(list, parent).len() ==> (#[trigger] flat_list(list, parent)[k]).node.properties.dom().finite(),
    ensures
        list_blockers(paths, mapped, list).len() == 0 <==> forall|k: int|
            0 <= k < flat_list(list, parent).len() ==> keeps_to_itself(
                paths.dom(),
                mapped,
                (#[trigger] flat_list(list, parent)[k]).node,
            ),
    decreases list, 0nat,
{
    if list.len() > 0 {
        let all = flat_list(list, parent);
        let before = flat_list(list.drop_last(), parent);
        let last = flat(list.last(), parent);
        assert(all == before + last);
        assert(forall|k: int| 0 <= k < before.len() ==> #[trigger] before[k] == all[k]);
        assert(forall|k: int| 0 <= k < last.len() ==> #[trigger] last[k] == all[before.len() + k]);
        lemma_list_blockers(paths, mapped, list.drop_last(), parent);
        lemma_node_blockers(paths, mapped, list.last(), parent);
        if list_blockers(paths, mapped, list).len() == 0 {
            assert forall|k: int| 0 <= k < all.len() implies keeps_to_itself(
                paths.dom(),
                mapped,
                (#[trigger] all[k]).node,
            ) by {
                if k < before.len() {
                    assert(keeps_to_itself(paths.dom(), mapped, before[k].node));
                } else {
                    assert(keeps_to_itself(paths.dom(), mapped, last[k - before.len()].node));
                }
            }
        } else if list_blockers(paths, mapped, list.drop_last()).len() != 0 {
            let k = choose|k: int| 0 <= k < before.len() && !keeps_to_itself(paths.dom(), mapped, (#[trigger] before[k]).node);
            assert(!keeps_to_itself(paths.dom(), mapped, all[k].node));
        } else {
            let k = choose|k: int| 0 <= k < last.len() && !keeps_to_itself(paths.dom(), mapped, (#[trigger] last[k]).node);
            assert(!keeps_to_itself(paths.dom(), mapped, all[before.len() + k].node));
        }
    }
}

proof fn lemma_paths_dom(paths: Paths, node: NodeView, path: Seq<char>)
    ensures
        with_paths(paths, node, path).dom() =~= paths.dom().union(ids(node)),
    decreases node, 1nat,
{
    lemma_ids_of(node);
    lemma_child_paths_dom(paths.insert(node.id, path), node.children, path);
}

proof fn lemma_child_paths_dom(paths: Paths, list: Seq<NodeView>, path: Seq<char>)
    ensures
        with_child_paths(paths, list, path).dom() =~= paths.dom().union(named(list)),
    decreases list, 0nat,
{
    if list.len() > 0 {
        lemma_named_more(list);
        lemma_child_paths_dom(paths, list.drop_last(), path);
        lemma_paths_dom(
            with_child_paths(paths, list.drop_last(), path),
            list.last(),
            crate::project_references::child_path(path, list.last().name),
        );
    } else {
        assert(named(list) =~= Set::empty());
    }
}

/// What is on disk refers to nothing that is not: a place is let through exactly where no
/// mapped instance refers to an instance of the place that is not mapped. The other way
/// round references are free.
pub proof fn law_source_refers_to_source_only(node: NodeView, mapped: Set<Ref>)
    requires
        all_finite(node),
    ensures
        node_blockers(with_paths(Map::empty(), node, "game"@), mapped, node).len() == 0 <==> forall|
            k: int,
            name: Seq<char>,
        |
            0 <= k < flat(node, None).len() && (#[trigger] flat(node, None)[k]).node.properties.dom().contains(name)
                ==> !crosses(
                ids(node),
                mapped,
                flat(node, None)[k].node.id,
                #[trigger] flat(node, None)[k].node.properties[name],
            ),
{
    let paths = with_paths(Map::empty(), node, "game"@);
    let list = flat(node, None);
    lemma_paths_dom(Map::empty(), node, "game"@);
    assert(paths.dom() =~= ids(node));
    lemma_node_blockers(paths, mapped, node, None);
    if node_blockers(paths, mapped, node).len() == 0 {
        assert forall|k: int, name: Seq<char>|
            0 <= k < list.len() && (#[trigger] list[k]).node.properties.dom().contains(name) implies !crosses(
            ids(node),
            mapped,
            list[k].node.id,
            #[trigger] list[k].node.properties[name],
        ) by {
            assert(keeps_to_itself(ids(node), mapped, list[k].node));
        }
    } else {
        let k = choose|k: int| 0 <= k < list.len() && !keeps_to_itself(ids(node), mapped, (#[trigger] list[k]).node);
        let name = choose|name: Seq<char>| #[trigger]
            list[k].node.properties.dom().contains(name) && crosses(
                ids(node),
                mapped,
                list[k].node.id,
                list[k].node.properties[name],
            );
        assert(crosses(ids(node), mapped, list[k].node.id, list[k].node.properties[name]));
    }
}

proof fn lemma_addition_paths(paths: Paths, list: Seq<AdditionView>)
    ensures
        with_addition_paths(paths, list).dom() =~= paths.dom().union(named(added_nodes(list))),
    decreases list.len(),
{
    let nodes = added_nodes(list);
    if list.len() > 0 {
        let fewer = list.drop_last();
        lemma_addition_paths(paths, fewer);
        assert(added_nodes(fewer) =~= nodes.drop_last());
        assert(nodes.last() == list.last().node);
        lemma_named_more(nodes);
        let before = with_addition_paths(paths, fewer);
        lemma_paths_dom(
            before,
            list.last().node,
            crate::project_references::child_path(
                crate::project_references::parent_path(before, list.last().parent),
                list.last().node.name,
            ),
        );
    } else {
        assert(nodes =~= Seq::empty());
        assert(flat_list(nodes, None) =~= Seq::empty());
        assert(named(nodes) =~= Set::empty());
    }
}

proof fn lemma_addition_blockers(paths: Paths, mapped: Set<Ref>, list: Seq<AdditionView>)
    ensures
        addition_blockers(paths, mapped, list).len() == 0 <==> forall|k: int|
            0 <= k < list.len() ==> node_blockers(paths, mapped, (#[trigger] list[k]).node).len() == 0,
    decreases list.len(),
{
    if list.len() > 0 {
        let fewer = list.drop_last();
        lemma_addition_blockers(paths, mapped, fewer);
        assert(forall|k: int| 0 <= k < fewer.len() ==> #[trigger] list[k] == fewer[k]);
        assert(list[list.len() - 1] == list.last());
        if addition_blockers(paths, mapped, fewer).len() != 0 {
            let k = choose|k: int|
                0 <= k < fewer.len() && node_blockers(paths, mapped, (#[trigger] fewer[k]).node).len() != 0;
            assert(list[k] == fewer[k]);
        }
    }
}

/// An update sets no reference from what is mapped to what is not.
pub open spec fn sets_no_crossing(known: Set<Ref>, mapped: Set<Ref>, update: UpdateView) -> bool {
    update.properties matches Some(values) ==> forall|name: Seq<char>| #[trigger]
        values.dom().contains(name) ==> !crosses(known, mapped, update.id, values[name])
}

proof fn lemma_update_blockers(paths: Paths, mapped: Set<Ref>, list: Seq<UpdateView>)
    requires
        forall|k: int|
            0 <= k < list.len() ==> ((#[trigger] list[k]).properties matches Some(values) ==> values.dom().finite()),
    ensures
        update_blockers(paths, mapped, list).len() == 0 <==> forall|k: int|
            0 <= k < list.len() ==> sets_no_crossing(paths.dom(), mapped, #[trigger] list[k]),
    decreases list.len(),
{
    if list.len() > 0 {
        let fewer = list.drop_last();
        assert(forall|k: int| 0 <= k < fewer.len() ==> #[trigger] list[k] == fewer[k]);
        assert(forall|k: int| 0 <= k < fewer.len() ==> #[trigger] fewer[k] == list[k]);
        lemma_update_blockers(paths, mapped, fewer);
        let last = list[list.len() - 1];
        assert(last == list.last());
        if let Some(values) = last.properties {
            let node = NodeView {
                id: last.id,
                name: Seq::empty(),
                raw_name: None,
                class: Seq::empty(),
                properties: values,
                children: Seq::empty(),
            };
            lemma_own_blockers(paths, mapped, node);
            assert(keeps_to_itself(paths.dom(), mapped, node) <==> sets_no_crossing(paths.dom(), mapped, last));
        }
        if update_blockers(paths, mapped, fewer).len() != 0 {
            let k = choose|k: int|
                0 <= k < fewer.len() && !sets_no_crossing(paths.dom(), mapped, #[trigger] fewer[k]);
            assert(list[k] == fewer[k]);
        }
    }
}

/// Changes are let through exactly where neither an addition nor an update makes something
/// mapped refer to an instance that is not, be it there or added.
pub proof fn law_captured_source_refers_to_source_only(canonical: NodeView, changes: ChangesView, mapped: Set<Ref>)
    requires
        forall|k: int| 0 <= k < changes.additions.len() ==> all_finite((#[trigger] changes.additions[k]).node),
        forall|k: int|
            0 <= k < changes.updates.len() ==> ((#[trigger] changes.updates[k]).properties matches Some(values)
                ==> values.dom().finite()),
    ensures
        ({
            let known = ids(canonical).union(added_ids(changes.additions).to_set());
            change_blockers(canonical, changes, mapped).len() == 0 <==> (forall|k: int, at: int|
                0 <= k < changes.additions.len() && 0 <= at < flat(changes.additions[k].node, None).len()
                    ==> keeps_to_itself(
                    known,
                    mapped,
                    (#[trigger] flat(changes.additions[k].node, None)[at]).node,
                )) && (forall|k: int|
                0 <= k < changes.updates.len() ==> sets_no_crossing(known, mapped, #[trigger] changes.updates[k]))
        }),
{
    let start = with_paths(Map::empty(), canonical, "game"@);
    let paths = with_addition_paths(start, changes.additions);
    let known = ids(canonical).union(added_ids(changes.additions).to_set());
    lemma_paths_dom(Map::empty(), canonical, "game"@);
    lemma_addition_paths(start, changes.additions);
    assert(paths.dom() =~= known);
    lemma_addition_blockers(paths, mapped, changes.additions);
    lemma_update_blockers(paths, mapped, changes.updates);
    assert forall|k: int| 0 <= k < changes.additions.len() implies (node_blockers(
        paths,
        mapped,
        (#[trigger] changes.additions[k]).node,
    ).len() == 0 <==> forall|at: int|
        0 <= at < flat(changes.additions[k].node, None).len() ==> keeps_to_itself(
            known,
            mapped,
            (#[trigger] flat(changes.additions[k].node, None)[at]).node,
        )) by {
        lemma_node_blockers(paths, mapped, changes.additions[k].node, None);
    }
    if change_blockers(canonical, changes, mapped).len() == 0 {
        assert(addition_blockers(paths, mapped, changes.additions).len() == 0);
        assert forall|k: int, at: int|
            0 <= k < changes.additions.len() && 0 <= at < flat(changes.additions[k].node, None).len() implies keeps_to_itself(
            known,
            mapped,
            (#[trigger] flat(changes.additions[k].node, None)[at]).node,
        ) by {
            assert(node_blockers(paths, mapped, changes.additions[k].node).len() == 0);
        }
    }
}

// ---------------------------------------------------------------------------
// Fresh identities

proof fn lemma_paired(from: Seq<Ref>, fresh: Seq<Ref>, count: nat)
    requires
        count <= from.len(),
        from.len() == fresh.len(),
        from.no_duplicates(),
        !from.contains(NO_REF),
    ensures
        paired(from, fresh, count).dom() =~= from.take(count as int).to_set(),
        forall|k: int| 0 <= k < count ==> paired(from, fresh, count)[#[trigger] from[k]] == fresh[k],
    decreases count,
{
    if count > 0 {
        lemma_paired(from, fresh, (count - 1) as nat);
        assert(from.contains(from[count - 1]));
        crate::hierarchy::lemma_taken_set(from, count - 1);
        assert forall|k: int| 0 <= k < count implies paired(from, fresh, count)[#[trigger] from[k]] == fresh[k] by {
            if k < count - 1 {
                assert(from[k] != from[count - 1]);
            }
        }
    } else {
        assert(from.take(0) =~= Seq::empty());
    }
}

proof fn lemma_renumbered(node: NodeView, parent: Option<Ref>, from: Seq<Ref>, fresh: Seq<Ref>, at: nat, map: Map<Ref, Ref>)
    requires
        from.len() == fresh.len(),
        from.no_duplicates(),
        map.dom() == from.to_set(),
        forall|k: int| 0 <= k < from.len() ==> map[#[trigger] from[k]] == fresh[k],
        at + size(node) <= from.len(),
        flat_ids(flat(node, parent)) == from.subrange(at as int, (at + size(node)) as int),
    ensures
        node_follows(from, fresh, node, renumbered(node, fresh, at, map)),
    decreases node, 1nat,
{
    let after = renumbered(node, fresh, at, map);
    let own = flat_ids(flat(node, parent));
    let below = flat_ids(flat_list(node.children, Some(node.id)));
    lemma_flat_append(seq![FlatView { parent, node }], flat_list(node.children, Some(node.id)));
    assert(own[0] == node.id);
    assert(from[at as int] == node.id);
    assert(follows(from, fresh, node.id, after.id));
    lemma_properties_follow(from, map, node.properties);
    assert(from.map_values(|id: Ref| renamed_ref(id, map)) =~= fresh) by {
        assert forall|k: int| 0 <= k < from.len() implies renamed_ref(from[k], map) == fresh[k] by {
            assert(from.to_set().contains(from[k]));
        }
    }
    lemma_sizes(node);
    lemma_flat_list_len(node.children, Some(node.id), None);
    assert(below =~= from.subrange(at as int + 1, (at + 1 + sizes(node.children)) as int)) by {
        assert(own.len() == 1 + below.len());
        assert forall|k: int| 0 <= k < below.len() implies below[k] == from[at as int + 1 + k] by {
            assert(own[k + 1] == below[k]);
        }
    }
    lemma_renumbered_list(node.children, Some(node.id), from, fresh, at + 1, map);
    assert(after.children == renumbered_list(node.children, fresh, at + 1, map));
}

proof fn lemma_renumbered_list(
    list: Seq<NodeView>,
    parent: Option<Ref>,
    from: Seq<Ref>,
    fresh: Seq<Ref>,
    at: nat,
    map: Map<Ref, Ref>,
)
    requires
        from.len() == fresh.len(),
        from.no_duplicates(),
        map.dom() == from.to_set(),
        forall|k: int| 0 <= k < from.len() ==> map[#[trigger] from[k]] == fresh[k],
        at + sizes(list) <= from.len(),
        flat_ids(flat_list(list, parent)) == from.subrange(at as int, (at + sizes(list)) as int),
    ensures
        renumbered_list(list, fresh, at, map).len() == list.len(),
        forall|k: int|
            #![trigger list[k]]
            #![trigger renumbered_list(list, fresh, at, map)[k]]
            0 <= k < list.len() ==> node_follows(from, fresh, list[k], renumbered_list(list, fresh, at, map)[k]),
    decreases list, 0nat,
{
    if list.len() > 0 {
        let rest = list.drop_last();
        let all = flat_ids(flat_list(list, parent));
        let before = flat_ids(flat_list(rest, parent));
        let last = flat_ids(flat(list.last(), parent));
        lemma_flat_append(flat_list(rest, parent), flat(list.last(), parent));
        assert(all == before + last);
        lemma_flat_list_len(rest, parent, None);
        lemma_flat_list_len(list, parent, None);
        assert(before.len() == sizes(rest));
        assert(flat(list.last(), parent).len() == size(list.last()));
        assert(sizes(list) == sizes(rest) + size(list.last()));
        assert(before =~= from.subrange(at as int, (at + sizes(rest)) as int)) by {
            assert forall|k: int| 0 <= k < before.len() implies before[k] == from[at as int + k] by {
                assert(all[k] == before[k]);
            }
        }
        let next = at + sizes(rest);
        assert(last =~= from.subrange(next as int, (next + size(list.last())) as int)) by {
            assert forall|k: int| 0 <= k < last.len() implies last[k] == from[next as int + k] by {
                assert(all[before.len() + k] == last[k]);
            }
        }
        lemma_renumbered_list(rest, parent, from, fresh, at, map);
        lemma_renumbered(list.last(), parent, from, fresh, next, map);
        let after = renumbered_list(list, fresh, at, map);
        assert forall|k: int|
            #![trigger list[k]]
            #![trigger after[k]]
            0 <= k < list.len() implies node_follows(from, fresh, list[k], after[k]) by {
            if k < rest.len() {
                assert(rest[k] == list[k]);
                assert(after[k] == renumbered_list(rest, fresh, at, map)[k]);
            }
        }
    }
}

/// A place that gets fresh identities is what it was, with each instance under the identity
/// that stands at its place in the list: every reference leads to the instance that it led
/// to. A place in which a reference leads to none of its instances gets none.
pub proof fn law_renewed_places_are_what_they_were(node: NodeView, fresh: Seq<Ref>)
    requires
        fresh.len() == size(node),
        flat_ids(flat(node, None)).no_duplicates(),
        !flat_ids(flat(node, None)).contains(NO_REF),
        all_finite(node),
    ensures
        stabilized(node, fresh) matches Ok(after) ==> node_follows(flat_ids(flat(node, None)), fresh, node, after),
        stabilized(node, fresh) is Ok <==> forall|k: int, name: Seq<char>|
            0 <= k < flat(node, None).len() && (#[trigger] flat(node, None)[k]).node.properties.dom().contains(name)
                ==> !misses(ids(node), #[trigger] flat(node, None)[k].node.properties[name]),
{
    let from = flat_ids(flat(node, None));
    let list = flat(node, None);
    let map = paired(from, fresh, size(node));
    lemma_paired(from, fresh, size(node));
    assert(from.take(from.len() as int) =~= from);
    assert(map.dom() == from.to_set());
    assert(from.subrange(0, from.len() as int) =~= from);
    lemma_renumbered(node, None, from, fresh, 0, map);
    lemma_flat_fault(list, map);
    assert(map.dom() == ids(node));
}

/// A value that refers to an instance which is not among those known.
pub open spec fn misses(known: Set<Ref>, value: VariantView) -> bool {
    match value {
        VariantView::Ref(target) => target != NO_REF && !known.contains(target),
        VariantView::Object(target) => target != NO_REF && !known.contains(target),
        _ => false,
    }
}

proof fn lemma_properties_fault(values: Map<Seq<char>, VariantView>, names: Seq<Seq<char>>, map: Map<Ref, Ref>)
    ensures
        properties_fault(values, names, map) is None <==> forall|k: int|
            0 <= k < names.len() ==> !misses(map.dom(), values[#[trigger] names[k]]),
    decreases names.len(),
{
    if names.len() > 0 {
        let rest = names.drop_last();
        lemma_properties_fault(values, rest, map);
        assert(forall|k: int| 0 <= k < rest.len() ==> #[trigger] rest[k] == names[k]);
        assert(names[names.len() - 1] == names.last());
        if properties_fault(values, rest, map) is Some {
            let k = choose|k: int| 0 <= k < rest.len() && misses(map.dom(), values[#[trigger] rest[k]]);
            assert(misses(map.dom(), values[names[k]]));
        } else {
            assert forall|k: int| 0 <= k < rest.len() implies !misses(map.dom(), values[#[trigger] names[k]]) by {
                assert(!misses(map.dom(), values[rest[k]]));
            }
        }
    }
}

proof fn lemma_flat_fault(list: Seq<FlatView>, map: Map<Ref, Ref>)
    requires
        forall|k: int| 0 <= k < list.len() ==> (#[trigger] list[k]).node.properties.dom().finite(),
    ensures
        flat_fault(list, map) is None <==> forall|k: int, name: Seq<char>|
            0 <= k < list.len() && (#[trigger] list[k]).node.properties.dom().contains(name) ==> !misses(
                map.dom(),
                #[trigger] list[k].node.properties[name],
            ),
    decreases list.len(),
{
    if list.len() > 0 {
        let rest = list.drop_last();
        let end = list.len() - 1;
        assert(forall|k: int| 0 <= k < rest.len() ==> #[trigger] rest[k] == list[k]);
        lemma_flat_fault(rest, map);
        let values = list[end].node.properties;
        let names = ordered_keys(values.dom());
        lemma_ordered_keys(values.dom());
        lemma_properties_fault(values, names, map);
        if flat_fault(rest, map) is Some {
            let (k, name) = choose|k: int, name: Seq<char>|
                0 <= k < rest.len() && (#[trigger] rest[k]).node.properties.dom().contains(name) && misses(
                    map.dom(),
                    #[trigger] rest[k].node.properties[name],
                );
            assert(misses(map.dom(), list[k].node.properties[name]));
        } else if properties_fault(values, names, map) is Some {
            let k = choose|k: int| 0 <= k < names.len() && misses(map.dom(), values[#[trigger] names[k]]);
            assert(names.contains(names[k]));
            assert(names.to_set().contains(names[k]));
            assert(misses(map.dom(), list[end].node.properties[names[k]]));
        } else {
            assert forall|k: int, name: Seq<char>|
                0 <= k < list.len() && (#[trigger] list[k]).node.properties.dom().contains(name) implies !misses(
                map.dom(),
                #[trigger] list[k].node.properties[name],
            ) by {
                if k < end {
                    assert(!misses(map.dom(), rest[k].node.properties[name]));
                } else {
                    assert(names.to_set().contains(name));
                    let at = names.index_of(name);
                    assert(!misses(map.dom(), values[names[at]]));
                }
            }
        }
    }
}

} // verus!
