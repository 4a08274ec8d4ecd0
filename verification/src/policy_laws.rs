//! What the policy of a session and the tree behind it are for: Studio changes what it owns,
//! nothing else, and an update changes what it says, nothing else.

use crate::difference_laws::{holds_same, lemma_means};
use crate::hierarchy::{lemma_position, position, FlatView};
use crate::live_policy::{
    addition_echo, addition_kept, addition_reasons, kept_changes, law_accepted_changes_spare_the_file_system,
    mapped_equal, refusals, removal_reasons, update_echo, update_kept, update_reasons, PolicyView,
};
use crate::place::property_of;
use crate::project_diff::{means_same, SameFrames};
use crate::reflection::Reflection;
use crate::snapshot::{AdditionView, ChangesView, UpdateView};
use crate::tree::{lemma_sorted_refs, moved, sorted_refs, update_fault, updated, TreeNodeView, TreeView};
use crate::variant::VariantView;
use crate::Ref;
use vstd::prelude::*;

verus! {

// ---------------------------------------------------------------------------
// What is kept and what is refused

/// Changes touch nothing that is mapped, was mapped or leads to a mapping.
pub open spec fn is_studios(policy: PolicyView, changes: ChangesView) -> bool {
    &&& forall|k: int|
        0 <= k < changes.additions.len() ==> {
            let addition = #[trigger] changes.additions[k];
            !policy.mapped.contains(addition.parent) && !policy.retired.contains(addition.parent)
                && !policy.retired.contains(addition.node.id)
        }
    &&& forall|k: int|
        0 <= k < changes.updates.len() ==> {
            let update = #[trigger] changes.updates[k];
            &&& !policy.mapped.contains(update.id) && !policy.routing.contains(update.id) && !policy.retired.contains(
                update.id,
            )
            &&& update.parent matches Some(parent) ==> !policy.mapped.contains(parent)
        }
    &&& forall|k: int|
        0 <= k < changes.removals.len() ==> {
            let id = #[trigger] changes.removals[k];
            !policy.mapped.contains(id) && !policy.routing.contains(id) && !policy.retired.contains(id)
        }
}

proof fn lemma_filter_all<A>(list: Seq<A>, keep: spec_fn(A) -> bool)
    requires
        forall|k: int| 0 <= k < list.len() ==> keep(#[trigger] list[k]),
    ensures
        list.filter(keep) == list,
    decreases list.len(),
{
    reveal(Seq::filter);
    if list.len() > 0 {
        let rest = list.drop_last();
        assert(forall|k: int| 0 <= k < rest.len() ==> #[trigger] rest[k] == list[k]);
        lemma_filter_all(rest, keep);
        assert(keep(list[list.len() - 1]));
        assert(rest.push(list.last()) =~= list);
    }
}

proof fn lemma_filter_has<A>(list: Seq<A>, keep: spec_fn(A) -> bool, at: int)
    requires
        0 <= at < list.len(),
        keep(list[at]),
    ensures
        list.filter(keep).contains(list[at]),
    decreases list.len(),
{
    reveal(Seq::filter);
    let rest = list.drop_last();
    let all = list.filter(keep);
    if at == list.len() - 1 {
        assert(all[all.len() - 1] == list[at]);
    } else {
        assert(rest[at] == list[at]);
        lemma_filter_has(rest, keep, at);
        let before = rest.filter(keep);
        assert(all[before.index_of(list[at])] == list[at]);
    }
}

proof fn lemma_nothing_refused(policy: PolicyView, changes: ChangesView)
    requires
        is_studios(policy, changes),
    ensures
        addition_reasons(policy, changes.additions).len() == 0,
        update_reasons(policy, changes.updates).len() == 0,
        removal_reasons(policy, changes.removals).len() == 0,
    decreases changes.additions.len() + changes.updates.len() + changes.removals.len(),
{
    if changes.additions.len() > 0 {
        let fewer = ChangesView { additions: changes.additions.drop_last(), ..changes };
        assert(forall|k: int| 0 <= k < fewer.additions.len() ==> #[trigger] fewer.additions[k] == changes.additions[k]);
        lemma_nothing_refused(policy, fewer);
        assert(!policy.mapped.contains(changes.additions[changes.additions.len() - 1].parent));
    } else if changes.updates.len() > 0 {
        let fewer = ChangesView { updates: changes.updates.drop_last(), ..changes };
        assert(forall|k: int| 0 <= k < fewer.updates.len() ==> #[trigger] fewer.updates[k] == changes.updates[k]);
        lemma_nothing_refused(policy, fewer);
        assert(!policy.mapped.contains(changes.updates[changes.updates.len() - 1].id));
    } else if changes.removals.len() > 0 {
        let fewer = ChangesView { removals: changes.removals.drop_last(), ..changes };
        assert(forall|k: int| 0 <= k < fewer.removals.len() ==> #[trigger] fewer.removals[k] == changes.removals[k]);
        lemma_nothing_refused(policy, fewer);
        assert(!policy.mapped.contains(changes.removals[changes.removals.len() - 1]));
    }
}

/// Studio may change what it owns: changes that touch nothing which is mapped, was mapped or
/// leads to a mapping are kept as they are, and none of them is refused.
pub proof fn law_studio_changes_what_it_owns(policy: PolicyView, changes: ChangesView)
    requires
        is_studios(policy, changes),
    ensures
        kept_changes(policy, changes) == changes,
        refusals(policy, changes).len() == 0,
{
    lemma_filter_all(changes.additions, |addition: AdditionView| addition_kept(policy, addition));
    lemma_filter_all(changes.updates, |update: UpdateView| update_kept(policy, update));
    lemma_filter_all(changes.removals, |id: Ref| !policy.retired.contains(id));
    assert(kept_changes(policy, changes) =~= changes);
    lemma_nothing_refused(policy, changes);
}

/// An update says something that is not so: another name, class or parent, or a property that
/// holds something else.
pub open spec fn says_other(reflection: Reflection, found: FlatView, update: UpdateView, name: Seq<char>) -> bool {
    ||| update.parent is Some && update.parent != found.parent
    ||| update.name matches Some(text) && text != found.node.name
    ||| update.class matches Some(class) && class != found.node.class
    ||| update.properties matches Some(values) && values.dom().contains(name) && {
        let there = if found.node.properties.dom().contains(name) {
            Some(found.node.properties[name])
        } else {
            reflection.default_of(found.node.class, name)
        };
        there is None || !holds_same(name, true, there->0, values[name])
    }
    ||| update.removed_properties.contains(name) && found.node.properties.dom().contains(name)
        && reflection.default_of(found.node.class, name) is None
}

proof fn lemma_mapped(reflection: Reflection, class: Seq<char>, name: Seq<char>, left: Option<VariantView>, right: Option<VariantView>)
    requires
        mapped_equal(reflection, class, name, left, right),
    ensures
        ({
            let x = if left is Some { left } else { reflection.default_of(class, name) };
            let y = if right is Some { right } else { reflection.default_of(class, name) };
            &&& x is Some == y is Some
            &&& x is Some ==> holds_same(name, true, x->0, y->0)
        }),
{
    let frames = arbitrary::<SameFrames>();
    let x = if left is Some { left } else { reflection.default_of(class, name) };
    let y = if right is Some { right } else { reflection.default_of(class, name) };
    if crate::project_diff::frame_value(left) && crate::project_diff::frame_value(right) {
        if name == "Attributes"@ {
            assert(crate::attributes::attributes_alike(left->0, right->0));
        }
        assert(crate::variant::values_equal(left->0, right->0));
        assert(means_same(reflection, frames, 0, class, name, left, right));
    } else {
        assert(means_same(reflection, frames, 0, class, name, left, right));
    }
    lemma_means(reflection, frames, 0, class, name, left, right);
}

/// What is mapped is not Studio's to change: an update of a mapped instance that says
/// something which is not so is kept, and refused. Echoes of what was sent to Studio are
/// neither.
pub proof fn law_changes_of_mapped_instances_are_refused(policy: PolicyView, changes: ChangesView, k: int, at: int, name: Seq<char>)
    requires
        0 <= k < changes.updates.len(),
        policy.mapped.contains(changes.updates[k].id),
        !policy.retired.contains(changes.updates[k].id),
        0 <= at < policy.canonical.len(),
        policy.canonical[at].node.id == changes.updates[k].id,
        forall|later: int|
            at < later < policy.canonical.len() ==> (#[trigger] policy.canonical[later]).node.id != changes.updates[k].id,
        says_other(policy.reflection, policy.canonical[at], changes.updates[k], name),
    ensures
        refusals(policy, kept_changes(policy, changes)).len() > 0,
{
    let update = changes.updates[k];
    let found = policy.canonical[at];
    lemma_position(policy.canonical, update.id);
    assert(position(policy.canonical, update.id) == Some(at));
    if update_echo(policy.reflection, policy.canonical, update) {
        if let Some(values) = update.properties {
            if values.dom().contains(name) {
                assert(mapped_equal(
                    policy.reflection,
                    found.node.class,
                    name,
                    property_of(found.node.properties, name),
                    Some(values[name]),
                ));
                lemma_mapped(
                    policy.reflection,
                    found.node.class,
                    name,
                    property_of(found.node.properties, name),
                    Some(values[name]),
                );
            }
        }
        if update.removed_properties.contains(name) {
            let r = update.removed_properties.index_of(name);
            assert(mapped_equal(
                policy.reflection,
                found.node.class,
                update.removed_properties[r],
                property_of(found.node.properties, update.removed_properties[r]),
                None,
            ));
        }
        assert(false);
    }
    let keep = |update: UpdateView| update_kept(policy, update);
    assert(keep(update));
    lemma_filter_has(changes.updates, keep, k);
    let kept = kept_changes(policy, changes);
    if refusals(policy, kept).len() == 0 {
        law_accepted_changes_spare_the_file_system(policy, kept);
        let j = kept.updates.index_of(update);
        assert(!policy.mapped.contains(kept.updates[j].id));
    }
}

/// An addition says something that is not so of an instance that is there: another parent,
/// name or class, a property that holds something else, or more or fewer children.
pub open spec fn adds_other(reflection: Reflection, found: FlatView, addition: AdditionView, name: Seq<char>) -> bool {
    ||| found.parent != Some(addition.parent)
    ||| addition.node.name != found.node.name
    ||| addition.node.raw_name != found.node.raw_name
    ||| addition.node.class != found.node.class
    ||| addition.node.children.len() != found.node.children.len()
    ||| addition.node.properties.dom().contains(name) && {
        let there = if found.node.properties.dom().contains(name) {
            Some(found.node.properties[name])
        } else {
            reflection.default_of(found.node.class, name)
        };
        there is None || !holds_same(name, true, there->0, addition.node.properties[name])
    }
    ||| !addition.node.properties.dom().contains(name) && found.node.properties.dom().contains(name)
        && reflection.default_of(found.node.class, name) is None
}

/// An addition below a mapped instance that says something which is not so of an instance
/// that is there is kept, and refused.
pub proof fn law_additions_to_mappings_are_refused(
    policy: PolicyView,
    changes: ChangesView,
    k: int,
    at: int,
    name: Seq<char>,
)
    requires
        0 <= k < changes.additions.len(),
        policy.mapped.contains(changes.additions[k].parent),
        !policy.retired.contains(changes.additions[k].parent),
        !policy.retired.contains(changes.additions[k].node.id),
        0 <= at < policy.canonical.len(),
        policy.canonical[at].node.id == changes.additions[k].node.id,
        forall|later: int|
            at < later < policy.canonical.len() ==> (#[trigger] policy.canonical[later]).node.id
                != changes.additions[k].node.id,
        adds_other(policy.reflection, policy.canonical[at], changes.additions[k], name),
    ensures
        refusals(policy, kept_changes(policy, changes)).len() > 0,
{
    let addition = changes.additions[k];
    let found = policy.canonical[at];
    lemma_position(policy.canonical, addition.node.id);
    assert(position(policy.canonical, addition.node.id) == Some(at));
    if addition_echo(policy.reflection, policy.canonical, addition) {
        if addition.node.properties.dom().contains(name) || found.node.properties.dom().contains(name) {
            let left = property_of(found.node.properties, name);
            let right = property_of(addition.node.properties, name);
            assert(mapped_equal(policy.reflection, found.node.class, name, left, right));
            lemma_mapped(policy.reflection, found.node.class, name, left, right);
        }
        assert(false);
    }
    let keep = |addition: AdditionView| addition_kept(policy, addition);
    assert(keep(addition));
    lemma_filter_has(changes.additions, keep, k);
    let kept = kept_changes(policy, changes);
    if refusals(policy, kept).len() == 0 {
        law_accepted_changes_spare_the_file_system(policy, kept);
        let j = kept.additions.index_of(addition);
        assert(!policy.mapped.contains(kept.additions[j].parent));
    }
}

/// Nothing is added below a mapped instance and no mapped instance is removed: an addition
/// of an instance that is not there, and a removal, are kept and refused.
pub proof fn law_mappings_are_closed_to_studio(policy: PolicyView, changes: ChangesView, k: int)
    ensures
        0 <= k < changes.additions.len() && policy.mapped.contains(changes.additions[k].parent)
            && !policy.retired.contains(changes.additions[k].parent) && !policy.retired.contains(
            changes.additions[k].node.id,
        ) && (forall|at: int|
            0 <= at < policy.canonical.len() ==> (#[trigger] policy.canonical[at]).node.id
                != changes.additions[k].node.id) ==> refusals(policy, kept_changes(policy, changes)).len() > 0,
        0 <= k < changes.removals.len() && (policy.mapped.contains(changes.removals[k]) || policy.routing.contains(
            changes.removals[k],
        )) && !policy.retired.contains(changes.removals[k]) ==> refusals(policy, kept_changes(policy, changes)).len()
            > 0,
{
    let kept = kept_changes(policy, changes);
    if 0 <= k < changes.additions.len() && policy.mapped.contains(changes.additions[k].parent)
        && !policy.retired.contains(changes.additions[k].parent) && !policy.retired.contains(
        changes.additions[k].node.id,
    ) && (forall|at: int|
        0 <= at < policy.canonical.len() ==> (#[trigger] policy.canonical[at]).node.id != changes.additions[k].node.id) {
        let addition = changes.additions[k];
        lemma_position(policy.canonical, addition.node.id);
        let keep = |addition: AdditionView| addition_kept(policy, addition);
        assert(keep(addition));
        lemma_filter_has(changes.additions, keep, k);
        if refusals(policy, kept).len() == 0 {
            law_accepted_changes_spare_the_file_system(policy, kept);
            let j = kept.additions.index_of(addition);
            assert(!policy.mapped.contains(kept.additions[j].parent));
        }
    }
    if 0 <= k < changes.removals.len() && (policy.mapped.contains(changes.removals[k]) || policy.routing.contains(
        changes.removals[k],
    )) && !policy.retired.contains(changes.removals[k]) {
        let keep = |id: Ref| !policy.retired.contains(id);
        assert(keep(changes.removals[k]));
        lemma_filter_has(changes.removals, keep, k);
        if refusals(policy, kept).len() == 0 {
            law_accepted_changes_spare_the_file_system(policy, kept);
            let j = kept.removals.index_of(changes.removals[k]);
            assert(!policy.mapped.contains(kept.removals[j]));
        }
    }
}

// ---------------------------------------------------------------------------
// Updates

/// An update gives a property a value.
pub open spec fn sets(update: UpdateView, name: Seq<char>) -> bool {
    update.properties is Some && update.properties->0.dom().contains(name)
}

/// An update changes what it says and nothing else: the instance has the name, the class and
/// the values that the update sets, loses the properties that it removes, keeps the others,
/// and hangs below the parent that the update names. No other instance changes but for its
/// list of children, and there the updated instance comes and goes.
pub proof fn law_updates_change_what_they_say(view: TreeView, update: UpdateView, name: Seq<char>, other: Ref)
    requires
        view.wf(),
        update_fault(view, update) is None,
    ensures
        ({
            let after = updated(view, update);
            let before = view.nodes[update.id];
            let now = after.nodes[update.id];
            &&& after.root == view.root
            &&& after.has(other) <==> view.has(other)
            &&& now.name == (if update.name is Some { update.name->0 } else { before.name })
            &&& now.class == (if update.class is Some { update.class->0 } else { before.class })
            &&& now.parent == (if update.parent is Some { update.parent->0 } else { before.parent })
            &&& update.removed_properties.contains(name) ==> !now.properties.dom().contains(name)
            &&& !update.removed_properties.contains(name) ==> {
                &&& sets(update, name) ==> now.properties.dom().contains(name) && now.properties[name]
                    == update.properties->0[name]
                &&& !sets(update, name) && name
                    != "__CarbonRawName"@ ==> now.properties.dom().contains(name) == before.properties.dom().contains(name)
                    && (before.properties.dom().contains(name) ==> now.properties[name] == before.properties[name])
            }
            &&& view.has(other) && other != update.id ==> {
                &&& after.nodes[other].name == view.nodes[other].name
                &&& after.nodes[other].class == view.nodes[other].class
                &&& after.nodes[other].parent == view.nodes[other].parent
                &&& after.nodes[other].properties == view.nodes[other].properties
            }
            &&& update.parent matches Some(parent) ==> after.nodes[parent].children.contains(update.id)
            &&& update.parent is None ==> after.nodes[other].children == view.nodes[other].children
        }),
{
    let after = updated(view, update);
    let id = update.id;
    match update.parent {
        Some(parent) => {
            let old_parent = view.nodes[id].parent;
            assert(view.has(old_parent));
            let siblings = view.nodes[old_parent].children;
            let taken = view.nodes.insert(
                old_parent,
                TreeNodeView { children: siblings.remove(siblings.index_of(id)), ..view.nodes[old_parent] },
            );
            let list = taken[parent].children.push(id);
            lemma_sorted_refs(list);
            assert(list[list.len() - 1] == id);
            assert(list.contains(id));
            assert(sorted_refs(list).contains(id));
            let base = moved(view, id, parent);
            assert(base.nodes.dom() =~= view.nodes.dom());
            assert(parent != id) by {
                if parent == id {
                    assert(crate::tree::below(view, parent, id));
                }
            }
        },
        None => {},
    }
    let set = update.removed_properties.to_set();
    assert(set.contains(name) <==> update.removed_properties.contains(name));
}

} // verus!
