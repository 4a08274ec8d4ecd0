//! What a session manages: everything that it is to manage but what the engine makes itself.

use crate::managed_hierarchy::{
    cameras_after, chosen, chosen_list, chosen_preorder, contract_of, is_left_out, walk_list, walk_node, walked, WalkView,
};
use crate::tree::{
    are_children, below, headroom, lemma_below_child, lemma_below_transitive, lemma_headroom, lemma_own_children, TreeView,
};
use crate::variant::VariantView;
use crate::{Ref, NO_REF};
use vstd::prelude::*;

verus! {

/// An instance has that class and that name.
pub open spec fn is_called(view: TreeView, id: Ref, class: Seq<char>, name: Seq<char>) -> bool {
    view.has(id) && view.nodes[id].class == class && view.nodes[id].name == name
}

/// A child of an instance has that class and that name.
pub open spec fn holds_called(view: TreeView, id: Ref, class: Seq<char>, name: Seq<char>) -> bool {
    exists|at: int|
        0 <= at < view.nodes[id].children.len() && is_called(
            view,
            #[trigger] view.nodes[id].children[at],
            class,
            name,
        )
}

/// An instance is the handle of an accessory.
pub open spec fn handles_accessory(view: TreeView, id: Ref) -> bool {
    &&& is_called(view, id, "Part"@, "Handle"@)
    &&& view.has(view.nodes[id].parent) && view.nodes[view.nodes[id].parent].class == "Accessory"@
}

/// The engine makes an instance itself: the status of a humanoid, the configuration of the
/// server, the weld on a head of an accessory that has its own, and the weld of an accessory
/// that has a rigid constraint.
pub open spec fn engine_makes(view: TreeView, id: Ref) -> bool {
    let parent = view.nodes[id].parent;
    &&& view.has(id)
    &&& {
        ||| view.nodes[id].class == "Status"@ && view.has(parent) && view.nodes[parent].class == "Humanoid"@
        ||| view.nodes[id].class == "ConfigureServerService"@ && view.has(parent) && view.nodes[parent].class
            == "DataModel"@
        ||| is_called(view, id, "Weld"@, "HeadWeld"@) && is_called(view, parent, "Part"@, "Head"@)
            && view.nodes[id].properties.dom().contains("Part1"@) && (
        view.nodes[id].properties["Part1"@] matches VariantView::Ref(handle) && handles_accessory(view, handle)
            && holds_called(view, handle, "Weld"@, "AccessoryWeld"@))
        ||| is_called(view, id, "Weld"@, "AccessoryWeld"@) && handles_accessory(view, parent) && holds_called(
            view,
            parent,
            "RigidConstraint"@,
            "AccessoryRigidConstraint"@,
        )
    }
}

/// A workspace looks through the camera.
pub open spec fn looks_through(view: TreeView, workspace: Ref, camera: Ref) -> bool {
    &&& view.has(workspace) && view.nodes[workspace].class == "Workspace"@
    &&& view.nodes[workspace].properties.dom().contains("CurrentCamera"@)
    &&& view.nodes[workspace].properties["CurrentCamera"@] == VariantView::Ref(camera)
    &&& camera != NO_REF
}

/// An instance is the camera of the editor.
pub open spec fn is_editor_camera(view: TreeView, id: Ref) -> bool {
    exists|workspace: Ref| #[trigger] looks_through(view, workspace, id)
}

proof fn lemma_called(view: TreeView, id: Ref, class: Seq<char>, name: Seq<char>)
    ensures
        crate::managed_hierarchy::has_child(view, id, class, name) <==> holds_called(view, id, class, name),
{
    if crate::managed_hierarchy::has_child(view, id, class, name) {
        let at = choose|at: int|
            0 <= at < view.nodes[id].children.len() && crate::managed_hierarchy::is_named(
                view,
                #[trigger] view.nodes[id].children[at],
                class,
                name,
            );
        assert(is_called(view, view.nodes[id].children[at], class, name));
    }
    if holds_called(view, id, class, name) {
        let at = choose|at: int|
            0 <= at < view.nodes[id].children.len() && is_called(
                view,
                #[trigger] view.nodes[id].children[at],
                class,
                name,
            );
        assert(crate::managed_hierarchy::is_named(view, view.nodes[id].children[at], class, name));
    }
}

proof fn lemma_left_out(view: TreeView, id: Ref, cameras: Set<Ref>)
    requires
        view.has(id),
    ensures
        is_left_out(view, id, cameras) <==> cameras.contains(id) || engine_makes(view, id),
{
    let parent = view.nodes[id].parent;
    lemma_called(view, parent, "RigidConstraint"@, "AccessoryRigidConstraint"@);
    if let Some(handle) = crate::managed_hierarchy::referred(view.nodes[id], "Part1"@) {
        lemma_called(view, handle, "Weld"@, "AccessoryWeld"@);
    }
}

/// The cameras that a walk knows are those of editors.
spec fn known_cameras(view: TreeView, walk: WalkView) -> bool {
    forall|camera: Ref| #[trigger] walk.cameras.contains(camera) ==> is_editor_camera(view, camera)
}

/// What a walk has put somewhere.
spec fn put(walk: WalkView, id: Ref) -> bool {
    walk.refs.contains(id) || walk.excluded.contains(id)
}

proof fn lemma_cameras(view: TreeView, id: Ref, walk: WalkView)
    requires
        view.has(id),
        known_cameras(view, walk),
    ensures
        forall|camera: Ref| #[trigger]
            cameras_after(view.nodes[id], walk.cameras).contains(camera) ==> is_editor_camera(view, camera),
{
    assert forall|camera: Ref| #[trigger] cameras_after(view.nodes[id], walk.cameras).contains(camera) implies is_editor_camera(
        view,
        camera,
    ) by {
        if !walk.cameras.contains(camera) {
            assert(looks_through(view, id, camera));
        }
    }
}

/// A selection holds the parent of whatever it holds.
pub open spec fn holds_parents(view: TreeView, selected: Option<Set<Ref>>) -> bool {
    selected matches Some(set) ==> forall|id: Ref| #[trigger]
        set.contains(id) && view.has(id) && id != view.root ==> set.contains(view.nodes[id].parent)
}

proof fn lemma_chosen_above(view: TreeView, selected: Option<Set<Ref>>, lower: Ref, upper: Ref)
    requires
        view.wf(),
        view.has(lower),
        below(view, lower, upper),
        holds_parents(view, selected),
        chosen(selected, lower),
    ensures
        chosen(selected, upper),
    decreases view.depths()[lower],
{
    assert(view.has_depths(view.depths()));
    if lower != upper {
        assert(view.depths()[view.nodes[lower].parent] < view.depths()[lower]);
        assert(view.has(view.nodes[lower].parent));
        lemma_chosen_above(view, selected, view.nodes[lower].parent, upper);
    }
}

proof fn lemma_preorder_has(view: TreeView, selected: Option<Set<Ref>>, id: Ref, other: Ref)
    requires
        view.wf(),
        view.has(id),
        view.has(other),
        below(view, other, id),
        holds_parents(view, selected),
        chosen(selected, other),
    ensures
        chosen_preorder(view, selected, id).contains(other),
    decreases headroom(view, id), 1nat, 0nat,
{
    let all = chosen_preorder(view, selected, id);
    lemma_own_children(view, id);
    if other == id {
        assert(all[0] == id);
    } else {
        lemma_below_child(view, other, id);
        let children = view.nodes[id].children;
        let at = choose|at: int|
            0 <= at < view.nodes[id].children.len() && below(view, other, #[trigger] view.nodes[id].children[at]);
        lemma_list_has(view, selected, children, id, at, other);
        let rest = chosen_list(view, selected, children, id);
        assert(all[1 + rest.index_of(other)] == other);
    }
}

proof fn lemma_list_has(view: TreeView, selected: Option<Set<Ref>>, list: Seq<Ref>, parent: Ref, at: int, other: Ref)
    requires
        view.wf(),
        are_children(view, list, parent),
        0 <= at < list.len(),
        view.has(other),
        below(view, other, list[at]),
        holds_parents(view, selected),
        chosen(selected, other),
    ensures
        chosen_list(view, selected, list, parent).contains(other),
    decreases headroom(view, parent), 0nat, list.len(),
{
    let shorter = list.drop_last();
    assert forall|k: int| 0 <= k < shorter.len() implies view.has(#[trigger] shorter[k]) && view.nodes[shorter[k]].parent
        == parent && shorter[k] != view.root by {
        assert(shorter[k] == list[k]);
    }
    assert(view.has(list[list.len() - 1]));
    lemma_headroom(view, parent, list.last());
    let before = chosen_list(view, selected, shorter, parent);
    let all = chosen_list(view, selected, list, parent);
    if at == list.len() - 1 {
        lemma_chosen_above(view, selected, other, list.last());
        lemma_preorder_has(view, selected, list.last(), other);
        let last = chosen_preorder(view, selected, list.last());
        assert(all[before.len() + last.index_of(other)] == other);
    } else {
        assert(shorter[at] == list[at]);
        lemma_list_has(view, selected, shorter, parent, at, other);
        assert(all[before.index_of(other)] == other);
    }
}

proof fn lemma_preorder_below(view: TreeView, selected: Option<Set<Ref>>, id: Ref)
    requires
        view.wf(),
        view.has(id),
    ensures
        forall|other: Ref| #[trigger]
            chosen_preorder(view, selected, id).contains(other) ==> view.has(other) && below(view, other, id),
    decreases headroom(view, id), 1nat, 0nat,
{
    lemma_own_children(view, id);
    lemma_list_below(view, selected, view.nodes[id].children, id);
    let rest = chosen_list(view, selected, view.nodes[id].children, id);
    let all = chosen_preorder(view, selected, id);
    assert forall|other: Ref| #[trigger] all.contains(other) implies view.has(other) && below(view, other, id) by {
        let at = all.index_of(other);
        if at > 0 {
            assert(rest[at - 1] == other);
            assert(rest.contains(other));
        }
    }
}

proof fn lemma_list_below(view: TreeView, selected: Option<Set<Ref>>, list: Seq<Ref>, parent: Ref)
    requires
        view.wf(),
        view.has(parent),
        are_children(view, list, parent),
    ensures
        forall|other: Ref| #[trigger]
            chosen_list(view, selected, list, parent).contains(other) ==> view.has(other) && below(view, other, parent),
    decreases headroom(view, parent), 0nat, list.len(),
{
    if list.len() > 0 {
        let shorter = list.drop_last();
        assert forall|k: int| 0 <= k < shorter.len() implies view.has(#[trigger] shorter[k])
            && view.nodes[shorter[k]].parent == parent && shorter[k] != view.root by {
            assert(shorter[k] == list[k]);
        }
        let last = list[list.len() - 1];
        assert(view.has(last));
        lemma_headroom(view, parent, last);
        lemma_list_below(view, selected, shorter, parent);
        lemma_preorder_below(view, selected, last);
        let before = chosen_list(view, selected, shorter, parent);
        let all = chosen_list(view, selected, list, parent);
        assert(below(view, parent, parent));
        assert(below(view, last, parent));
        assert forall|other: Ref| #[trigger] all.contains(other) implies view.has(other) && below(
            view,
            other,
            parent,
        ) by {
            if before.contains(other) {
            } else {
                let part = chosen_preorder(view, selected, last);
                let at = all.index_of(other);
                assert(at >= before.len()) by {
                    if at < before.len() {
                        assert(before[at] == other);
                    }
                }
                assert(part[at - before.len()] == other);
                assert(part.contains(other));
                lemma_below_transitive(view, other, last, parent);
            }
        }
    }
}

/// An instance is left out rightly: it is, or is below, something that the engine makes or
/// the camera of the editor.
pub open spec fn rightly_left_out(view: TreeView, id: Ref) -> bool {
    exists|top: Ref| #[trigger]
        below(view, id, top) && view.has(top) && (engine_makes(view, top) || is_editor_camera(view, top))
}

/// What a walk did: it kept what it had, what it put among the managed is not made by the
/// engine, and what it left out is left out rightly.
spec fn went_well(view: TreeView, before: WalkView, after: WalkView) -> bool {
    &&& known_cameras(view, after)
    &&& forall|id: Ref| #[trigger] before.refs.contains(id) ==> after.refs.contains(id)
    &&& forall|id: Ref| #[trigger] before.excluded.contains(id) ==> after.excluded.contains(id)
    &&& forall|id: Ref| #[trigger] after.refs.contains(id) ==> before.refs.contains(id) || !engine_makes(view, id)
    &&& forall|id: Ref| #[trigger]
        after.excluded.contains(id) ==> before.excluded.contains(id) || rightly_left_out(view, id)
}

proof fn lemma_node(view: TreeView, selected: Option<Set<Ref>>, id: Ref, walk: WalkView, other: Ref)
    requires
        view.wf(),
        view.has(id),
        known_cameras(view, walk),
    ensures
        went_well(view, walk, walk_node(view, selected, id, walk)),
        view.has(other) && below(view, other, id) && holds_parents(view, selected) && chosen(selected, other) ==> put(
            walk_node(view, selected, id, walk),
            other,
        ),
    decreases headroom(view, id), 1nat, 0nat,
{
    let after = walk_node(view, selected, id, walk);
    let wanted = view.has(other) && below(view, other, id) && holds_parents(view, selected) && chosen(selected, other);
    if wanted {
        lemma_chosen_above(view, selected, other, id);
    }
    lemma_left_out(view, id, walk.cameras);
    if !chosen(selected, id) {
        assert(after == walk);
    } else if is_left_out(view, id, walk.cameras) {
        let more = chosen_preorder(view, selected, id);
        lemma_preorder_below(view, selected, id);
        assert forall|found: Ref| #[trigger] after.excluded.contains(found) implies walk.excluded.contains(found)
            || rightly_left_out(view, found) by {
            let at = after.excluded.index_of(found);
            if at < walk.excluded.len() {
                assert(walk.excluded[at] == found);
            } else {
                assert(more[at - walk.excluded.len()] == found);
                assert(more.contains(found));
                assert(below(view, found, id));
            }
        }
        assert forall|found: Ref| #[trigger] walk.excluded.contains(found) implies after.excluded.contains(found) by {
            assert(after.excluded[walk.excluded.index_of(found)] == found);
        }
        if wanted {
            lemma_preorder_has(view, selected, id, other);
            assert(after.excluded[walk.excluded.len() + more.index_of(other)] == other);
        }
        assert(after.refs == walk.refs && after.cameras == walk.cameras);
        assert(went_well(view, walk, after));
    } else {
        let next = WalkView {
            refs: walk.refs.push(id),
            cameras: cameras_after(view.nodes[id], walk.cameras),
            excluded: walk.excluded,
        };
        let children = view.nodes[id].children;
        lemma_cameras(view, id, walk);
        lemma_own_children(view, id);
        assert(next.refs[walk.refs.len() as int] == id);
        assert forall|found: Ref| #[trigger] walk.refs.contains(found) implies next.refs.contains(found) by {
            assert(next.refs[walk.refs.index_of(found)] == found);
        }
        assert forall|found: Ref| #[trigger] next.refs.contains(found) implies walk.refs.contains(found) || found
            == id by {
            let at = next.refs.index_of(found);
            if at < walk.refs.len() {
                assert(walk.refs[at] == found);
            }
        }
        let at = if wanted && other != id {
            lemma_below_child(view, other, id);
            choose|at: int|
                0 <= at < view.nodes[id].children.len() && below(view, other, #[trigger] view.nodes[id].children[at])
        } else {
            -1
        };
        lemma_list(view, selected, children, id, next, at, other);
        assert(after == walk_list(view, selected, children, id, next));
        assert(next.refs.contains(id));
        assert(!engine_makes(view, id));
        assert forall|found: Ref| #[trigger] after.refs.contains(found) implies walk.refs.contains(found)
            || !engine_makes(view, found) by {
            assert(next.refs.contains(found) || !engine_makes(view, found));
        }
        assert forall|found: Ref| #[trigger] after.excluded.contains(found) implies walk.excluded.contains(found)
            || rightly_left_out(view, found) by {
            assert(next.excluded.contains(found) || rightly_left_out(view, found));
        }
        assert forall|found: Ref| #[trigger] walk.excluded.contains(found) implies after.excluded.contains(found) by {
            assert(next.excluded.contains(found));
        }
        assert(went_well(view, walk, after));
        assert(wanted ==> put(after, other));
    }
}

proof fn lemma_list(
    view: TreeView,
    selected: Option<Set<Ref>>,
    list: Seq<Ref>,
    parent: Ref,
    walk: WalkView,
    at: int,
    other: Ref,
)
    requires
        view.wf(),
        are_children(view, list, parent),
        known_cameras(view, walk),
    ensures
        went_well(view, walk, walk_list(view, selected, list, parent, walk)),
        0 <= at < list.len() && view.has(other) && below(view, other, list[at]) && holds_parents(view, selected)
            && chosen(selected, other) ==> put(walk_list(view, selected, list, parent, walk), other),
    decreases headroom(view, parent), 0nat, list.len(),
{
    if list.len() > 0 {
        let shorter = list.drop_last();
        assert forall|k: int| 0 <= k < shorter.len() implies view.has(#[trigger] shorter[k])
            && view.nodes[shorter[k]].parent == parent && shorter[k] != view.root by {
            assert(shorter[k] == list[k]);
        }
        let last = list[list.len() - 1];
        assert(view.has(last));
        lemma_headroom(view, parent, last);
        lemma_list(view, selected, shorter, parent, walk, at, other);
        let before = walk_list(view, selected, shorter, parent, walk);
        lemma_node(view, selected, last, before, other);
    }
}

/// A session manages what it is to manage: every selected instance is managed or left out,
/// what is managed is not made by the engine, and what is left out is made by the engine, is
/// the camera of the editor, or stands below such an instance.
pub proof fn law_sessions_manage_what_authors_make(view: TreeView, selected: Option<Set<Ref>>, id: Ref)
    requires
        view.wf(),
        view.has(id),
        below(view, id, view.root),
        holds_parents(view, selected),
        contract_of(view, selected) is Ok,
    ensures
        ({
            let contract = contract_of(view, selected)->Ok_0;
            &&& chosen(selected, id) ==> contract.source_ids.contains(id) || contract.excluded_source_ids.contains(id)
            &&& contract.source_ids.contains(id) ==> !engine_makes(view, id)
            &&& contract.excluded_source_ids.contains(id) ==> rightly_left_out(view, id)
        }),
{
    let start = WalkView { refs: Seq::empty(), cameras: Set::empty(), excluded: Seq::empty() };
    assert(view.has(view.root));
    lemma_node(view, selected, view.root, start, id);
    let walk = walked(view, selected);
    assert(walk.refs.to_set().contains(id) <==> walk.refs.contains(id));
}

} // verus!
