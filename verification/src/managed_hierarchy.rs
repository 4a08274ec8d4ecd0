//! The hierarchy that a serve session manages, as one compact payload.

use crate::hashing::{blake3_digest, blake3_hash, push_text};
use crate::hierarchy::set_members;
use crate::manifest_identity::{be_bytes, push_be};
use crate::reflection::Reflection;
use crate::text::{joined, push_bytes, ref_chars, ref_text, text_bytes};
use crate::tree::{
    are_children, below, headroom, lemma_headroom, sort_refs, sorted_refs, Tree, TreeNode, TreeNodeView, TreeView,
};
use crate::variant::{Variant, VariantView};
use crate::{Ref, NO_REF};
use std::collections::{HashMap, HashSet};
use vstd::prelude::*;
use vstd::string::StringSliceAdditionalSpecFns;

verus! {

broadcast use vstd::std_specs::hash::group_hash_axioms;

/// Why a hierarchy has no payload.
#[derive(Clone, Copy, Debug, PartialEq, Eq, Structural)]
pub enum ManagedError {
    TooManyInstances,
    ShapeUnavailable,
    ParentExcluded,
    ClassTooLong,
    NameTooLong,
    RootNotDataModel,
    MappedMissing(Ref),
    InstanceMissing(Ref),
}

impl ManagedError {
    pub open spec fn text(self) -> Seq<char> {
        match self {
            ManagedError::TooManyInstances => "managed hierarchy exceeds the protocol limit"@,
            ManagedError::ShapeUnavailable => "managed hierarchy child shape is unavailable"@,
            ManagedError::ParentExcluded => "managed hierarchy parent is excluded or missing"@,
            ManagedError::ClassTooLong => "managed hierarchy class name is too long"@,
            ManagedError::NameTooLong => "managed hierarchy instance name is too long"@,
            ManagedError::RootNotDataModel => "project managed hierarchy root must be DataModel"@,
            ManagedError::MappedMissing(id) => "mapped managed hierarchy instance "@ + ref_chars(id)
                + " is missing"@,
            ManagedError::InstanceMissing(id) => "managed hierarchy instance "@ + ref_chars(id) + " is missing"@,
        }
    }

    pub fn message(&self) -> (message: String)
        ensures
            message@ == self.text(),
    {
        match self {
            ManagedError::TooManyInstances => "managed hierarchy exceeds the protocol limit".to_owned(),
            ManagedError::ShapeUnavailable => "managed hierarchy child shape is unavailable".to_owned(),
            ManagedError::ParentExcluded => "managed hierarchy parent is excluded or missing".to_owned(),
            ManagedError::ClassTooLong => "managed hierarchy class name is too long".to_owned(),
            ManagedError::NameTooLong => "managed hierarchy instance name is too long".to_owned(),
            ManagedError::RootNotDataModel => "project managed hierarchy root must be DataModel".to_owned(),
            ManagedError::MappedMissing(id) => joined(
                joined("mapped managed hierarchy instance ", ref_text(*id).as_str()).as_str(),
                " is missing",
            ),
            ManagedError::InstanceMissing(id) => joined(
                joined("managed hierarchy instance ", ref_text(*id).as_str()).as_str(),
                " is missing",
            ),
        }
    }
}

// ---------------------------------------------------------------------------
// Little-endian numbers

/// The `len` little-endian bytes of `value`.
pub open spec fn le_bytes(value: nat, len: nat) -> Seq<u8>
    decreases len,
{
    if len == 0 {
        Seq::empty()
    } else {
        seq![(value % 256) as u8] + le_bytes(value / 256, (len - 1) as nat)
    }
}

/// Appends the `len` little-endian bytes of `value`.
pub(crate) fn push_le(out: &mut Vec<u8>, value: u64, len: usize)
    ensures
        final(out)@ == old(out)@ + le_bytes(value as nat, len as nat),
    decreases len,
{
    if len == 0 {
        proof {
            assert(out@ =~= old(out)@ + le_bytes(value as nat, 0));
        }
        return;
    }
    out.push((value % 256) as u8);
    push_le(out, value / 256, len - 1);
    proof {
        assert(out@ =~= old(out)@ + le_bytes(value as nat, len as nat));
    }
}

// ---------------------------------------------------------------------------
// What the hierarchy leaves out

/// An instance of a class.
pub open spec fn is_class(view: TreeView, id: Ref, class: Seq<char>) -> bool {
    view.has(id) && view.nodes[id].class == class
}

/// An instance of a class with a name.
pub open spec fn is_named(view: TreeView, id: Ref, class: Seq<char>, name: Seq<char>) -> bool {
    view.has(id) && view.nodes[id].class == class && view.nodes[id].name == name
}

/// Some child of an instance has the class and the name.
pub open spec fn has_child(view: TreeView, id: Ref, class: Seq<char>, name: Seq<char>) -> bool {
    exists|at: int|
        0 <= at < view.nodes[id].children.len() && is_named(
            view,
            #[trigger] view.nodes[id].children[at],
            class,
            name,
        )
}

/// The instance that a property refers to.
pub open spec fn referred(data: TreeNodeView, property: Seq<char>) -> Option<Ref> {
    if data.properties.dom().contains(property) {
        match data.properties[property] {
            VariantView::Ref(target) => Some(target),
            _ => None,
        }
    } else {
        None
    }
}

/// The handle of an accessory.
pub open spec fn is_handle(view: TreeView, id: Ref) -> bool {
    is_named(view, id, "Part"@, "Handle"@) && is_class(view, view.nodes[id].parent, "Accessory"@)
}

/// A weld on a head that an accessory's own weld replaces at run time.
pub open spec fn is_head_weld(view: TreeView, id: Ref) -> bool {
    &&& is_named(view, id, "Weld"@, "HeadWeld"@)
    &&& is_named(view, view.nodes[id].parent, "Part"@, "Head"@)
    &&& referred(view.nodes[id], "Part1"@) matches Some(handle) && is_handle(view, handle) && has_child(
        view,
        handle,
        "Weld"@,
        "AccessoryWeld"@,
    )
}

/// A weld of an accessory that a rigid constraint makes redundant.
pub open spec fn is_accessory_weld(view: TreeView, id: Ref) -> bool {
    &&& is_named(view, id, "Weld"@, "AccessoryWeld"@)
    &&& is_handle(view, view.nodes[id].parent)
    &&& has_child(view, view.nodes[id].parent, "RigidConstraint"@, "AccessoryRigidConstraint"@)
}

/// An instance that the engine makes itself, or the camera of the editor.
pub open spec fn is_left_out(view: TreeView, id: Ref, cameras: Set<Ref>) -> bool {
    ||| cameras.contains(id)
    ||| is_class(view, id, "Status"@) && is_class(view, view.nodes[id].parent, "Humanoid"@)
    ||| is_class(view, id, "ConfigureServerService"@) && is_class(view, view.nodes[id].parent, "DataModel"@)
    ||| is_head_weld(view, id)
    ||| is_accessory_weld(view, id)
}

fn check_class(tree: &Tree, id: Ref, class: &str) -> (found: bool)
    requires
        tree.dense(),
    ensures
        found == is_class(tree@, id, class@),
{
    match tree.get_instance(id) {
        Some(node) => node.class().eq(class),
        None => false,
    }
}

fn check_named(tree: &Tree, id: Ref, class: &str, name: &str) -> (found: bool)
    requires
        tree.dense(),
    ensures
        found == is_named(tree@, id, class@, name@),
{
    match tree.get_instance(id) {
        Some(node) => node.class().eq(class) && node.name().eq(name),
        None => false,
    }
}

fn check_child(tree: &Tree, node: &TreeNode, class: &str, name: &str) -> (found: bool)
    requires
        tree.dense(),
        tree@.has(node.id()),
        node@ == tree@.nodes[node.id()],
    ensures
        found == has_child(tree@, node.id(), class@, name@),
{
    let children: &Vec<Ref> = node.children();
    let mut at: usize = 0;
    while at < children.len()
        invariant
            tree.dense(),
            at <= children@.len(),
            children@ == tree@.nodes[node.id()].children,
            forall|k: int| 0 <= k < at ==> !is_named(tree@, #[trigger] children@[k], class@, name@),
        decreases children@.len() - at,
    {
        if check_named(tree, children[at], class, name) {
            return true;
        }
        at = at + 1;
    }
    false
}

/// The instance that a property refers to.
fn referred_instance(node: &TreeNode, property: &str) -> (target: Option<Ref>)
    ensures
        target == referred(node@, property@),
{
    proof {
        assert(node@.properties.dom() =~= node@.properties.dom());
    }
    match node.properties().get(property) {
        Some(Variant::Ref(target)) => Some(*target),
        _ => None,
    }
}

fn check_handle(tree: &Tree, id: Ref) -> (found: bool)
    requires
        tree.dense(),
    ensures
        found == is_handle(tree@, id),
{
    match tree.get_instance(id) {
        Some(node) => check_named(tree, id, "Part", "Handle") && check_class(tree, node.parent(), "Accessory"),
        None => false,
    }
}

pub fn is_runtime_normalized_accessory_head_weld(tree: &Tree, id: Ref) -> (found: bool)
    requires
        tree.dense(),
    ensures
        found == is_head_weld(tree@, id),
{
    let weld: &TreeNode = match tree.get_instance(id) {
        Some(weld) => weld,
        None => {
            return false;
        },
    };
    if !check_named(tree, id, "Weld", "HeadWeld") || !check_named(tree, weld.parent(), "Part", "Head") {
        return false;
    }
    match referred_instance(weld, "Part1") {
        Some(handle) => {
            if !check_handle(tree, handle) {
                return false;
            }
            match tree.get_instance(handle) {
                Some(node) => check_child(tree, node, "Weld", "AccessoryWeld"),
                None => false,
            }
        },
        None => false,
    }
}

pub fn is_redundant_accessory_weld(tree: &Tree, id: Ref) -> (found: bool)
    requires
        tree.dense(),
    ensures
        found == is_accessory_weld(tree@, id),
{
    let weld: &TreeNode = match tree.get_instance(id) {
        Some(weld) => weld,
        None => {
            return false;
        },
    };
    if !check_named(tree, id, "Weld", "AccessoryWeld") || !check_handle(tree, weld.parent()) {
        return false;
    }
    match tree.get_instance(weld.parent()) {
        Some(handle) => check_child(tree, handle, "RigidConstraint", "AccessoryRigidConstraint"),
        None => false,
    }
}

fn check_left_out(tree: &Tree, node: &TreeNode, cameras: &HashSet<u128>) -> (out: bool)
    requires
        tree.dense(),
        tree@.has(node.id()),
        node@ == tree@.nodes[node.id()],
    ensures
        out == is_left_out(tree@, node.id(), cameras@),
{
    let id: Ref = node.referent();
    cameras.contains(&id) || (check_class(tree, id, "Status") && check_class(tree, node.parent(), "Humanoid")) || (
    check_class(tree, id, "ConfigureServerService") && check_class(tree, node.parent(), "DataModel"))
        || is_runtime_normalized_accessory_head_weld(tree, id) || is_redundant_accessory_weld(tree, id)
}

// ---------------------------------------------------------------------------
// The walk

/// Whether a selection holds an instance. Without a selection all are held.
pub open spec fn chosen(selected: Option<Set<Ref>>, id: Ref) -> bool {
    match selected {
        Some(set) => set.contains(id),
        None => true,
    }
}

/// The selected instances below an instance, which itself counts as selected.
pub open spec fn chosen_preorder(view: TreeView, selected: Option<Set<Ref>>, id: Ref) -> Seq<Ref>
    decreases headroom(view, id), 1nat, 0nat,
    when view.wf() && view.has(id)
{
    seq![id] + chosen_list(view, selected, view.nodes[id].children, id)
}

pub open spec fn chosen_list(view: TreeView, selected: Option<Set<Ref>>, list: Seq<Ref>, parent: Ref) -> Seq<Ref>
    decreases headroom(view, parent), 0nat, list.len(),
    when view.wf() && are_children(view, list, parent)
{
    if list.len() == 0 {
        Seq::empty()
    } else {
        proof {
            assert(view.has(list[list.len() - 1]));
            lemma_headroom(view, parent, list.last());
        }
        let before = chosen_list(view, selected, list.drop_last(), parent);
        if chosen(selected, list.last()) {
            before + chosen_preorder(view, selected, list.last())
        } else {
            before
        }
    }
}

/// What a walk has found: the managed instances, the cameras that it leaves out
/// and the instances that it left out.
#[verifier::ext_equal]
pub struct WalkView {
    pub refs: Seq<Ref>,
    pub cameras: Set<Ref>,
    pub excluded: Seq<Ref>,
}

/// The cameras left out after an instance has been visited: the camera of the
/// editor is what a workspace refers to.
pub open spec fn cameras_after(data: TreeNodeView, cameras: Set<Ref>) -> Set<Ref> {
    if data.class == "Workspace"@ {
        match referred(data, "CurrentCamera"@) {
            Some(camera) => if camera != NO_REF {
                cameras.insert(camera)
            } else {
                cameras
            },
            None => cameras,
        }
    } else {
        cameras
    }
}

pub open spec fn walk_node(view: TreeView, selected: Option<Set<Ref>>, id: Ref, walk: WalkView) -> WalkView
    decreases headroom(view, id), 1nat, 0nat,
    when view.wf() && view.has(id)
{
    if !chosen(selected, id) {
        walk
    } else if is_left_out(view, id, walk.cameras) {
        WalkView { excluded: walk.excluded + chosen_preorder(view, selected, id), ..walk }
    } else {
        walk_list(
            view,
            selected,
            view.nodes[id].children,
            id,
            WalkView {
                refs: walk.refs.push(id),
                cameras: cameras_after(view.nodes[id], walk.cameras),
                excluded: walk.excluded,
            },
        )
    }
}

pub open spec fn walk_list(
    view: TreeView,
    selected: Option<Set<Ref>>,
    list: Seq<Ref>,
    parent: Ref,
    walk: WalkView,
) -> WalkView
    decreases headroom(view, parent), 0nat, list.len(),
    when view.wf() && are_children(view, list, parent)
{
    if list.len() == 0 {
        walk
    } else {
        proof {
            assert(view.has(list[list.len() - 1]));
            lemma_headroom(view, parent, list.last());
        }
        walk_node(view, selected, list.last(), walk_list(view, selected, list.drop_last(), parent, walk))
    }
}

/// The whole walk, from the root.
pub open spec fn walked(view: TreeView, selected: Option<Set<Ref>>) -> WalkView {
    walk_node(
        view,
        selected,
        view.root,
        WalkView { refs: Seq::empty(), cameras: Set::empty(), excluded: Seq::empty() },
    )
}

pub open spec fn selection_view(selected: Option<&HashSet<u128>>) -> Option<Set<Ref>> {
    match selected {
        Some(set) => Some(set@),
        None => None,
    }
}

fn is_chosen(selected: Option<&HashSet<u128>>, id: Ref) -> (found: bool)
    ensures
        found == chosen(selection_view(selected), id),
{
    match selected {
        Some(set) => set.contains(&id),
        None => true,
    }
}

proof fn lemma_taken_children(view: TreeView, id: Ref, at: int)
    requires
        view.wf(),
        view.has(id),
        0 <= at < view.nodes[id].children.len(),
    ensures
        are_children(view, view.nodes[id].children, id),
        are_children(view, view.nodes[id].children.take(at), id),
        are_children(view, view.nodes[id].children.take(at + 1), id),
        view.nodes[id].children.take(at + 1).drop_last() == view.nodes[id].children.take(at),
        view.nodes[id].children.take(at + 1).last() == view.nodes[id].children[at],
        view.has(view.nodes[id].children[at]),
        headroom(view, view.nodes[id].children[at]) < headroom(view, id),
{
    let children = view.nodes[id].children;
    assert forall|k: int| 0 <= k < children.len() implies view.has(#[trigger] children[k])
        && view.nodes[children[k]].parent == id && children[k] != view.root by {
        let child = view.nodes[id].children[k];
    }
    let next = children.take(at + 1);
    let done = children.take(at);
    assert forall|k: int| 0 <= k < next.len() implies view.has(#[trigger] next[k]) && view.nodes[next[k]].parent
        == id && next[k] != view.root by {
        assert(next[k] == children[k]);
    }
    assert forall|k: int| 0 <= k < done.len() implies view.has(#[trigger] done[k]) && view.nodes[done[k]].parent
        == id && done[k] != view.root by {
        assert(done[k] == children[k]);
    }
    assert(next.drop_last() =~= done);
    lemma_headroom(view, id, children[at]);
}

proof fn lemma_all_children(view: TreeView, id: Ref)
    requires
        view.wf(),
        view.has(id),
    ensures
        are_children(view, view.nodes[id].children, id),
        are_children(view, Seq::<Ref>::empty(), id),
        view.nodes[id].children.take(0) == Seq::<Ref>::empty(),
        view.nodes[id].children.take(view.nodes[id].children.len() as int) == view.nodes[id].children,
{
    let children = view.nodes[id].children;
    assert forall|k: int| 0 <= k < children.len() implies view.has(#[trigger] children[k])
        && view.nodes[children[k]].parent == id && children[k] != view.root by {
        let child = view.nodes[id].children[k];
    }
    assert(children.take(0) =~= Seq::empty());
    assert(children.take(children.len() as int) =~= children);
}

fn collect_chosen(tree: &Tree, selected: Option<&HashSet<u128>>, id: Ref, out: &mut Vec<Ref>)
    requires
        tree.wf(),
        tree@.has(id),
    ensures
        final(out)@ == old(out)@ + chosen_preorder(tree@, selection_view(selected), id),
    decreases headroom(tree@, id),
{
    let ghost view = tree@;
    let ghost set = selection_view(selected);
    proof {
        lemma_all_children(view, id);
    }
    out.push(id);
    match tree.get_instance(id) {
        Some(node) => {
            let children: &Vec<Ref> = node.children();
            let mut at: usize = 0;
            proof {
                assert(out@ =~= old(out)@ + seq![id] + chosen_list(view, set, children@.take(0), id));
            }
            while at < children.len()
                invariant
                    at <= children@.len(),
                    tree.wf(),
                    view == tree@,
                    set == selection_view(selected),
                    view.has(id),
                    children@ == view.nodes[id].children,
                    out@ == old(out)@ + seq![id] + chosen_list(view, set, children@.take(at as int), id),
                decreases children@.len() - at,
            {
                proof {
                    lemma_taken_children(view, id, at as int);
                }
                if is_chosen(selected, children[at]) {
                    collect_chosen(tree, selected, children[at], out);
                }
                proof {
                    assert(out@ =~= old(out)@ + seq![id] + chosen_list(view, set, children@.take(at + 1), id));
                }
                at = at + 1;
            }
            proof {
                assert(out@ =~= old(out)@ + chosen_preorder(view, set, id));
            }
        },
        None => {
            proof {
                assert(false);
            }
        },
    }
}

struct Walk {
    refs: Vec<Ref>,
    cameras: HashSet<u128>,
    excluded: Vec<Ref>,
}

impl View for Walk {
    type V = WalkView;

    closed spec fn view(&self) -> WalkView {
        WalkView { refs: self.refs@, cameras: self.cameras@, excluded: self.excluded@ }
    }
}

fn walk_tree(tree: &Tree, selected: Option<&HashSet<u128>>, id: Ref, walk: &mut Walk)
    requires
        tree.wf(),
        tree@.has(id),
    ensures
        final(walk)@ == walk_node(tree@, selection_view(selected), id, old(walk)@),
    decreases headroom(tree@, id),
{
    let ghost view = tree@;
    let ghost set = selection_view(selected);
    if !is_chosen(selected, id) {
        return;
    }
    proof {
        lemma_all_children(view, id);
    }
    match tree.get_instance(id) {
        Some(node) => {
            if check_left_out(tree, node, &walk.cameras) {
                collect_chosen(tree, selected, id, &mut walk.excluded);
                return;
            }
            walk.refs.push(id);
            if node.class().eq("Workspace") {
                match referred_instance(node, "CurrentCamera") {
                    Some(camera) => {
                        if camera != NO_REF {
                            walk.cameras.insert(camera);
                        }
                    },
                    None => {},
                }
            }
            let ghost start = walk@;
            let children: &Vec<Ref> = node.children();
            let mut at: usize = 0;
            while at < children.len()
                invariant
                    at <= children@.len(),
                    tree.wf(),
                    view == tree@,
                    set == selection_view(selected),
                    view.has(id),
                    children@ == view.nodes[id].children,
                    walk@ == walk_list(view, set, children@.take(at as int), id, start),
                decreases children@.len() - at,
            {
                proof {
                    lemma_taken_children(view, id, at as int);
                }
                walk_tree(tree, selected, children[at], walk);
                at = at + 1;
            }
        },
        None => {
            proof {
                assert(false);
            }
        },
    }
}

// ---------------------------------------------------------------------------
// Shapes

/// The last place of an identity in a list.
pub open spec fn last_place(refs: Seq<Ref>, id: Ref) -> Option<int>
    decreases refs.len(),
{
    if refs.len() == 0 {
        None
    } else if refs.last() == id {
        Some(refs.len() - 1)
    } else {
        last_place(refs.drop_last(), id)
    }
}

proof fn lemma_last_place(refs: Seq<Ref>, id: Ref)
    ensures
        last_place(refs, id) matches Some(at) ==> 0 <= at < refs.len() && refs[at] == id,
        last_place(refs, id) is Some <==> refs.contains(id),
    decreases refs.len(),
{
    if refs.len() > 0 {
        let shorter = refs.drop_last();
        lemma_last_place(shorter, id);
        if refs.last() == id {
            assert(refs[refs.len() - 1] == id);
        } else {
            if refs.contains(id) {
                let k = refs.index_of(id);
                assert(shorter[k] == id);
            }
            if shorter.contains(id) {
                let k = shorter.index_of(id);
                assert(refs[k] == id);
            }
        }
    }
}

/// Where each identity stands.
spec fn places(index: Map<Ref, usize>, refs: Seq<Ref>) -> bool {
    forall|id: Ref| #[trigger]
        index.dom().contains(id) == (last_place(refs, id) is Some) && (index.dom().contains(id) ==> last_place(
            refs,
            id,
        ) == Some(index[id] as int))
}

fn index_refs(refs: &Vec<Ref>) -> (index: HashMap<u128, usize>)
    ensures
        places(index@, refs@),
{
    let mut index: HashMap<u128, usize> = HashMap::new();
    let mut at: usize = 0;
    proof {
        assert(refs@.take(0) =~= Seq::empty());
    }
    while at < refs.len()
        invariant
            at <= refs@.len(),
            places(index@, refs@.take(at as int)),
        decreases refs@.len() - at,
    {
        let ghost before = index@;
        index.insert(refs[at], at);
        proof {
            assert(refs@.take(at + 1).drop_last() =~= refs@.take(at as int));
            assert forall|id: Ref| #[trigger]
                index@.dom().contains(id) == (last_place(refs@.take(at + 1), id) is Some) && (
            index@.dom().contains(id) ==> last_place(refs@.take(at + 1), id) == Some(index@[id] as int)) by {
                assert(before.dom().contains(id) == (last_place(refs@.take(at as int), id) is Some));
            }
        }
        at = at + 1;
    }
    proof {
        assert(refs@.take(refs@.len() as int) =~= refs@);
    }
    index
}

/// A shape: a class, a name and the shapes of the children, in order.
#[verifier::ext_equal]
pub struct ShapeView {
    pub class: Seq<char>,
    pub name: Seq<char>,
    pub children: Seq<u128>,
}

/// The number of a shape in a table, and the table with it.
pub open spec fn interned(known: Seq<ShapeView>, shape: ShapeView) -> (nat, Seq<ShapeView>) {
    if known.contains(shape) {
        (known.index_of(shape) as nat, known)
    } else {
        (known.len(), known.push(shape))
    }
}

struct Shape {
    class: String,
    name: String,
    children: Vec<u128>,
}

impl View for Shape {
    type V = ShapeView;

    closed spec fn view(&self) -> ShapeView {
        ShapeView { class: self.class@, name: self.name@, children: self.children@ }
    }
}

spec fn numbers_text(list: Seq<u128>) -> Seq<u8>
    decreases list.len(),
{
    if list.len() == 0 {
        Seq::empty()
    } else {
        numbers_text(list.drop_last()) + be_bytes(list.last() as nat, 16)
    }
}

spec fn shape_key(shape: ShapeView) -> u128 {
    blake3_hash(text_bytes(shape.class) + text_bytes(shape.name) + numbers_text(shape.children)).0
}

impl Shape {
    fn key(&self) -> (key: u128)
        ensures
            key == shape_key(self@),
    {
        let mut text: Vec<u8> = Vec::new();
        push_text(&mut text, self.class.as_str());
        push_text(&mut text, self.name.as_str());
        let ghost head = text@;
        let mut at: usize = 0;
        proof {
            assert(self.children@.take(0) =~= Seq::empty());
            assert(text@ =~= head + numbers_text(self.children@.take(0)));
        }
        while at < self.children.len()
            invariant
                at <= self.children@.len(),
                text@ == head + numbers_text(self.children@.take(at as int)),
            decreases self.children@.len() - at,
        {
            push_be(&mut text, self.children[at], 16);
            proof {
                assert(self.children@.take(at + 1).drop_last() =~= self.children@.take(at as int));
                assert(text@ =~= head + numbers_text(self.children@.take(at + 1)));
            }
            at = at + 1;
        }
        proof {
            assert(self.children@.take(self.children@.len() as int) =~= self.children@);
            assert(text@ =~= text_bytes(self@.class) + text_bytes(self@.name) + numbers_text(self@.children));
        }
        blake3_digest(text.as_slice()).0
    }

    fn same(&self, other: &Shape) -> (same: bool)
        ensures
            same == (self@ == other@),
    {
        if !self.class.as_str().eq(other.class.as_str()) || !self.name.as_str().eq(other.name.as_str())
            || self.children.len() != other.children.len() {
            return false;
        }
        let mut at: usize = 0;
        while at < self.children.len()
            invariant
                at <= self.children@.len(),
                self.children@.len() == other.children@.len(),
                forall|k: int| 0 <= k < at ==> self.children@[k] == other.children@[k],
            decreases self.children@.len() - at,
        {
            if self.children[at] != other.children[at] {
                return false;
            }
            at = at + 1;
        }
        proof {
            assert(self.children@ =~= other.children@);
        }
        true
    }
}

/// A table of shapes without repetition.
struct ShapeTable {
    known: Vec<Shape>,
    buckets: HashMap<u128, Vec<usize>>,
}

impl ShapeTable {
    spec fn shapes(self) -> Seq<ShapeView> {
        self.known@.map_values(|shape: Shape| shape@)
    }

    spec fn wf(self) -> bool {
        &&& self.shapes().no_duplicates()
        &&& forall|k: int|
            0 <= k < self.known@.len() ==> self.buckets@.dom().contains(shape_key((#[trigger] self.known@[k])@))
                && self.buckets@[shape_key(self.known@[k]@)]@.contains(k as usize)
        &&& forall|key: u128, i: int|
            self.buckets@.dom().contains(key) && 0 <= i < self.buckets@[key]@.len()
                ==> #[trigger] self.buckets@[key]@[i] < self.known@.len()
    }

    fn new() -> (table: Self)
        ensures
            table.wf(),
            table.shapes() == Seq::<ShapeView>::empty(),
    {
        let table = ShapeTable { known: Vec::new(), buckets: HashMap::new() };
        proof {
            assert(table.shapes() =~= Seq::empty());
        }
        table
    }

    fn intern(&mut self, shape: Shape) -> (number: usize)
        requires
            old(self).wf(),
        ensures
            final(self).wf(),
            (number as nat, final(self).shapes()) == interned(old(self).shapes(), shape@),
    {
        let key: u128 = shape.key();
        let number: usize = self.known.len();
        let ghost wanted = shape@;
        let mut bucket: Vec<usize> = Vec::new();
        match self.buckets.get(&key) {
            Some(found) => {
                let mut at: usize = 0;
                while at < found.len()
                    invariant
                        at <= found@.len(),
                        *self == *old(self),
                        self.wf(),
                        self.buckets@.dom().contains(key),
                        found@ == self.buckets@[key]@,
                        wanted == shape@,
                        bucket@ == found@.take(at as int),
                        forall|i: int| 0 <= i < at ==> self.known@[(#[trigger] found@[i]) as int]@ != wanted,
                    decreases found@.len() - at,
                {
                    let number: usize = found[at];
                    proof {
                        assert(self.buckets@[key]@[at as int] < self.known@.len());
                    }
                    if self.known[number].same(&shape) {
                        proof {
                            assert(self.shapes()[number as int] == wanted);
                            assert(self.shapes().contains(wanted));
                        }
                        return number;
                    }
                    bucket.push(number);
                    proof {
                        assert(found@.take(at + 1) =~= found@.take(at as int).push(number));
                    }
                    at = at + 1;
                }
                proof {
                    assert(found@.take(found@.len() as int) =~= found@);
                    assert(bucket@ == self.buckets@[key]@);
                    assert forall|i: int| 0 <= i < bucket@.len() implies self.known@[(
                    #[trigger] bucket@[i]) as int]@ != wanted by {
                        assert(found@[i] == bucket@[i]);
                    }
                }
            },
            None => {},
        }
        proof {
            assert(!self.shapes().contains(wanted)) by {
                if self.shapes().contains(wanted) {
                    let k = self.shapes().index_of(wanted);
                    assert(self.known@[k]@ == wanted);
                    assert(self.buckets@.dom().contains(key));
                    assert(self.buckets@[key]@.contains(k as usize));
                    let i = self.buckets@[key]@.index_of(k as usize);
                    assert(bucket@[i] == k);
                }
            }
        }
        let ghost before = *self;
        let ghost held = bucket@;
        bucket.push(number);
        self.buckets.insert(key, bucket);
        self.known.push(shape);
        proof {
            assert(self.shapes() =~= before.shapes().push(wanted));
            assert forall|i: int, j: int|
                0 <= i < self.shapes().len() && 0 <= j < self.shapes().len() && i != j implies self.shapes()[i]
                != self.shapes()[j] by {
                if i < before.shapes().len() {
                    assert(before.shapes().contains(before.shapes()[i]));
                }
                if j < before.shapes().len() {
                    assert(before.shapes().contains(before.shapes()[j]));
                }
                if i < before.shapes().len() && j < before.shapes().len() {
                    assert(before.shapes()[i] != before.shapes()[j]);
                }
            }
            assert forall|k: int| 0 <= k < self.known@.len() implies self.buckets@.dom().contains(
                shape_key((#[trigger] self.known@[k])@),
            ) && self.buckets@[shape_key(self.known@[k]@)]@.contains(k as usize) by {
                if k == number {
                    assert(bucket@[held.len() as int] == number);
                } else {
                    assert(self.known@[k] == before.known@[k]);
                    let other = shape_key(before.known@[k]@);
                    assert(before.buckets@[other]@.contains(k as usize));
                    if other == key {
                        let i = held.index_of(k as usize);
                        assert(held[i] == k);
                        assert(bucket@[i] == k);
                    }
                }
            }
            assert forall|other: u128, i: int|
                self.buckets@.dom().contains(other) && 0 <= i < self.buckets@[other]@.len() implies
                #[trigger] self.buckets@[other]@[i] < self.known@.len() by {
                if other == key {
                    if i < held.len() {
                        assert(before.buckets@[key]@[i] < before.known@.len());
                    }
                } else {
                    assert(before.buckets@[other]@[i] < before.known@.len());
                }
            }
        }
        number
    }
}

/// The numbers of the shapes of the listed children that are managed.
pub open spec fn child_shapes(refs: Seq<Ref>, numbers: Map<int, nat>, list: Seq<Ref>) -> Seq<u128>
    decreases list.len(),
{
    if list.len() == 0 {
        Seq::empty()
    } else {
        let before = child_shapes(refs, numbers, list.drop_last());
        match last_place(refs, list.last()) {
            Some(at) => before.push(numbers[at] as u128),
            None => before,
        }
    }
}

/// The shape of an instance.
pub open spec fn shape_of(view: TreeView, refs: Seq<Ref>, numbers: Map<int, nat>, at: int) -> ShapeView {
    let data = view.nodes[refs[at]];
    ShapeView {
        class: data.class,
        name: data.name,
        children: sorted_refs(child_shapes(refs, numbers, data.children)),
    }
}

/// The numbers of the shapes from a place on, counted from the end, and the
/// shapes in that order.
pub open spec fn shaped(view: TreeView, refs: Seq<Ref>, from: int) -> (Map<int, nat>, Seq<ShapeView>)
    decreases refs.len() - from,
{
    if from < 0 || from >= refs.len() {
        (Map::empty(), Seq::empty())
    } else {
        let after = shaped(view, refs, from + 1);
        let number = interned(after.1, shape_of(view, refs, after.0, from));
        (after.0.insert(from, number.0), number.1)
    }
}

/// Every managed child stands after its parent.
pub open spec fn in_preorder(view: TreeView, refs: Seq<Ref>) -> bool {
    forall|at: int, k: int|
        0 <= at < refs.len() && 0 <= k < view.nodes[refs[at]].children.len() ==> (last_place(
            refs,
            #[trigger] view.nodes[refs[at]].children[k],
        ) matches Some(place) ==> place > at)
}

/// Two managed children of an instance have the same class and name but
/// different shapes.
pub open spec fn mixed(view: TreeView, refs: Seq<Ref>, numbers: Map<int, nat>, at: int) -> bool {
    exists|i: int, j: int|
        #![trigger view.nodes[refs[at]].children[i], view.nodes[refs[at]].children[j]]
        differ(view, refs, numbers, view.nodes[refs[at]].children, i, j)
}

pub open spec fn differ(
    view: TreeView,
    refs: Seq<Ref>,
    numbers: Map<int, nat>,
    children: Seq<Ref>,
    i: int,
    j: int,
) -> bool {
    &&& 0 <= i < j < children.len()
    &&& last_place(refs, children[i]) is Some
    &&& last_place(refs, children[j]) is Some
    &&& view.nodes[children[i]].class == view.nodes[children[j]].class
    &&& view.nodes[children[i]].name == view.nodes[children[j]].name
    &&& numbers[last_place(refs, children[i])->0] != numbers[last_place(refs, children[j])->0]
}

proof fn lemma_shaped(view: TreeView, refs: Seq<Ref>, from: int)
    requires
        0 <= from <= refs.len(),
    ensures
        shaped(view, refs, from).0.dom() =~= Set::new(|at: int| from <= at < refs.len()),
        shaped(view, refs, from).1.len() <= refs.len() - from,
        forall|at: int|
            from <= at < refs.len() ==> #[trigger] shaped(view, refs, from).0[at] < shaped(view, refs, from).1.len(),
    decreases refs.len() - from,
{
    if from < refs.len() {
        lemma_shaped(view, refs, from + 1);
        let after = shaped(view, refs, from + 1);
        let shape = shape_of(view, refs, after.0, from);
        if after.1.contains(shape) {
            assert(0 <= after.1.index_of(shape) < after.1.len());
        }
    }
}

/// The identity of an instance among its siblings, as a shape without children.
spec fn label(view: TreeView, id: Ref) -> ShapeView {
    ShapeView { class: view.nodes[id].class, name: view.nodes[id].name, children: Seq::empty() }
}

/// The numbers as machine numbers.
spec fn numbered(numbers: Seq<u32>, map: Map<int, nat>) -> bool {
    forall|at: int| 0 <= at < numbers.len() ==> #[trigger] map[at] == numbers[at]
}

fn is_mixed(tree: &Tree, refs: &Vec<Ref>, index: &HashMap<u128, usize>, numbers: &Vec<u32>, at: usize) -> (found:
    bool)
    requires
        tree.wf(),
        at < refs@.len(),
        numbers@.len() == refs@.len(),
        places(index@, refs@),
        tree@.has(refs@[at as int]),
        forall|k: int| 0 <= k < refs@.len() ==> tree@.has(#[trigger] refs@[k]),
        numbered(numbers@, shaped(tree@, refs@, 0).0),
    ensures
        found == mixed(tree@, refs@, shaped(tree@, refs@, 0).0, at as int),
{
    let ghost view = tree@;
    let ghost map = shaped(tree@, refs@, 0).0;
    let node: &TreeNode = match tree.get_instance(refs[at]) {
        Some(node) => node,
        None => {
            return false;
        },
    };
    let children: &Vec<Ref> = node.children();
    let mut table: ShapeTable = ShapeTable::new();
    let mut seen: HashMap<usize, u32> = HashMap::new();
    let mut k: usize = 0;
    while k < children.len()
        invariant
            k <= children@.len(),
            tree.wf(),
            view == tree@,
            map == shaped(tree@, refs@, 0).0,
            children@ == view.nodes[refs@[at as int]].children,
            numbers@.len() == refs@.len(),
            places(index@, refs@),
            forall|i: int| 0 <= i < refs@.len() ==> view.has(#[trigger] refs@[i]),
            numbered(numbers@, map),
            table.wf(),
            forall|i: int, j: int| 0 <= i < j < k ==> !#[trigger] differ(view, refs@, map, children@, i, j),
            forall|i: int|
                0 <= i < k && last_place(refs@, #[trigger] children@[i]) is Some ==> {
                    &&& table.shapes().contains(label(view, children@[i]))
                    &&& seen@.dom().contains(table.shapes().index_of(label(view, children@[i])) as usize)
                    &&& seen@[table.shapes().index_of(label(view, children@[i])) as usize]
                        == map[last_place(refs@, children@[i])->0]
                },
            forall|number: usize| #[trigger]
                seen@.dom().contains(number) ==> number < table.shapes().len() && exists|i: int|
                    0 <= i < k && last_place(refs@, #[trigger] children@[i]) is Some && label(view, children@[i])
                        == table.shapes()[number as int],
        decreases children@.len() - k,
    {
        let child: Ref = children[k];
        proof {
            lemma_last_place(refs@, child);
            assert(index@.dom().contains(child) == (last_place(refs@, child) is Some));
        }
        match index.get(&child) {
            None => {
                proof {
                    assert forall|i: int, j: int| 0 <= i < j < k + 1 implies !#[trigger] differ(
                        view,
                        refs@,
                        map,
                        children@,
                        i,
                        j,
                    ) by {
                        if j == k {
                            assert(last_place(refs@, children@[j]) is None);
                        }
                    }
                }
            },
            Some(place) => {
                let number: u32 = numbers[*place];
                proof {
                    assert(map[*place as int] == numbers@[*place as int]);
                    assert(view.has(refs@[*place as int]));
                }
                let shape: Shape = match tree.get_instance(child) {
                    Some(found) => Shape {
                        class: found.class().to_owned(),
                        name: found.name().to_owned(),
                        children: Vec::new(),
                    },
                    None => Shape { class: String::new(), name: String::new(), children: Vec::new() },
                };
                proof {
                    assert(shape@ =~= label(view, child));
                }
                let ghost before = table.shapes();
                let key: usize = table.intern(shape);
                let ghost wanted = label(view, child);
                proof {
                    assert(table.shapes()[key as int] == wanted);
                    assert(table.shapes().contains(wanted));
                    assert(table.shapes().index_of(wanted) == key);
                    assert forall|other: ShapeView| before.contains(other) implies table.shapes().contains(
                        other,
                    ) && table.shapes().index_of(other) == before.index_of(other) by {
                        let i = before.index_of(other);
                        assert(before[i] == other);
                        assert(table.shapes()[i] == other);
                    }
                }
                match seen.get(&key) {
                    Some(first) => {
                        proof {
                            assert(seen@.dom().contains(key));
                            let i = choose|i: int|
                                0 <= i < k && last_place(refs@, #[trigger] children@[i]) is Some && label(
                                    view,
                                    children@[i],
                                ) == before[key as int];
                            assert(before[key as int] == wanted);
                            assert(label(view, children@[i]) == wanted);
                            assert(view.nodes[children@[i]].class == wanted.class);
                            assert(view.nodes[children@[i]].name == wanted.name);
                            if *first != number {
                                assert(differ(view, refs@, map, children@, i, k as int));
                                assert(view.nodes[refs@[at as int]].children[i] == children@[i]);
                                assert(view.nodes[refs@[at as int]].children[k as int] == children@[k as int]);
                            }
                        }
                        if *first != number {
                            return true;
                        }
                    },
                    None => {},
                }
                let ghost seen_before = seen@;
                seen.insert(key, number);
                proof {
                    assert forall|i: int| 0 <= i < k + 1 && last_place(refs@, #[trigger] children@[i]) is Some implies {
                        &&& table.shapes().contains(label(view, children@[i]))
                        &&& seen@.dom().contains(table.shapes().index_of(label(view, children@[i])) as usize)
                        &&& seen@[table.shapes().index_of(label(view, children@[i])) as usize]
                            == map[last_place(refs@, children@[i])->0]
                    } by {
                        if i < k {
                            let other = label(view, children@[i]);
                            assert(before.contains(other));
                            if before.index_of(other) == key {
                                assert(before[key as int] == other);
                                assert(other == wanted);
                            }
                        }
                    }
                    assert forall|i: int, j: int| 0 <= i < j < k + 1 implies !#[trigger] differ(
                        view,
                        refs@,
                        map,
                        children@,
                        i,
                        j,
                    ) by {
                        if j == k && differ(view, refs@, map, children@, i, j) {
                            assert(last_place(refs@, children@[i]) is Some);
                            assert(label(view, children@[i]) == wanted);
                            assert(before.contains(wanted));
                            assert(seen_before[key] == map[last_place(refs@, children@[i])->0]);
                        }
                    }
                    assert forall|other: usize| #[trigger] seen@.dom().contains(other) implies other
                        < table.shapes().len() && exists|i: int|
                        0 <= i < k + 1 && last_place(refs@, #[trigger] children@[i]) is Some && label(
                            view,
                            children@[i],
                        ) == table.shapes()[other as int] by {
                        if other == key {
                            assert(last_place(refs@, children@[k as int]) is Some);
                        } else {
                            assert(seen_before.dom().contains(other));
                            let i = choose|i: int|
                                0 <= i < k && last_place(refs@, #[trigger] children@[i]) is Some && label(
                                    view,
                                    children@[i],
                                ) == before[other as int];
                            assert(before[other as int] == table.shapes()[other as int]);
                        }
                    }
                }
            },
        }
        k = k + 1;
    }
    proof {
        if mixed(view, refs@, map, at as int) {
            let (i, j) = choose|i: int, j: int|
                #![trigger view.nodes[refs@[at as int]].children[i], view.nodes[refs@[at as int]].children[j]]
                differ(view, refs@, map, view.nodes[refs@[at as int]].children, i, j);
            assert(differ(view, refs@, map, children@, i, j));
        }
    }
    false
}

/// The numbers of the shapes of all managed instances.
fn shape_numbers(tree: &Tree, refs: &Vec<Ref>, index: &HashMap<u128, usize>) -> (numbers: Result<
    Vec<u32>,
    ManagedError,
>)
    requires
        tree.wf(),
        refs@.len() <= u32::MAX,
        places(index@, refs@),
        forall|k: int| 0 <= k < refs@.len() ==> tree@.has(#[trigger] refs@[k]),
    ensures
        match numbers {
            Ok(numbers) => in_preorder(tree@, refs@) && numbers@.len() == refs@.len() && numbered(
                numbers@,
                shaped(tree@, refs@, 0).0,
            ),
            Err(error) => !in_preorder(tree@, refs@) && error == ManagedError::ShapeUnavailable,
        },
{
    let ghost view = tree@;
    let len: usize = refs.len();
    let mut numbers: Vec<u32> = Vec::new();
    while numbers.len() < len
        invariant
            numbers@.len() <= len,
        decreases len - numbers@.len(),
    {
        numbers.push(u32::MAX);
    }
    let mut table: ShapeTable = ShapeTable::new();
    let mut at: usize = len;
    while at > 0
        invariant
            at <= len,
            len == refs@.len(),
            len <= u32::MAX,
            tree.wf(),
            view == tree@,
            places(index@, refs@),
            forall|k: int| 0 <= k < refs@.len() ==> view.has(#[trigger] refs@[k]),
            numbers@.len() == len,
            table.wf(),
            table.shapes() == shaped(view, refs@, at as int).1,
            forall|k: int|
                at <= k < len ==> #[trigger] shaped(view, refs@, at as int).0[k] == numbers@[k],
            forall|i: int, k: int|
                at <= i < refs@.len() && 0 <= k < view.nodes[refs@[i]].children.len() ==> (last_place(
                    refs@,
                    #[trigger] view.nodes[refs@[i]].children[k],
                ) matches Some(place) ==> place > i),
        decreases at,
    {
        at = at - 1;
        let ghost after = shaped(view, refs@, at + 1);
        let mut list: Vec<u128> = Vec::new();
        proof {
            lemma_shaped(view, refs@, at + 1);
            assert(view.has(refs@[at as int]));
        }
        let (class, name) = match tree.get_instance(refs[at]) {
            Some(node) => {
                let children: &Vec<Ref> = node.children();
                let mut k: usize = 0;
                proof {
                    assert(children@.take(0) =~= Seq::empty());
                }
                while k < children.len()
                    invariant
                        k <= children@.len(),
                        at < len,
                        len == refs@.len(),
                        view == tree@,
                        places(index@, refs@),
                        numbers@.len() == len,
                        children@ == view.nodes[refs@[at as int]].children,
                        after == shaped(view, refs@, at + 1),
                        forall|i: int| at < i < len ==> #[trigger] after.0[i] == numbers@[i],
                        list@ == child_shapes(refs@, after.0, children@.take(k as int)),
                        forall|i: int|
                            0 <= i < k ==> (last_place(
                                refs@,
                                #[trigger] view.nodes[refs@[at as int]].children[i],
                            ) matches Some(place) ==> place > at),
                    decreases children@.len() - k,
                {
                    let child: Ref = children[k];
                    proof {
                        lemma_last_place(refs@, child);
                        assert(children@.take(k + 1).drop_last() =~= children@.take(k as int));
                        assert(index@.dom().contains(child) == (last_place(refs@, child) is Some));
                        assert(view.nodes[refs@[at as int]].children[k as int] == child);
                    }
                    match index.get(&child) {
                        Some(place) => {
                            if *place <= at {
                                return Err(ManagedError::ShapeUnavailable);
                            }
                            proof {
                                assert(after.0[*place as int] == numbers@[*place as int]);
                            }
                            list.push(numbers[*place] as u128);
                        },
                        None => {},
                    }
                    k = k + 1;
                }
                proof {
                    assert(children@.take(children@.len() as int) =~= children@);
                }
                (node.class().to_owned(), node.name().to_owned())
            },
            None => {
                proof {
                    assert(false);
                }
                (String::new(), String::new())
            },
        };
        let shape = Shape { class, name, children: sort_refs(&list) };
        proof {
            assert(shape@ =~= shape_of(view, refs@, after.0, at as int));
        }
        let number: usize = table.intern(shape);
        proof {
            lemma_shaped(view, refs@, at as int);
            assert(shaped(view, refs@, at as int).0[at as int] == number);
        }
        numbers[at] = number as u32;
    }
    Ok(numbers)
}

// ---------------------------------------------------------------------------
// The payload

/// The record of a managed instance.
pub open spec fn record(view: TreeView, refs: Seq<Ref>, numbers: Map<int, nat>, at: int) -> Result<
    Seq<u8>,
    ManagedError,
> {
    let data = view.nodes[refs[at]];
    let class = text_bytes(data.class);
    let name = text_bytes(data.name);
    if at != 0 && last_place(refs, data.parent) is None {
        Err(ManagedError::ParentExcluded)
    } else if class.len() > u16::MAX {
        Err(ManagedError::ClassTooLong)
    } else if name.len() > u32::MAX {
        Err(ManagedError::NameTooLong)
    } else {
        let parent = if at == 0 {
            u32::MAX as nat
        } else {
            last_place(refs, data.parent)->0 as nat
        };
        Ok(
            be_bytes(refs[at] as nat, 16) + le_bytes(parent, 4) + le_bytes(numbers[at], 4) + seq![
                if mixed(view, refs, numbers, at) {
                    1u8
                } else {
                    0u8
                },
            ] + le_bytes(class.len(), 2) + le_bytes(name.len(), 4) + class + name,
        )
    }
}

/// The first `count` records, or the first thing wrong with them.
pub open spec fn records(view: TreeView, refs: Seq<Ref>, numbers: Map<int, nat>, count: nat) -> Result<
    Seq<u8>,
    ManagedError,
>
    decreases count,
{
    if count == 0 {
        Ok(Seq::empty())
    } else {
        match records(view, refs, numbers, (count - 1) as nat) {
            Err(error) => Err(error),
            Ok(before) => match record(view, refs, numbers, count - 1) {
                Err(error) => Err(error),
                Ok(bytes) => Ok(before + bytes),
            },
        }
    }
}

proof fn lemma_failed_record(view: TreeView, refs: Seq<Ref>, numbers: Map<int, nat>, at: nat, count: nat)
    requires
        at <= count,
    ensures
        records(view, refs, numbers, at) is Err ==> records(view, refs, numbers, count) == records(
            view,
            refs,
            numbers,
            at,
        ),
    decreases count,
{
    if at < count {
        lemma_failed_record(view, refs, numbers, at, (count - 1) as nat);
    }
}

/// What a contract stands for.
#[verifier::ext_equal]
pub struct ContractView {
    pub payload: Seq<u8>,
    pub source_instances: nat,
    pub excluded_source_ids: Seq<Ref>,
    pub source_ids: Set<Ref>,
}

/// The contract of the managed instances of a selection: a magic word, their
/// number and a record of each, every parent before its children.
pub open spec fn contract_of(view: TreeView, selected: Option<Set<Ref>>) -> Result<ContractView, ManagedError> {
    let walk = walked(view, selected);
    let refs = walk.refs;
    let numbers = shaped(view, refs, 0).0;
    if refs.len() > u32::MAX {
        Err(ManagedError::TooManyInstances)
    } else if !in_preorder(view, refs) {
        Err(ManagedError::ShapeUnavailable)
    } else {
        match records(view, refs, numbers, refs.len()) {
            Err(error) => Err(error),
            Ok(bytes) => Ok(
                ContractView {
                    payload: text_bytes("CARBONID4"@) + le_bytes(refs.len(), 4) + bytes,
                    source_instances: refs.len(),
                    excluded_source_ids: walk.excluded,
                    source_ids: refs.to_set(),
                },
            ),
        }
    }
}

/// What a serve session manages.
#[derive(Debug)]
pub struct ManagedHierarchyContract {
    pub contract_id: String,
    pub payload: Vec<u8>,
    pub source_instances: u32,
    pub excluded_source_ids: Vec<Ref>,
    pub source_ids: HashSet<u128>,
}

impl View for ManagedHierarchyContract {
    type V = ContractView;

    open spec fn view(&self) -> ContractView {
        ContractView {
            payload: self.payload@,
            source_instances: self.source_instances as nat,
            excluded_source_ids: self.excluded_source_ids@,
            source_ids: self.source_ids@,
        }
    }
}

/// A text that a contract is known by: 32 hexadecimal digits, without capitals.
pub open spec fn is_contract_id(text: Seq<char>) -> bool {
    text.len() == 32 && forall|k: int|
        0 <= k < text.len() ==> '0' <= (#[trigger] text[k]) <= '9' || 'a' <= text[k] <= 'f'
}

/// `Uuid::new_v4` of `uuid` in its simple form: 32 lower-case hexadecimal digits at random.
#[verifier::external_body]
pub(crate) fn random_id() -> (id: String)
    ensures
        is_contract_id(id@),
{
    uuid::Uuid::new_v4().simple().to_string()
}

/// Every listed identity is an instance.
spec fn all_known(view: TreeView, refs: Seq<Ref>) -> bool {
    forall|k: int| 0 <= k < refs.len() ==> view.has(#[trigger] refs[k])
}

proof fn lemma_walk_known(view: TreeView, selected: Option<Set<Ref>>, id: Ref, walk: WalkView)
    requires
        view.wf(),
        view.has(id),
        all_known(view, walk.refs),
    ensures
        all_known(view, walk_node(view, selected, id, walk).refs),
    decreases headroom(view, id), 1nat, 0nat,
{
    if chosen(selected, id) && !is_left_out(view, id, walk.cameras) {
        lemma_all_children(view, id);
        let next = WalkView {
            refs: walk.refs.push(id),
            cameras: cameras_after(view.nodes[id], walk.cameras),
            excluded: walk.excluded,
        };
        assert forall|k: int| 0 <= k < next.refs.len() implies view.has(#[trigger] next.refs[k]) by {
            if k < walk.refs.len() {
                assert(next.refs[k] == walk.refs[k]);
            }
        }
        lemma_walk_list_known(view, selected, view.nodes[id].children, id, next);
    }
}

proof fn lemma_walk_list_known(
    view: TreeView,
    selected: Option<Set<Ref>>,
    list: Seq<Ref>,
    parent: Ref,
    walk: WalkView,
)
    requires
        view.wf(),
        are_children(view, list, parent),
        all_known(view, walk.refs),
    ensures
        all_known(view, walk_list(view, selected, list, parent, walk).refs),
    decreases headroom(view, parent), 0nat, list.len(),
{
    if list.len() > 0 {
        let shorter = list.drop_last();
        assert(view.has(list[list.len() - 1]));
        lemma_headroom(view, parent, list.last());
        assert forall|at: int| 0 <= at < shorter.len() implies view.has(#[trigger] shorter[at])
            && view.nodes[shorter[at]].parent == parent && shorter[at] != view.root by {
            assert(list[at] == shorter[at]);
        }
        lemma_walk_list_known(view, selected, shorter, parent, walk);
        lemma_walk_known(view, selected, list.last(), walk_list(view, selected, shorter, parent, walk));
    }
}

/// Appends the record of a managed instance.
fn push_record(
    tree: &Tree,
    refs: &Vec<Ref>,
    index: &HashMap<u128, usize>,
    numbers: &Vec<u32>,
    at: usize,
    payload: &mut Vec<u8>,
) -> (pushed: Result<(), ManagedError>)
    requires
        tree.wf(),
        at < refs@.len() <= u32::MAX,
        places(index@, refs@),
        numbers@.len() == refs@.len(),
        numbered(numbers@, shaped(tree@, refs@, 0).0),
        forall|k: int| 0 <= k < refs@.len() ==> tree@.has(#[trigger] refs@[k]),
    ensures
        match record(tree@, refs@, shaped(tree@, refs@, 0).0, at as int) {
            Ok(bytes) => pushed is Ok && final(payload)@ == old(payload)@ + bytes,
            Err(error) => pushed == Err::<(), ManagedError>(error),
        },
{
    let ghost view = tree@;
    let ghost map = shaped(tree@, refs@, 0).0;
    let id: Ref = refs[at];
    proof {
        assert(view.has(refs@[at as int]));
    }
    let node: &TreeNode = match tree.get_instance(id) {
        Some(node) => node,
        None => {
            proof {
                assert(false);
            }
            return Err(ManagedError::ParentExcluded);
        },
    };
    let parent: u32 = if at == 0 {
        u32::MAX
    } else {
        proof {
            lemma_last_place(refs@, view.nodes[id].parent);
            assert(index@.dom().contains(view.nodes[id].parent) == (last_place(refs@, view.nodes[id].parent) is Some));
        }
        match index.get(&node.parent()) {
            Some(place) => *place as u32,
            None => {
                return Err(ManagedError::ParentExcluded);
            },
        }
    };
    let class: &[u8] = node.class().as_bytes();
    let name: &[u8] = node.name().as_bytes();
    if class.len() > 65535 {
        return Err(ManagedError::ClassTooLong);
    }
    if name.len() > 4294967295 {
        return Err(ManagedError::NameTooLong);
    }
    let mode: u8 = if is_mixed(tree, refs, index, numbers, at) {
        1
    } else {
        0
    };
    push_be(payload, id, 16);
    push_le(payload, parent as u64, 4);
    push_le(payload, numbers[at] as u64, 4);
    payload.push(mode);
    push_le(payload, class.len() as u64, 2);
    push_le(payload, name.len() as u64, 4);
    push_bytes(payload, class);
    push_bytes(payload, name);
    proof {
        assert(map[at as int] == numbers@[at as int]);
        assert(payload@ =~= old(payload)@ + record(view, refs@, map, at as int)->Ok_0);
    }
    Ok(())
}

/// Encodes the managed instances of a selection.
pub fn encode_managed_hierarchy_selection(tree: &Tree, selected: Option<&HashSet<u128>>) -> (contract: Result<
    ManagedHierarchyContract,
    ManagedError,
>)
    requires
        tree.wf(),
    ensures
        match contract_of(tree@, selection_view(selected)) {
            Ok(expected) => contract matches Ok(found) && found@ == expected && is_contract_id(found.contract_id@),
            Err(error) => contract matches Err(found) && found == error,
        },
{
    let ghost view = tree@;
    let mut walk = Walk { refs: Vec::new(), cameras: HashSet::new(), excluded: Vec::new() };
    proof {
        assert(walk@ =~= (WalkView { refs: Seq::empty(), cameras: Set::empty(), excluded: Seq::empty() }));
        lemma_walk_known(
            view,
            selection_view(selected),
            view.root,
            WalkView { refs: Seq::empty(), cameras: Set::empty(), excluded: Seq::empty() },
        );
    }
    walk_tree(tree, selected, tree.root_ref(), &mut walk);
    let refs: Vec<Ref> = walk.refs;
    let excluded_source_ids: Vec<Ref> = walk.excluded;
    if refs.len() > 4294967295 {
        return Err(ManagedError::TooManyInstances);
    }
    let count: u32 = refs.len() as u32;
    let index: HashMap<u128, usize> = index_refs(&refs);
    let numbers: Vec<u32> = match shape_numbers(tree, &refs, &index) {
        Ok(numbers) => numbers,
        Err(error) => {
            return Err(error);
        },
    };
    let ghost map = shaped(view, refs@, 0).0;
    let mut payload: Vec<u8> = Vec::new();
    push_text(&mut payload, "CARBONID4");
    push_le(&mut payload, count as u64, 4);
    let ghost head = payload@;
    let mut source_ids: HashSet<u128> = HashSet::new();
    let mut at: usize = 0;
    proof {
        assert(refs@.take(0).to_set() =~= Set::empty());
        assert(head =~= text_bytes("CARBONID4"@) + le_bytes(refs@.len(), 4));
        assert(payload@ =~= head + Seq::<u8>::empty());
    }
    while at < refs.len()
        invariant
            at <= refs@.len(),
            refs@.len() <= u32::MAX,
            tree.wf(),
            view == tree@,
            map == shaped(view, refs@, 0).0,
            refs@ == walked(view, selection_view(selected)).refs,
            in_preorder(view, refs@),
            places(index@, refs@),
            numbers@.len() == refs@.len(),
            numbered(numbers@, map),
            forall|k: int| 0 <= k < refs@.len() ==> view.has(#[trigger] refs@[k]),
            source_ids@ == refs@.take(at as int).to_set(),
            records(view, refs@, map, at as nat) is Ok,
            payload@ == head + records(view, refs@, map, at as nat)->Ok_0,
        decreases refs@.len() - at,
    {
        proof {
            lemma_failed_record(view, refs@, map, (at + 1) as nat, refs@.len());
        }
        let ghost before = payload@;
        match push_record(tree, &refs, &index, &numbers, at, &mut payload) {
            Ok(_) => {},
            Err(error) => {
                return Err(error);
            },
        }
        source_ids.insert(refs[at]);
        proof {
            crate::hierarchy::lemma_taken_set(refs@, at as int);
            let bytes = record(view, refs@, map, at as int)->Ok_0;
            assert(payload@ =~= head + (records(view, refs@, map, at as nat)->Ok_0 + bytes));
        }
        at = at + 1;
    }
    proof {
        assert(refs@.take(refs@.len() as int) =~= refs@);
    }
    Ok(
        ManagedHierarchyContract {
            contract_id: random_id(),
            payload,
            source_instances: count,
            excluded_source_ids,
            source_ids,
        },
    )
}

/// Encodes a whole hierarchy.
pub fn encode_managed_hierarchy(tree: &Tree) -> (contract: Result<ManagedHierarchyContract, ManagedError>)
    requires
        tree.wf(),
    ensures
        match contract_of(tree@, None) {
            Ok(expected) => contract matches Ok(found) && found@ == expected && is_contract_id(found.contract_id@),
            Err(error) => contract matches Err(found) && found == error,
        },
{
    encode_managed_hierarchy_selection(tree, None)
}

// ---------------------------------------------------------------------------
// What a project serve manages

/// An instance that a project serve manages for its own sake: the root, a
/// service, an instance that a mapping or a route names, or anything below a
/// mapped root.
pub open spec fn managed_itself(
    view: TreeView,
    reflection: Reflection,
    mapped: Set<Ref>,
    routing: Set<Ref>,
    id: Ref,
) -> bool {
    ||| id == view.root
    ||| view.nodes[view.root].children.contains(id) && reflection.service(view.nodes[id].class)
    ||| mapped.contains(id)
    ||| routing.contains(id)
    ||| below_mapped(view, mapped, id)
}

/// A mapped instance whose parent is not mapped.
pub open spec fn mapped_root(view: TreeView, mapped: Set<Ref>, id: Ref) -> bool {
    mapped.contains(id) && view.nodes[id].parent != NO_REF && !mapped.contains(view.nodes[id].parent)
}

pub open spec fn below_mapped(view: TreeView, mapped: Set<Ref>, id: Ref) -> bool {
    exists|root: Ref| #[trigger] mapped_root(view, mapped, root) && below(view, id, root)
}

/// The instances that a project serve manages, with all their ancestors.
pub open spec fn project_selection(
    view: TreeView,
    reflection: Reflection,
    mapped: Set<Ref>,
    routing: Set<Ref>,
) -> Set<Ref> {
    Set::new(
        |id: Ref|
            view.has(id) && exists|lower: Ref|
                view.has(lower) && #[trigger] managed_itself(view, reflection, mapped, routing, lower) && below(
                    view,
                    lower,
                    id,
                ),
    )
}

/// Adds an instance and its ancestors to a selection.
fn select_ancestors(tree: &Tree, id: Ref, selected: &mut HashSet<u128>)
    requires
        tree.wf(),
        tree@.has(id),
    ensures
        forall|other: Ref| #[trigger]
            final(selected)@.contains(other) <==> old(selected)@.contains(other) || (tree@.has(other) && below(
                tree@,
                id,
                other,
            )),
{
    let ghost view = tree@;
    let mut current: Ref = id;
    selected.insert(id);
    proof {
        assert(view.has_depths(view.depths()));
    }
    while current != tree.root_ref()
        invariant
            tree.wf(),
            view == tree@,
            view.has_depths(view.depths()),
            view.has(id),
            view.has(current),
            forall|other: Ref| #[trigger]
                selected@.contains(other) || (view.has(other) && below(view, current, other)) <==> old(selected)@.contains(other) || (view.has(other) && below(view, id, other)),
            selected@.contains(current),
        decreases view.depths()[current],
    {
        proof {
            assert(view.depths()[view.nodes[current].parent] < view.depths()[current]);
            assert(view.has(view.nodes[current].parent));
        }
        let ghost before = selected@;
        let parent: Ref = match tree.get_instance(current) {
            Some(node) => node.parent(),
            None => {
                proof {
                    assert(false);
                }
                current
            },
        };
        selected.insert(parent);
        proof {
            assert forall|other: Ref| #[trigger]
                selected@.contains(other) || (view.has(other) && below(view, parent, other)) <==> old(selected)@.contains(other) || (view.has(other) && below(view, id, other)) by {
                assert(before.contains(other) || (view.has(other) && below(view, current, other)) <==> old(selected)@.contains(other) || (view.has(other) && below(view, id, other)));
                assert(below(view, parent, parent));
                assert(below(view, current, other) <==> other == current || below(view, parent, other));
            }
        }
        current = parent;
    }
    proof {
        assert forall|other: Ref| #[trigger]
            selected@.contains(other) <==> old(selected)@.contains(other) || (view.has(other) && below(
                view,
                id,
                other,
            )) by {
            assert(below(view, current, other) <==> other == current);
        }
    }
}

/// Encodes only the hierarchy that a project serve manages: engine route
/// anchors and filesystem-owned subtrees.
pub fn encode_project_managed_hierarchy(
    tree: &Tree,
    reflection: &Reflection,
    mapped_refs: &HashSet<u128>,
    routing_refs: &HashSet<u128>,
) -> (contract: Result<ManagedHierarchyContract, ManagedError>)
    requires
        tree.wf(),
    ensures
        if tree@.nodes[tree@.root].class != "DataModel"@ {
            contract matches Err(error) && error == ManagedError::RootNotDataModel
        } else if exists|id: Ref| #[trigger] mapped_refs@.contains(id) && !tree@.has(id) {
            contract matches Err(error) && (error matches ManagedError::MappedMissing(id) && mapped_refs@.contains(
                id,
            ) && !tree@.has(id))
        } else if exists|id: Ref| #[trigger] routing_refs@.contains(id) && !tree@.has(id) {
            contract matches Err(error) && (error matches ManagedError::InstanceMissing(id)
                && routing_refs@.contains(id) && !tree@.has(id))
        } else {
            match contract_of(
                tree@,
                Some(project_selection(tree@, *reflection, mapped_refs@, routing_refs@)),
            ) {
                Ok(expected) => contract matches Ok(found) && found@ == expected && is_contract_id(found.contract_id@),
                Err(error) => contract matches Err(found) && found == error,
            }
        },
{
    let ghost view = tree@;
    let root: Ref = tree.root_ref();
    if !tree.root().class().eq("DataModel") {
        return Err(ManagedError::RootNotDataModel);
    }
    let mapped: Vec<Ref> = set_members(mapped_refs);
    let mut at: usize = 0;
    while at < mapped.len()
        invariant
            at <= mapped@.len(),
            tree.wf(),
            view == tree@,
            mapped@.to_set() == mapped_refs@,
            view.nodes[view.root].class == "DataModel"@,
            forall|k: int| 0 <= k < at ==> view.has(#[trigger] mapped@[k]),
        decreases mapped@.len() - at,
    {
        if !tree.contains(mapped[at]) {
            proof {
                assert(mapped@.contains(mapped@[at as int]));
                assert(mapped@.to_set().contains(mapped@[at as int]));
            }
            return Err(ManagedError::MappedMissing(mapped[at]));
        }
        at = at + 1;
    }
    proof {
        assert forall|id: Ref| #[trigger] mapped_refs@.contains(id) implies view.has(id) by {
            assert(mapped@.to_set().contains(id));
            let k = mapped@.index_of(id);
            assert(view.has(mapped@[k]));
        }
    }
    let routing: Vec<Ref> = set_members(routing_refs);
    let mut next: usize = 0;
    while next < routing.len()
        invariant
            next <= routing@.len(),
            tree.wf(),
            view == tree@,
            routing@.to_set() == routing_refs@,
            view.nodes[view.root].class == "DataModel"@,
            forall|id: Ref| #[trigger] mapped_refs@.contains(id) ==> view.has(id),
            forall|k: int| 0 <= k < next ==> view.has(#[trigger] routing@[k]),
        decreases routing@.len() - next,
    {
        if !tree.contains(routing[next]) {
            proof {
                assert(routing@.contains(routing@[next as int]));
                assert(routing@.to_set().contains(routing@[next as int]));
            }
            return Err(ManagedError::InstanceMissing(routing[next]));
        }
        next = next + 1;
    }
    proof {
        assert forall|id: Ref| #[trigger] routing_refs@.contains(id) implies view.has(id) by {
            assert(routing@.to_set().contains(id));
            let k = routing@.index_of(id);
            assert(view.has(routing@[k]));
        }
    }
    let selected: HashSet<u128> = select_project(tree, reflection, mapped_refs, &mapped, &routing);
    encode_managed_hierarchy_selection(tree, Some(&selected))
}

/// An instance is in a list or is one of its ancestors.
spec fn above_listed(view: TreeView, list: Seq<Ref>, id: Ref) -> bool {
    view.has(id) && exists|k: int| 0 <= k < list.len() && below(view, #[trigger] list[k], id)
}

fn select_all(tree: &Tree, list: &Vec<Ref>, selected: &mut HashSet<u128>)
    requires
        tree.wf(),
        forall|k: int| 0 <= k < list@.len() ==> tree@.has(#[trigger] list@[k]),
    ensures
        forall|id: Ref| #[trigger]
            final(selected)@.contains(id) <==> old(selected)@.contains(id) || above_listed(tree@, list@, id),
{
    let ghost view = tree@;
    let mut at: usize = 0;
    proof {
        assert forall|id: Ref| !above_listed(view, list@.take(0), id) by {}
    }
    while at < list.len()
        invariant
            at <= list@.len(),
            tree.wf(),
            view == tree@,
            forall|k: int| 0 <= k < list@.len() ==> view.has(#[trigger] list@[k]),
            forall|id: Ref| #[trigger]
                selected@.contains(id) <==> old(selected)@.contains(id) || above_listed(
                    view,
                    list@.take(at as int),
                    id,
                ),
        decreases list@.len() - at,
    {
        let ghost before = selected@;
        proof {
            assert(view.has(list@[at as int]));
        }
        select_ancestors(tree, list[at], selected);
        proof {
            let done = list@.take(at as int);
            let more = list@.take(at + 1);
            assert forall|id: Ref| #[trigger]
                selected@.contains(id) <==> old(selected)@.contains(id) || above_listed(view, more, id) by {
                assert(before.contains(id) <==> old(selected)@.contains(id) || above_listed(view, done, id));
                if above_listed(view, done, id) {
                    let k = choose|k: int| 0 <= k < done.len() && below(view, #[trigger] done[k], id);
                    assert(more[k] == done[k]);
                }
                if view.has(id) && below(view, list@[at as int], id) {
                    assert(more[at as int] == list@[at as int]);
                }
                if above_listed(view, more, id) {
                    let k = choose|k: int| 0 <= k < more.len() && below(view, #[trigger] more[k], id);
                    if k < at {
                        assert(done[k] == more[k]);
                    }
                }
            }
        }
        at = at + 1;
    }
    proof {
        assert(list@.take(list@.len() as int) =~= list@);
    }
}

/// The selection of a project serve.
fn select_project(
    tree: &Tree,
    reflection: &Reflection,
    mapped_refs: &HashSet<u128>,
    mapped: &Vec<Ref>,
    routing: &Vec<Ref>,
) -> (selected: HashSet<u128>)
    requires
        tree.wf(),
        mapped@.to_set() == mapped_refs@,
        forall|id: Ref| #[trigger] mapped_refs@.contains(id) ==> tree@.has(id),
        forall|id: Ref| #[trigger] routing@.to_set().contains(id) ==> tree@.has(id),
    ensures
        selected@ == project_selection(tree@, *reflection, mapped_refs@, routing@.to_set()),
{
    let ghost view = tree@;
    let ghost routes = routing@.to_set();
    let mut list: Vec<Ref> = Vec::new();
    list.push(tree.root_ref());
    proof {
        lemma_all_children(view, view.root);
        assert forall|k: int| 0 <= k < list@.len() implies view.has(#[trigger] list@[k]) && managed_itself(
            view,
            *reflection,
            mapped_refs@,
            routes,
            list@[k],
        ) by {}
        assert(list@[0] == view.root);
    }
    let children: &Vec<Ref> = tree.place_root_refs();
    let mut at: usize = 0;
    while at < children.len()
        invariant
            at <= children@.len(),
            tree.wf(),
            view == tree@,
            children@ == view.nodes[view.root].children,
            are_children(view, children@, view.root),
            list@.len() > 0,
            list@[0] == view.root,
            forall|k: int|
                0 <= k < list@.len() ==> view.has(#[trigger] list@[k]) && managed_itself(
                    view,
                    *reflection,
                    mapped_refs@,
                    routes,
                    list@[k],
                ),
            forall|k: int|
                0 <= k < at && reflection.service(view.nodes[#[trigger] children@[k]].class) ==> list@.contains(
                    children@[k],
                ),
        decreases children@.len() - at,
    {
        let child: Ref = children[at];
        let ghost before = list@;
        proof {
            assert(view.has(children@[at as int]));
        }
        let service: bool = match tree.get_instance(child) {
            Some(node) => reflection.is_service(node.class()),
            None => false,
        };
        if service {
            list.push(child);
            proof {
                assert(view.nodes[view.root].children.contains(child));
                assert(list@[before.len() as int] == child);
            }
        }
        proof {
            assert forall|k: int|
                0 <= k < at + 1 && reflection.service(view.nodes[#[trigger] children@[k]].class) implies list@.contains(
                children@[k],
            ) by {
                if k < at {
                    let j = before.index_of(children@[k]);
                    assert(list@[j] == children@[k]);
                }
            }
        }
        at = at + 1;
    }
    let ghost services = list@;
    let mut next: usize = 0;
    while next < mapped.len()
        invariant
            next <= mapped@.len(),
            tree.wf(),
            view == tree@,
            mapped@.to_set() == mapped_refs@,
            forall|id: Ref| #[trigger] mapped_refs@.contains(id) ==> view.has(id),
            services.len() <= list@.len(),
            forall|k: int| 0 <= k < services.len() ==> #[trigger] list@[k] == services[k],
            forall|k: int|
                0 <= k < list@.len() ==> view.has(#[trigger] list@[k]) && managed_itself(
                    view,
                    *reflection,
                    mapped_refs@,
                    routes,
                    list@[k],
                ),
            forall|k: int| 0 <= k < next ==> list@.contains(#[trigger] mapped@[k]),
            forall|k: int, id: Ref|
                0 <= k < next && mapped_root(view, mapped_refs@, #[trigger] mapped@[k]) && view.has(id)
                    && #[trigger] below(view, id, mapped@[k]) ==> list@.contains(id),
        decreases mapped@.len() - next,
    {
        let id: Ref = mapped[next];
        let ghost before = list@;
        proof {
            assert(mapped@.contains(id));
            assert(mapped@.to_set().contains(id));
        }
        let parent: Ref = match tree.get_instance(id) {
            Some(node) => node.parent(),
            None => NO_REF,
        };
        list.push(id);
        let ghost with_id = list@;
        if parent != NO_REF && !mapped_refs.contains(&parent) {
            match tree.subtree_refs(id) {
                Ok(refs) => {
                    let mut refs = refs;
                    let ghost subtree = refs@;
                    list.append(&mut refs);
                    proof {
                        assert(mapped_root(view, mapped_refs@, id));
                        assert(list@ =~= with_id + subtree);
                        assert forall|k: int| 0 <= k < list@.len() implies view.has(#[trigger] list@[k])
                            && managed_itself(view, *reflection, mapped_refs@, routes, list@[k]) by {
                            if k >= with_id.len() {
                                let other = subtree[k - with_id.len()];
                                assert(list@[k] == other);
                                crate::tree::lemma_preorder_known(view, id);
                                assert(view.has(other));
                                assert(subtree.contains(other));
                                crate::tree::law_preorder_is_the_subtree(view, id, other);
                                assert(below_mapped(view, mapped_refs@, other));
                            } else if k < before.len() {
                                assert(list@[k] == before[k]);
                            } else {
                                assert(list@[k] == id);
                            }
                        }
                    }
                },
                Err(_) => {},
            }
        }
        proof {
            assert forall|k: int| 0 <= k < before.len() implies #[trigger] list@[k] == before[k] by {}
            assert forall|k: int| 0 <= k < next + 1 implies list@.contains(#[trigger] mapped@[k]) by {
                if k < next {
                    let j = before.index_of(mapped@[k]);
                    assert(list@[j] == mapped@[k]);
                } else {
                    assert(list@[before.len() as int] == id);
                }
            }
            assert forall|k: int, other: Ref|
                0 <= k < next + 1 && mapped_root(view, mapped_refs@, #[trigger] mapped@[k]) && view.has(other)
                    && #[trigger] below(view, other, mapped@[k]) implies list@.contains(other) by {
                if k < next {
                    assert(before.contains(other));
                    let j = before.index_of(other);
                    assert(list@[j] == other);
                } else {
                    crate::tree::law_preorder_is_the_subtree(view, id, other);
                    let subtree = crate::tree::preorder(view, id);
                    let j = subtree.index_of(other);
                    assert(list@[with_id.len() + j] == other);
                }
            }
        }
        next = next + 1;
    }
    let ghost mapped_list = list@;
    let mut route: usize = 0;
    while route < routing.len()
        invariant
            route <= routing@.len(),
            view == tree@,
            routes == routing@.to_set(),
            forall|id: Ref| #[trigger] routes.contains(id) ==> view.has(id),
            mapped_list.len() <= list@.len(),
            forall|k: int| 0 <= k < mapped_list.len() ==> #[trigger] list@[k] == mapped_list[k],
            forall|k: int|
                0 <= k < list@.len() ==> view.has(#[trigger] list@[k]) && managed_itself(
                    view,
                    *reflection,
                    mapped_refs@,
                    routes,
                    list@[k],
                ),
            forall|k: int| 0 <= k < route ==> list@.contains(#[trigger] routing@[k]),
        decreases routing@.len() - route,
    {
        let ghost before = list@;
        proof {
            assert(routing@.contains(routing@[route as int]));
            assert(routes.contains(routing@[route as int]));
        }
        list.push(routing[route]);
        proof {
            assert forall|k: int| 0 <= k < route + 1 implies list@.contains(#[trigger] routing@[k]) by {
                if k < route {
                    let j = before.index_of(routing@[k]);
                    assert(list@[j] == routing@[k]);
                } else {
                    assert(list@[before.len() as int] == routing@[k]);
                }
            }
        }
        route = route + 1;
    }
    proof {
        assert forall|id: Ref|
            view.has(id) && #[trigger] managed_itself(view, *reflection, mapped_refs@, routes, id) implies list@.contains(
            id,
        ) by {
            if id == view.root {
                assert(services[0] == list@[0]);
            } else if view.nodes[view.root].children.contains(id) && reflection.service(view.nodes[id].class) {
                let k = children@.index_of(id);
                assert(children@[k] == id);
                assert(services.contains(id));
                let j = services.index_of(id);
                assert(mapped_list[j] == services[j]);
                assert(list@[j] == id);
            } else if mapped_refs@.contains(id) {
                assert(mapped@.to_set().contains(id));
                let k = mapped@.index_of(id);
                assert(mapped@[k] == id);
                assert(mapped_list.contains(id));
                let j = mapped_list.index_of(id);
                assert(list@[j] == id);
            } else if routes.contains(id) {
                let k = routing@.index_of(id);
                assert(routing@[k] == id);
            } else {
                let root = choose|root: Ref| #[trigger] mapped_root(view, mapped_refs@, root) && below(view, id, root);
                assert(mapped@.to_set().contains(root));
                let k = mapped@.index_of(root);
                assert(mapped@[k] == root);
                assert(below(view, id, mapped@[k]));
                assert(mapped_list.contains(id));
                let j = mapped_list.index_of(id);
                assert(list@[j] == id);
            }
        }
    }
    let mut selected: HashSet<u128> = HashSet::new();
    select_all(tree, &list, &mut selected);
    proof {
        let wanted = project_selection(view, *reflection, mapped_refs@, routes);
        assert forall|id: Ref| selected@.contains(id) <==> wanted.contains(id) by {
            if above_listed(view, list@, id) {
                let k = choose|k: int| 0 <= k < list@.len() && below(view, #[trigger] list@[k], id);
                assert(managed_itself(view, *reflection, mapped_refs@, routes, list@[k]));
            }
            if wanted.contains(id) {
                let lower = choose|lower: Ref|
                    view.has(lower) && #[trigger] managed_itself(view, *reflection, mapped_refs@, routes, lower)
                        && below(view, lower, id);
                let k = list@.index_of(lower);
                assert(list@[k] == lower);
                assert(below(view, list@[k], id));
            }
        }
        assert(selected@ =~= wanted);
    }
    selected
}

// ---------------------------------------------------------------------------
// Authorization

/// The current contract and every identity that was ever part of one.
#[derive(Debug)]
pub struct ManagedHierarchyState {
    pub current: ManagedHierarchyContract,
    pub authorized_ids: HashSet<u128>,
}

/// Installs a contract. A removed identity stays authorized: its removal may
/// still have to be sent.
pub fn install_managed_hierarchy_contract(state: &mut ManagedHierarchyState, next: ManagedHierarchyContract)
    ensures
        final(state).current == next,
        final(state).authorized_ids@ == old(state).authorized_ids@.union(next.source_ids@),
{
    let members: Vec<Ref> = set_members(&next.source_ids);
    let mut at: usize = 0;
    proof {
        assert(members@.take(0).to_set() =~= Set::empty());
        assert(state.authorized_ids@ =~= old(state).authorized_ids@.union(Set::empty()));
    }
    while at < members.len()
        invariant
            at <= members@.len(),
            state.authorized_ids@ == old(state).authorized_ids@.union(members@.take(at as int).to_set()),
        decreases members@.len() - at,
    {
        state.authorized_ids.insert(members[at]);
        proof {
            crate::hierarchy::lemma_taken_set(members@, at as int);
            assert(state.authorized_ids@ =~= old(state).authorized_ids@.union(members@.take(at + 1).to_set()));
        }
        at = at + 1;
    }
    proof {
        assert(members@.take(members@.len() as int) =~= members@);
    }
    state.current = next;
}

} // verus!
