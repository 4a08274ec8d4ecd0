//! Dense mutable hierarchy used for reconciliation and canonical ownership.

use crate::hierarchy::{flat, flat_ids, flat_list, flat_views, FlatNode, FlatView};
use crate::snapshot::{
    bytes_view, lemma_children, nodes, stored_raw_name, take_raw_name, HierarchySnapshot, NodeView, Snapshot,
    SnapshotPage, UpdateView, UpdatedSnapshot, RAW_NAME_PROPERTY,
};
use crate::text::{
    is_before, joined, lemma_text_before_total, lemma_text_before_transitive, ref_chars, ref_text, text_before, text_bytes,
    texts,
};
use crate::variant::{Properties, Variant, VariantView};
use crate::{Ref, NO_REF};
use std::collections::{HashMap, HashSet};
use vstd::prelude::*;
use vstd::string::StringSliceAdditionalSpecFns;

verus! {

broadcast use vstd::std_specs::hash::group_hash_axioms;

// ---------------------------------------------------------------------------
// Identities in order

/// An ordered list with one identity more, after those that do not exceed it.
pub open spec fn with_ref(list: Seq<Ref>, id: Ref) -> Seq<Ref>
    decreases list.len(),
{
    if list.len() == 0 || list.last() <= id {
        list.push(id)
    } else {
        with_ref(list.drop_last(), id).push(list.last())
    }
}

/// The identities in order.
pub open spec fn sorted_refs(list: Seq<Ref>) -> Seq<Ref>
    decreases list.len(),
{
    if list.len() == 0 {
        Seq::empty()
    } else {
        with_ref(sorted_refs(list.drop_last()), list.last())
    }
}

/// Each identity is at most the next.
pub open spec fn ascending(list: Seq<Ref>) -> bool {
    forall|i: int, j: int| 0 <= i <= j < list.len() ==> list[i] <= list[j]
}

proof fn lemma_with_ref(list: Seq<Ref>, id: Ref)
    ensures
        with_ref(list, id).len() == list.len() + 1,
        forall|other: Ref| #[trigger] with_ref(list, id).contains(other) <==> list.contains(other) || other == id,
        ascending(list) ==> ascending(with_ref(list, id)),
        list.no_duplicates() && !list.contains(id) ==> with_ref(list, id).no_duplicates(),
    decreases list.len(),
{
    let all = with_ref(list, id);
    if list.len() == 0 || list.last() <= id {
        assert forall|other: Ref| #[trigger] all.contains(other) <==> list.contains(other) || other == id by {
            if list.contains(other) {
                let k = list.index_of(other);
                assert(all[k] == other);
            }
            if all.contains(other) {
                let k = all.index_of(other);
                if k < list.len() {
                    assert(list[k] == other);
                }
            }
            assert(all[list.len() as int] == id);
        }
        if ascending(list) {
            assert forall|i: int, j: int| 0 <= i <= j < all.len() implies all[i] <= all[j] by {
                if j == list.len() && i < j {
                    assert(list[i] <= list[list.len() - 1]);
                }
            }
        }
        if list.no_duplicates() && !list.contains(id) {
            assert forall|i: int, j: int| 0 <= i < all.len() && 0 <= j < all.len() && i != j implies all[i]
                != all[j] by {
                if i < list.len() {
                    assert(list.contains(list[i]));
                }
                if j < list.len() {
                    assert(list.contains(list[j]));
                }
            }
        }
    } else {
        let shorter = list.drop_last();
        lemma_with_ref(shorter, id);
        let before = with_ref(shorter, id);
        assert forall|other: Ref| list.contains(other) <==> shorter.contains(other) || other == list.last() by {
            if list.contains(other) {
                let k = list.index_of(other);
                if k < shorter.len() {
                    assert(shorter[k] == other);
                }
            }
            if shorter.contains(other) {
                let k = shorter.index_of(other);
                assert(list[k] == other);
            }
            assert(list[list.len() - 1] == list.last());
        }
        assert forall|other: Ref| #[trigger] all.contains(other) <==> list.contains(other) || other == id by {
            if all.contains(other) {
                let k = all.index_of(other);
                if k < before.len() {
                    assert(before[k] == other);
                    assert(before.contains(other));
                }
            }
            if before.contains(other) {
                let k = before.index_of(other);
                assert(all[k] == other);
            }
            assert(all[all.len() - 1] == list.last());
        }
        if ascending(list) {
            assert forall|i: int, j: int| 0 <= i <= j < shorter.len() implies shorter[i] <= shorter[j] by {
                assert(list[i] <= list[j]);
            }
            assert forall|i: int, j: int| 0 <= i <= j < all.len() implies all[i] <= all[j] by {
                if j == before.len() && i < j {
                    assert(before.contains(before[i]));
                    if before[i] != id {
                        let k = shorter.index_of(before[i]);
                        assert(list[k] <= list[list.len() - 1]);
                    }
                }
            }
        }
        if list.no_duplicates() && !list.contains(id) {
            assert(shorter.no_duplicates());
            assert(!shorter.contains(id));
            assert(!before.contains(list.last())) by {
                if shorter.contains(list.last()) {
                    let k = shorter.index_of(list.last());
                    assert(list[k] == list[list.len() - 1]);
                }
            }
            assert forall|i: int, j: int| 0 <= i < all.len() && 0 <= j < all.len() && i != j implies all[i]
                != all[j] by {
                if i < before.len() {
                    assert(before.contains(before[i]));
                }
                if j < before.len() {
                    assert(before.contains(before[j]));
                }
            }
        }
    }
}

pub proof fn lemma_sorted_refs(list: Seq<Ref>)
    ensures
        sorted_refs(list).len() == list.len(),
        ascending(sorted_refs(list)),
        forall|id: Ref| #[trigger] sorted_refs(list).contains(id) <==> list.contains(id),
        list.no_duplicates() ==> sorted_refs(list).no_duplicates(),
    decreases list.len(),
{
    if list.len() > 0 {
        let shorter = list.drop_last();
        lemma_sorted_refs(shorter);
        lemma_with_ref(sorted_refs(shorter), list.last());
        assert forall|id: Ref| list.contains(id) <==> shorter.contains(id) || id == list.last() by {
            if list.contains(id) {
                let k = list.index_of(id);
                if k < shorter.len() {
                    assert(shorter[k] == id);
                }
            }
            if shorter.contains(id) {
                let k = shorter.index_of(id);
                assert(list[k] == id);
            }
            assert(list[list.len() - 1] == list.last());
        }
        if list.no_duplicates() {
            assert(shorter.no_duplicates());
            if shorter.contains(list.last()) {
                let k = shorter.index_of(list.last());
                assert(list[k] == list[list.len() - 1]);
            }
        }
    }
}

proof fn lemma_with_ref_place(list: Seq<Ref>, id: Ref, place: int)
    requires
        0 <= place <= list.len(),
        forall|i: int| 0 <= i < place ==> list[i] <= id,
        forall|i: int| place <= i < list.len() ==> list[i] > id,
    ensures
        with_ref(list, id) == list.insert(place, id),
    decreases list.len(),
{
    if place < list.len() {
        lemma_with_ref_place(list.drop_last(), id, place);
        assert(list.drop_last().insert(place, id).push(list.last()) =~= list.insert(place, id));
    } else {
        assert(list.push(id) =~= list.insert(place, id));
    }
}

fn insert_ref(list: &mut Vec<Ref>, id: Ref)
    requires
        ascending(old(list)@),
    ensures
        final(list)@ == with_ref(old(list)@, id),
        ascending(final(list)@),
{
    let mut low: usize = 0;
    let mut high: usize = list.len();
    while low < high
        invariant
            low <= high <= list@.len(),
            list@ == old(list)@,
            ascending(list@),
            forall|i: int| 0 <= i < low ==> list@[i] <= id,
            forall|i: int| high <= i < list@.len() ==> list@[i] > id,
        decreases high - low,
    {
        let middle: usize = low + (high - low) / 2;
        if list[middle] <= id {
            low = middle + 1;
        } else {
            high = middle;
        }
    }
    proof {
        lemma_with_ref_place(list@, id, low as int);
        lemma_with_ref(list@, id);
    }
    list.insert(low, id);
}

/// The identities in order.
pub fn sort_refs(list: &Vec<Ref>) -> (sorted: Vec<Ref>)
    ensures
        sorted@ == sorted_refs(list@),
{
    let mut sorted: Vec<Ref> = Vec::new();
    let mut at: usize = 0;
    proof {
        assert(list@.take(0) =~= Seq::empty());
    }
    while at < list.len()
        invariant
            at <= list@.len(),
            sorted@ == sorted_refs(list@.take(at as int)),
            ascending(sorted@),
        decreases list@.len() - at,
    {
        insert_ref(&mut sorted, list[at]);
        proof {
            assert(list@.take(at + 1).drop_last() =~= list@.take(at as int));
        }
        at = at + 1;
    }
    proof {
        assert(list@.take(list@.len() as int) =~= list@);
    }
    sorted
}

// ---------------------------------------------------------------------------
// The tree

/// One instance of a tree.
#[derive(Debug)]
pub struct TreeNode {
    referent: Ref,
    parent: Ref,
    pub class: String,
    pub name: String,
    pub properties: Properties,
    children: Vec<Ref>,
}

#[verifier::ext_equal]
pub struct TreeNodeView {
    pub parent: Ref,
    pub class: Seq<char>,
    pub name: Seq<char>,
    pub properties: Map<Seq<char>, VariantView>,
    pub children: Seq<Ref>,
}

impl View for TreeNode {
    type V = TreeNodeView;

    closed spec fn view(&self) -> TreeNodeView {
        TreeNodeView {
            parent: self.parent,
            class: self.class@,
            name: self.name@,
            properties: self.properties.deep(),
            children: self.children@,
        }
    }
}

impl TreeNode {
    pub closed spec fn id(self) -> Ref {
        self.referent
    }

    pub fn referent(&self) -> (id: Ref)
        ensures
            id == self.id(),
    {
        self.referent
    }

    pub fn parent(&self) -> (id: Ref)
        ensures
            id == self@.parent,
    {
        self.parent
    }

    pub fn children(&self) -> (children: &Vec<Ref>)
        ensures
            children@ == self@.children,
    {
        &self.children
    }

    /// The class.
    pub fn class(&self) -> (class: &str)
        ensures
            class@ == self@.class,
    {
        self.class.as_str()
    }

    /// The name.
    pub fn name(&self) -> (name: &str)
        ensures
            name@ == self@.name,
    {
        self.name.as_str()
    }

    /// The properties.
    pub fn properties(&self) -> (properties: &Properties)
        ensures
            properties.deep() == self@.properties,
    {
        &self.properties
    }
}

/// An instance arena with the position of each identity.
#[derive(Debug)]
pub struct Tree {
    nodes: Vec<TreeNode>,
    by_ref: HashMap<u128, usize>,
    root_ref: Ref,
}

/// What a tree stands for.
#[verifier::ext_equal]
pub struct TreeView {
    pub root: Ref,
    pub nodes: Map<Ref, TreeNodeView>,
}

impl TreeView {
    pub open spec fn has(self, id: Ref) -> bool {
        self.nodes.dom().contains(id)
    }

    /// Every instance but the root is a child of its parent, and every child
    /// names its parent.
    pub open spec fn linked(self) -> bool {
        &&& self.nodes.dom().finite()
        &&& self.has(self.root)
        &&& !self.has(NO_REF)
        &&& self.nodes[self.root].parent == NO_REF
        &&& forall|id: Ref|
            self.has(id) && id != self.root ==> self.has(#[trigger] self.nodes[id].parent)
                && self.nodes[self.nodes[id].parent].children.contains(id)
        &&& forall|id: Ref, at: int|
            self.has(id) && 0 <= at < self.nodes[id].children.len() ==> {
                let child = #[trigger] self.nodes[id].children[at];
                self.has(child) && self.nodes[child].parent == id && child != self.root
            }
        &&& forall|id: Ref| self.has(id) ==> (#[trigger] self.nodes[id]).children.no_duplicates()
    }

    /// A depth for each instance that is greater than that of its parent.
    pub open spec fn has_depths(self, depths: Map<Ref, nat>) -> bool {
        forall|id: Ref|
            self.has(id) && id != self.root ==> #[trigger] depths[self.nodes[id].parent] < depths[id]
    }

    /// No instance stands below itself.
    pub open spec fn rooted(self) -> bool {
        exists|depths: Map<Ref, nat>| #[trigger] self.has_depths(depths)
    }

    pub open spec fn depths(self) -> Map<Ref, nat> {
        choose|depths: Map<Ref, nat>| #[trigger] self.has_depths(depths)
    }

    pub open spec fn wf(self) -> bool {
        self.linked() && self.rooted()
    }
}

impl View for Tree {
    type V = TreeView;

    closed spec fn view(&self) -> TreeView {
        TreeView {
            root: self.root_ref,
            nodes: Map::new(
                |id: Ref| self.by_ref@.dom().contains(id),
                |id: Ref| self.nodes@[self.by_ref@[id] as int]@,
            ),
        }
    }
}

impl Tree {
    /// Each identity has one position, and each position one identity.
    pub closed spec fn dense(self) -> bool {
        &&& self.by_ref@.dom().finite()
        &&& forall|id: Ref| #[trigger]
            self.by_ref@.dom().contains(id) ==> self.by_ref@[id] < self.nodes@.len()
                && self.nodes@[self.by_ref@[id] as int].referent == id
        &&& forall|at: int|
            0 <= at < self.nodes@.len() ==> self.by_ref@.dom().contains(
                (#[trigger] self.nodes@[at]).referent,
            ) && self.by_ref@[self.nodes@[at].referent] == at
    }

    pub open spec fn wf(self) -> bool {
        self.dense() && self@.wf()
    }

    pub fn contains(&self, id: Ref) -> (found: bool)
        ensures
            found == self@.has(id),
    {
        self.by_ref.contains_key(&id)
    }

    pub fn root_ref(&self) -> (id: Ref)
        ensures
            id == self@.root,
    {
        self.root_ref
    }

    pub fn get_instance(&self, id: Ref) -> (node: Option<&TreeNode>)
        requires
            self.dense(),
        ensures
            match node {
                Some(node) => self@.has(id) && node@ == self@.nodes[id] && node.id() == id,
                None => !self@.has(id),
            },
    {
        match self.by_ref.get(&id) {
            Some(at) => Some(&self.nodes[*at]),
            None => None,
        }
    }

    pub fn get_instance_mut(&mut self, id: Ref) -> (node: Option<&mut TreeNode>)
        requires
            old(self).dense(),
        ensures
            match node {
                Some(node) => {
                    &&& old(self)@.has(id)
                    &&& node@ == old(self)@.nodes[id]
                    &&& node.id() == id
                    &&& final(node).id() == id ==> final(self).dense() && final(self)@ == (TreeView {
                        nodes: old(self)@.nodes.insert(id, final(node)@),
                        ..old(self)@
                    })
                },
                None => !old(self)@.has(id) && *final(self) == *old(self),
            },
    {
        let at: usize = match self.by_ref.get(&id) {
            Some(at) => *at,
            None => {
                return None;
            },
        };
        let ghost before = *self;
        let node = &mut self.nodes[at];
        assert(node@ == before@.nodes[id]);
        Some(node)
    }

    pub fn root(&self) -> (node: &TreeNode)
        requires
            self.dense(),
            self@.has(self@.root),
        ensures
            node@ == self@.nodes[self@.root],
            node.id() == self@.root,
    {
        match self.get_instance(self.root_ref) {
            Some(node) => node,
            None => {
                proof {
                    assert(false);
                }
                &self.nodes[0]
            },
        }
    }

    pub fn place_root_refs(&self) -> (children: &Vec<Ref>)
        requires
            self.dense(),
            self@.has(self@.root),
        ensures
            children@ == self@.nodes[self@.root].children,
    {
        self.root().children()
    }
}

// ---------------------------------------------------------------------------
// Building

/// Why a tree cannot be built, changed or read.
#[derive(Debug)]
pub enum TreeError {
    RootWithoutId,
    NodeWithoutId,
    Duplicate(Ref),
    MultipleRoots,
    ParentMissing,
    SetAndRemoved(String),
    UpdatedMissing,
    RootMoved,
    DestinationMissing(Ref),
    BeneathItself,
    InstanceMissing(Ref),
    CursorUnknown,
}

impl TreeError {
    pub open spec fn text(self) -> Seq<char> {
        match self {
            TreeError::RootWithoutId => "tree root has no stable id"@,
            TreeError::NodeWithoutId => "tree node has no stable id"@,
            TreeError::Duplicate(id) => "duplicate tree referent "@ + ref_chars(id),
            TreeError::MultipleRoots => "tree has multiple roots"@,
            TreeError::ParentMissing => "tree parent is missing"@,
            TreeError::SetAndRemoved(property) => "property "@ + property@
                + " cannot be both set and removed"@,
            TreeError::UpdatedMissing => "updated instance is missing"@,
            TreeError::RootMoved => "cannot reparent the root instance"@,
            TreeError::DestinationMissing(id) => "destination parent "@ + ref_chars(id) + " is missing"@,
            TreeError::BeneathItself => "cannot reparent an instance beneath itself"@,
            TreeError::InstanceMissing(id) => "instance "@ + ref_chars(id) + " is missing"@,
            TreeError::CursorUnknown => "snapshot cursor contains an unknown instance"@,
        }
    }

    /// The text shown to a user.
    pub fn message(&self) -> (text: String)
        ensures
            text@ == self.text(),
    {
        match self {
            TreeError::RootWithoutId => "tree root has no stable id".to_owned(),
            TreeError::NodeWithoutId => "tree node has no stable id".to_owned(),
            TreeError::Duplicate(id) => joined("duplicate tree referent ", ref_text(*id).as_str()),
            TreeError::MultipleRoots => "tree has multiple roots".to_owned(),
            TreeError::ParentMissing => "tree parent is missing".to_owned(),
            TreeError::SetAndRemoved(property) => {
                let mut text: String = joined("property ", property.as_str());
                text.append(" cannot be both set and removed");
                text
            },
            TreeError::UpdatedMissing => "updated instance is missing".to_owned(),
            TreeError::RootMoved => "cannot reparent the root instance".to_owned(),
            TreeError::DestinationMissing(id) => {
                let mut text: String = joined("destination parent ", ref_text(*id).as_str());
                text.append(" is missing");
                text
            },
            TreeError::BeneathItself => "cannot reparent an instance beneath itself".to_owned(),
            TreeError::InstanceMissing(id) => {
                let mut text: String = joined("instance ", ref_text(*id).as_str());
                text.append(" is missing");
                text
            },
            TreeError::CursorUnknown => "snapshot cursor contains an unknown instance".to_owned(),
        }
    }
}

/// The properties of an instance, a raw name among them.
pub open spec fn stored_properties(
    properties: Map<Seq<char>, VariantView>,
    raw_name: Option<Seq<u8>>,
) -> Map<Seq<char>, VariantView> {
    match raw_name {
        Some(bytes) => properties.insert("__CarbonRawName"@, VariantView::BinaryString(bytes)),
        None => properties,
    }
}

/// What a tree stores of a node.
pub open spec fn data_of(flat: FlatView) -> TreeNodeView {
    TreeNodeView {
        parent: match flat.parent {
            Some(parent) => parent,
            None => NO_REF,
        },
        class: flat.node.class,
        name: flat.node.name,
        properties: stored_properties(flat.node.properties, flat.node.raw_name),
        children: sorted_refs(flat.node.children.map_values(|child: NodeView| child.id)),
    }
}

/// The instances after flat nodes have been stored, one after the other.
pub open spec fn placed(instances: Map<Ref, TreeNodeView>, list: Seq<FlatView>) -> Map<Ref, TreeNodeView>
    decreases list.len(),
{
    if list.len() == 0 {
        instances
    } else {
        placed(instances, list.drop_last()).insert(list.last().node.id, data_of(list.last()))
    }
}

proof fn lemma_placed_append(instances: Map<Ref, TreeNodeView>, a: Seq<FlatView>, b: Seq<FlatView>)
    ensures
        placed(instances, a + b) == placed(placed(instances, a), b),
    decreases b.len(),
{
    if b.len() == 0 {
        assert(a + b =~= a);
    } else {
        lemma_placed_append(instances, a, b.drop_last());
        assert((a + b).drop_last() =~= a + b.drop_last());
        assert((a + b).last() == b.last());
    }
}

proof fn lemma_placed(instances: Map<Ref, TreeNodeView>, list: Seq<FlatView>)
    ensures
        forall|id: Ref| #[trigger]
            placed(instances, list).dom().contains(id) <==> instances.dom().contains(id) || flat_ids(
                list,
            ).contains(id),
        forall|id: Ref|
            !flat_ids(list).contains(id) ==> #[trigger] placed(instances, list)[id] == instances[id],
        instances.dom().finite() ==> placed(instances, list).dom().finite(),
        flat_ids(list).no_duplicates() ==> forall|at: int|
            0 <= at < list.len() ==> placed(instances, list)[(#[trigger] list[at]).node.id] == data_of(list[at]),
    decreases list.len(),
{
    if list.len() > 0 {
        let shorter = list.drop_last();
        lemma_placed(instances, shorter);
        let ids = flat_ids(list);
        let fewer = flat_ids(shorter);
        assert(ids =~= fewer.push(list.last().node.id));
        assert forall|id: Ref| ids.contains(id) <==> fewer.contains(id) || id == list.last().node.id by {
            if ids.contains(id) {
                let k = ids.index_of(id);
                if k < fewer.len() {
                    assert(fewer[k] == id);
                }
            }
            if fewer.contains(id) {
                let k = fewer.index_of(id);
                assert(ids[k] == id);
            }
            assert(ids[ids.len() - 1] == list.last().node.id);
        }
        assert forall|id: Ref| #[trigger]
            placed(instances, list).dom().contains(id) <==> instances.dom().contains(id) || ids.contains(id) by {
            assert(placed(instances, shorter).dom().contains(id) <==> instances.dom().contains(id)
                || fewer.contains(id));
        }
        assert forall|id: Ref| !ids.contains(id) implies #[trigger] placed(instances, list)[id]
            == instances[id] by {
            assert(placed(instances, shorter)[id] == instances[id]);
        }
        if ids.no_duplicates() {
            assert forall|i: int, j: int| 0 <= i < fewer.len() && 0 <= j < fewer.len() && i != j implies fewer[i]
                != fewer[j] by {
                assert(ids[i] == fewer[i] && ids[j] == fewer[j]);
            }
            assert forall|at: int| 0 <= at < list.len() implies placed(instances, list)[(
            #[trigger] list[at]).node.id] == data_of(list[at]) by {
                if at < shorter.len() {
                    assert(shorter[at] == list[at]);
                    assert(ids[at] != ids[ids.len() - 1]);
                }
            }
        }
    }
}

proof fn lemma_flat_list_append(a: Seq<NodeView>, b: Seq<NodeView>, parent: Option<Ref>)
    ensures
        flat_list(a + b, parent) == flat_list(a, parent) + flat_list(b, parent),
    decreases b.len(),
{
    if b.len() == 0 {
        assert(a + b =~= a);
        assert(flat_list(a, parent) + flat_list(b, parent) =~= flat_list(a, parent));
    } else {
        lemma_flat_list_append(a, b.drop_last(), parent);
        assert((a + b).drop_last() =~= a + b.drop_last());
        assert((a + b).last() == b.last());
        assert(flat_list(a + b, parent) =~= flat_list(a, parent) + flat_list(b, parent));
    }
}

/// The flat list around one child.
pub proof fn lemma_flat_around(list: Seq<NodeView>, at: int, parent: Option<Ref>)
    requires
        0 <= at < list.len(),
    ensures
        flat_list(list, parent) == flat_list(list.take(at), parent) + flat(list[at], parent) + flat_list(
            list.skip(at + 1),
            parent,
        ),
        flat_list(list.take(at + 1), parent) == flat_list(list.take(at), parent) + flat(list[at], parent),
{
    assert(list.take(at + 1).drop_last() =~= list.take(at));
    assert(list.take(at + 1).last() == list[at]);
    lemma_flat_list_append(list.take(at + 1), list.skip(at + 1), parent);
    assert(list.take(at + 1) + list.skip(at + 1) =~= list);
}

proof fn lemma_distinct_middle(a: Seq<Ref>, b: Seq<Ref>, c: Seq<Ref>)
    requires
        (a + b + c).no_duplicates(),
    ensures
        b.no_duplicates(),
        forall|id: Ref| #[trigger] b.contains(id) ==> !a.contains(id),
{
    let all = a + b + c;
    assert forall|i: int, j: int| 0 <= i < b.len() && 0 <= j < b.len() && i != j implies b[i] != b[j] by {
        assert(all[a.len() + i] == b[i]);
        assert(all[a.len() + j] == b[j]);
    }
    assert forall|id: Ref| #[trigger] b.contains(id) implies !a.contains(id) by {
        if a.contains(id) {
            let i = a.index_of(id);
            let j = b.index_of(id);
            assert(all[i] == id);
            assert(all[a.len() + j] == id);
        }
    }
}

/// The first identity of a list that is taken or occurs before.
pub open spec fn conflict(taken: Set<Ref>, list: Seq<Ref>) -> Option<Ref>
    decreases list.len(),
{
    if list.len() == 0 {
        None
    } else {
        match conflict(taken, list.drop_last()) {
            Some(id) => Some(id),
            None => if taken.contains(list.last()) || list.drop_last().contains(list.last()) {
                Some(list.last())
            } else {
                None
            },
        }
    }
}

proof fn lemma_conflict_prefix(taken: Set<Ref>, list: Seq<Ref>, at: int)
    requires
        0 <= at <= list.len(),
    ensures
        conflict(taken, list.take(at)) is Some ==> conflict(taken, list) == conflict(taken, list.take(at)),
    decreases list.len(),
{
    if at == list.len() {
        assert(list.take(at) =~= list);
    } else {
        lemma_conflict_prefix(taken, list.drop_last(), at);
        assert(list.drop_last().take(at) =~= list.take(at));
    }
}

proof fn lemma_no_conflict(taken: Set<Ref>, list: Seq<Ref>)
    requires
        conflict(taken, list) is None,
    ensures
        list.no_duplicates(),
        forall|at: int| 0 <= at < list.len() ==> !taken.contains(#[trigger] list[at]),
    decreases list.len(),
{
    if list.len() > 0 {
        let shorter = list.drop_last();
        lemma_no_conflict(taken, shorter);
        assert forall|i: int, j: int| 0 <= i < list.len() && 0 <= j < list.len() && i != j implies list[i]
            != list[j] by {
            if i < shorter.len() {
                assert(shorter.contains(shorter[i]));
            }
            if j < shorter.len() {
                assert(shorter.contains(shorter[j]));
            }
            if i < shorter.len() && j < shorter.len() {
                assert(shorter[i] != shorter[j]);
            }
        }
        assert forall|at: int| 0 <= at < list.len() implies !taken.contains(#[trigger] list[at]) by {
            if at < shorter.len() {
                assert(shorter[at] == list[at]);
            }
        }
    }
}

impl Tree {
    /// Stores an instance under an identity that the tree does not hold.
    fn push_node(&mut self, node: TreeNode)
        requires
            old(self).dense(),
            !old(self)@.has(node.id()),
        ensures
            final(self).dense(),
            final(self)@ == (TreeView {
                nodes: old(self)@.nodes.insert(node.id(), node@),
                ..old(self)@
            }),
    {
        let at: usize = self.nodes.len();
        self.by_ref.insert(node.referent, at);
        self.nodes.push(node);
        proof {
            assert(self@.nodes =~= old(self)@.nodes.insert(node.id(), node@));
        }
    }

    /// Stores a node and everything below it.
    fn place(&mut self, snapshot: Snapshot, parent: Ref)
        requires
            old(self).dense(),
            flat_ids(flat(snapshot.node(), Some(parent))).no_duplicates(),
            forall|id: Ref| #[trigger]
                flat_ids(flat(snapshot.node(), Some(parent))).contains(id) ==> !old(self)@.has(id),
        ensures
            final(self).dense(),
            final(self)@ == (TreeView {
                nodes: placed(old(self)@.nodes, flat(snapshot.node(), Some(parent))),
                ..old(self)@
            }),
        decreases snapshot,
    {
        let ghost whole = snapshot.node();
        let ghost kids = snapshot.children@;
        let ghost views = whole.children;
        let ghost all = flat(whole, Some(parent));
        let ghost start = self@;
        proof {
            lemma_children(snapshot);
        }
        let mut properties = snapshot.properties;
        match snapshot.raw_name {
            Some(raw_name) => {
                let ghost before = properties.deep();
                let ghost bytes = raw_name@;
                properties.insert(RAW_NAME_PROPERTY.to_owned(), Variant::BinaryString(raw_name));
                proof {
                    assert(properties.deep() =~= before.insert(
                        "__CarbonRawName"@,
                        VariantView::BinaryString(bytes),
                    ));
                }
            },
            None => {},
        }
        let id: Ref = snapshot.id;
        let mut child_ids: Vec<Ref> = Vec::new();
        let mut at: usize = 0;
        while at < snapshot.children.len()
            invariant
                at <= snapshot.children@.len(),
                child_ids@.len() == at,
                forall|k: int| 0 <= k < at ==> child_ids@[k] == snapshot.children@[k].id,
            decreases snapshot.children@.len() - at,
        {
            child_ids.push(snapshot.children[at].id);
            at = at + 1;
        }
        proof {
            assert(child_ids@ =~= views.map_values(|child: NodeView| child.id));
            assert(flat_ids(all)[0] == id);
            assert(flat_ids(all).contains(id));
        }
        let node = TreeNode {
            referent: id,
            parent,
            class: snapshot.class,
            name: snapshot.name,
            properties,
            children: sort_refs(&child_ids),
        };
        let ghost head = seq![FlatView { parent: Some(parent), node: whole }];
        self.push_node(node);
        proof {
            assert(node@ == data_of(head[0]));
            assert(head.drop_last() =~= Seq::empty());
            reveal_with_fuel(placed, 2);
            assert(placed(start.nodes, head) =~= start.nodes.insert(id, node@));
            assert(views.take(0) =~= Seq::empty());
            assert(head + flat_list(views.take(0), Some(id)) =~= head);
        }
        for child in iter: snapshot.children
            invariant
                iter.seq() == kids,
                kids == snapshot.children@,
                views == snapshot.node().children,
                whole == snapshot.node(),
                whole.id == id,
                kids.len() == views.len(),
                forall|k: int| 0 <= k < kids.len() ==> #[trigger] views[k] == kids[k].node(),
                all == flat(whole, Some(parent)),
                head == seq![FlatView { parent: Some(parent), node: whole }],
                flat_ids(all).no_duplicates(),
                forall|id: Ref| #[trigger] flat_ids(all).contains(id) ==> !start.has(id),
                self.dense(),
                self@ == (TreeView {
                    nodes: placed(start.nodes, head + flat_list(views.take(iter.index()), Some(id))),
                    ..start
                }),
        {
            let ghost k = iter.index();
            let ghost done = head + flat_list(views.take(k), Some(id));
            let ghost here = flat(views[k], Some(id));
            let ghost rest = flat_list(views.skip(k + 1), Some(id));
            proof {
                assert(child == kids[k]);
                assert(decreases_to!(snapshot => child));
                lemma_flat_around(views, k, Some(id));
                assert(all =~= done + here + rest);
                assert(flat_ids(all) =~= flat_ids(done) + flat_ids(here) + flat_ids(rest));
                lemma_distinct_middle(flat_ids(done), flat_ids(here), flat_ids(rest));
                lemma_placed(start.nodes, done);
                assert forall|other: Ref| #[trigger] flat_ids(here).contains(other) implies !self@.has(other) by {
                    let at = flat_ids(here).index_of(other);
                    assert(flat_ids(all)[done.len() + at] == other);
                    assert(flat_ids(all).contains(other));
                }
            }
            self.place(child, id);
            proof {
                lemma_placed_append(start.nodes, done, here);
                assert(done + here =~= head + flat_list(views.take(k + 1), Some(id)));
            }
        }
        proof {
            assert(views.take(views.len() as int) =~= views);
            assert(self@.nodes =~= placed(start.nodes, all));
        }
    }
}

// ---------------------------------------------------------------------------
// What a flat list links

/// The flat node at `lower` is a child of the one at `upper`.
spec fn links(list: Seq<FlatView>, upper: int, lower: int) -> bool {
    list[lower].parent == Some(list[upper].node.id) && list[upper].node.children.contains(list[lower].node)
}

/// The flat node stands after its parent.
spec fn hangs(list: Seq<FlatView>, lower: int) -> bool {
    exists|upper: int| 0 <= upper < lower && #[trigger] links(list, upper, lower)
}

/// The child of a flat node stands in the list.
spec fn holds(list: Seq<FlatView>, upper: int, child: int) -> bool {
    exists|lower: int|
        upper < lower < list.len() && #[trigger] list[lower] == (FlatView {
            parent: Some(list[upper].node.id),
            node: list[upper].node.children[child],
        })
}

spec fn all_held(list: Seq<FlatView>) -> bool {
    forall|upper: int, child: int|
        0 <= upper < list.len() && 0 <= child < list[upper].node.children.len() ==> #[trigger] holds(
            list,
            upper,
            child,
        )
}

proof fn lemma_held_concat(a: Seq<FlatView>, b: Seq<FlatView>)
    requires
        all_held(a),
        all_held(b),
    ensures
        all_held(a + b),
{
    let all = a + b;
    assert forall|upper: int, child: int|
        0 <= upper < all.len() && 0 <= child < all[upper].node.children.len() implies #[trigger] holds(
        all,
        upper,
        child,
    ) by {
        if upper < a.len() {
            assert(holds(a, upper, child));
            let lower = choose|lower: int|
                upper < lower < a.len() && #[trigger] a[lower] == (FlatView {
                    parent: Some(a[upper].node.id),
                    node: a[upper].node.children[child],
                });
            assert(all[lower] == a[lower]);
        } else {
            assert(holds(b, upper - a.len(), child));
            let lower = choose|lower: int|
                upper - a.len() < lower < b.len() && #[trigger] b[lower] == (FlatView {
                    parent: Some(b[upper - a.len()].node.id),
                    node: b[upper - a.len()].node.children[child],
                });
            assert(all[lower + a.len()] == b[lower]);
        }
    }
}

proof fn lemma_flat_links(node: NodeView, parent: Option<Ref>)
    ensures
        flat(node, parent).len() > 0,
        flat(node, parent)[0] == (FlatView { parent, node }),
        forall|lower: int| 0 < lower < flat(node, parent).len() ==> #[trigger] hangs(flat(node, parent), lower),
        all_held(flat(node, parent)),
    decreases node,
{
    let below = flat_list(node.children, Some(node.id));
    let all = flat(node, parent);
    let head = seq![FlatView { parent, node }];
    assert(all =~= head + below);
    lemma_flat_list_links(node.children, Some(node.id));
    assert forall|lower: int| 0 < lower < all.len() implies #[trigger] hangs(all, lower) by {
        if hangs(below, lower - 1) {
            let upper = choose|upper: int| 0 <= upper < lower - 1 && #[trigger] links(below, upper, lower - 1);
            assert(links(all, upper + 1, lower));
        } else {
            assert(links(all, 0, lower));
        }
    }
    assert forall|upper: int, child: int|
        0 <= upper < all.len() && 0 <= child < all[upper].node.children.len() implies #[trigger] holds(
        all,
        upper,
        child,
    ) by {
        if upper == 0 {
            let lower = choose|lower: int|
                0 <= lower < below.len() && #[trigger] below[lower] == (FlatView {
                    parent: Some(node.id),
                    node: node.children[child],
                });
            assert(all[lower + 1] == below[lower]);
        } else {
            assert(holds(below, upper - 1, child));
            let lower = choose|lower: int|
                upper - 1 < lower < below.len() && #[trigger] below[lower] == (FlatView {
                    parent: Some(below[upper - 1].node.id),
                    node: below[upper - 1].node.children[child],
                });
            assert(all[lower + 1] == below[lower]);
        }
    }
}

proof fn lemma_flat_list_links(list: Seq<NodeView>, parent: Option<Ref>)
    ensures
        forall|lower: int|
            0 <= lower < flat_list(list, parent).len() ==> #[trigger] hangs(flat_list(list, parent), lower) || (
            flat_list(list, parent)[lower].parent == parent && list.contains(
                flat_list(list, parent)[lower].node,
            )),
        forall|at: int|
            0 <= at < list.len() ==> exists|lower: int|
                0 <= lower < flat_list(list, parent).len() && flat_list(list, parent)[lower] == (FlatView {
                    parent,
                    node: #[trigger] list[at],
                }),
        all_held(flat_list(list, parent)),
    decreases list,
{
    if list.len() > 0 {
        let before = flat_list(list.drop_last(), parent);
        let last = flat(list.last(), parent);
        let all = flat_list(list, parent);
        lemma_flat_list_links(list.drop_last(), parent);
        lemma_flat_links(list.last(), parent);
        lemma_held_concat(before, last);
        assert forall|lower: int| 0 <= lower < all.len() implies #[trigger] hangs(all, lower) || (
        all[lower].parent == parent && list.contains(all[lower].node)) by {
            if lower < before.len() {
                if hangs(before, lower) {
                    let upper = choose|upper: int| 0 <= upper < lower && #[trigger] links(before, upper, lower);
                    assert(links(all, upper, lower));
                } else {
                    assert(all[lower] == before[lower]);
                    let k = list.drop_last().index_of(before[lower].node);
                    assert(list[k] == before[lower].node);
                }
            } else if lower == before.len() {
                assert(all[lower] == last[0]);
                assert(list[list.len() - 1] == last[0].node);
            } else {
                assert(hangs(last, lower - before.len()));
                let upper = choose|upper: int|
                    0 <= upper < lower - before.len() && #[trigger] links(last, upper, lower - before.len());
                assert(links(all, upper + before.len(), lower));
            }
        }
        assert forall|at: int| 0 <= at < list.len() implies exists|lower: int|
            0 <= lower < all.len() && all[lower] == (FlatView { parent, node: #[trigger] list[at] }) by {
            if at < list.len() - 1 {
                assert(list.drop_last()[at] == list[at]);
                let lower = choose|lower: int|
                    0 <= lower < before.len() && before[lower] == (FlatView { parent, node: list.drop_last()[at] });
                assert(all[lower] == (FlatView { parent, node: list[at] }));
            } else {
                assert(all[before.len() as int] == last[0]);
            }
        }
    }
}

/// The children of each flat node have different identities.
spec fn siblings_differ(list: Seq<FlatView>) -> bool {
    forall|at: int|
        0 <= at < list.len() ==> (#[trigger] list[at]).node.children.map_values(
            |child: NodeView| child.id,
        ).no_duplicates()
}

proof fn lemma_distinct_part(a: Seq<FlatView>, b: Seq<FlatView>)
    requires
        flat_ids(a + b).no_duplicates(),
    ensures
        flat_ids(a).no_duplicates(),
        flat_ids(b).no_duplicates(),
        forall|id: Ref| #[trigger] flat_ids(b).contains(id) ==> !flat_ids(a).contains(id),
{
    let all = flat_ids(a + b);
    assert forall|i: int, j: int| 0 <= i < a.len() && 0 <= j < a.len() && i != j implies flat_ids(a)[i]
        != flat_ids(a)[j] by {
        assert(all[i] == flat_ids(a)[i] && all[j] == flat_ids(a)[j]);
    }
    assert forall|i: int, j: int| 0 <= i < b.len() && 0 <= j < b.len() && i != j implies flat_ids(b)[i]
        != flat_ids(b)[j] by {
        assert(all[a.len() + i] == flat_ids(b)[i] && all[a.len() + j] == flat_ids(b)[j]);
    }
    assert forall|id: Ref| #[trigger] flat_ids(b).contains(id) implies !flat_ids(a).contains(id) by {
        if flat_ids(a).contains(id) {
            let i = flat_ids(a).index_of(id);
            let j = flat_ids(b).index_of(id);
            assert(all[i] == id && all[a.len() + j] == id);
        }
    }
}

proof fn lemma_siblings_differ(node: NodeView, parent: Option<Ref>)
    requires
        flat_ids(flat(node, parent)).no_duplicates(),
    ensures
        siblings_differ(flat(node, parent)),
    decreases node,
{
    let head = seq![FlatView { parent, node }];
    let below = flat_list(node.children, Some(node.id));
    lemma_distinct_part(head, below);
    lemma_list_siblings_differ(node.children, Some(node.id));
    assert forall|at: int| 0 <= at < flat(node, parent).len() implies (#[trigger] flat(
        node,
        parent,
    )[at]).node.children.map_values(|child: NodeView| child.id).no_duplicates() by {
        if at > 0 {
            assert(flat(node, parent)[at] == below[at - 1]);
        }
    }
}

proof fn lemma_list_siblings_differ(list: Seq<NodeView>, parent: Option<Ref>)
    requires
        flat_ids(flat_list(list, parent)).no_duplicates(),
    ensures
        siblings_differ(flat_list(list, parent)),
        list.map_values(|child: NodeView| child.id).no_duplicates(),
    decreases list,
{
    let kids = list.map_values(|child: NodeView| child.id);
    if list.len() > 0 {
        let before = flat_list(list.drop_last(), parent);
        let last = flat(list.last(), parent);
        lemma_distinct_part(before, last);
        lemma_list_siblings_differ(list.drop_last(), parent);
        lemma_siblings_differ(list.last(), parent);
        lemma_flat_list_links(list.drop_last(), parent);
        let fewer = list.drop_last().map_values(|child: NodeView| child.id);
        let all = flat_list(list, parent);
        assert forall|at: int| 0 <= at < all.len() implies (
        #[trigger] all[at]).node.children.map_values(|child: NodeView| child.id).no_duplicates() by {
            if at < before.len() {
                assert(all[at] == before[at]);
            } else {
                assert(all[at] == last[at - before.len()]);
            }
        }
        assert(flat_ids(last)[0] == list.last().id);
        assert(flat_ids(last).contains(list.last().id));
        assert forall|i: int| 0 <= i < fewer.len() implies fewer[i] != list.last().id by {
            let lower = choose|lower: int|
                0 <= lower < before.len() && before[lower] == (FlatView {
                    parent,
                    node: #[trigger] list.drop_last()[i],
                });
            assert(flat_ids(before)[lower] == fewer[i]);
            assert(flat_ids(before).contains(fewer[i]));
        }
        assert forall|i: int, j: int| 0 <= i < kids.len() && 0 <= j < kids.len() && i != j implies kids[i]
            != kids[j] by {
            if i < fewer.len() && j < fewer.len() {
                assert(fewer[i] == kids[i] && fewer[j] == kids[j]);
            } else if i < fewer.len() {
                assert(fewer[i] == kids[i]);
            } else {
                assert(fewer[j] == kids[j]);
            }
        }
    }
}

/// The tree of a node.
pub open spec fn tree_of(node: NodeView) -> TreeView {
    TreeView { root: node.id, nodes: placed(Map::empty(), flat(node, Some(NO_REF))) }
}

/// Where an identity stands in a flat list.
spec fn flat_place(list: Seq<FlatView>, id: Ref) -> nat {
    flat_ids(list).index_of(id) as nat
}

/// What a stored node and its flat neighbours have to do with each other.
proof fn lemma_placed_links(
    instances: Map<Ref, TreeNodeView>,
    list: Seq<FlatView>,
    at: int,
)
    requires
        flat_ids(list).no_duplicates(),
        siblings_differ(list),
        all_held(list),
        forall|lower: int| 0 < lower < list.len() ==> #[trigger] hangs(list, lower),
        0 <= at < list.len(),
    ensures
        placed(instances, list)[list[at].node.id] == data_of(list[at]),
        at > 0 ==> {
            let parent = data_of(list[at]).parent;
            &&& flat_ids(list).contains(parent)
            &&& flat_place(list, parent) < at
            &&& placed(instances, list)[parent].children.contains(list[at].node.id)
        },
        flat_place(list, list[at].node.id) == at,
        data_of(list[at]).children.no_duplicates(),
        forall|k: int|
            0 <= k < data_of(list[at]).children.len() ==> {
                let child = #[trigger] data_of(list[at]).children[k];
                &&& flat_ids(list).contains(child)
                &&& placed(instances, list)[child].parent == list[at].node.id
                &&& child != list[0].node.id
            },
{
    lemma_placed(instances, list);
    let ids = flat_ids(list);
    assert(ids[at] == list[at].node.id);
    assert(ids.contains(ids[at]));
    assert(ids.index_of(ids[at]) == at);
    let kids = list[at].node.children.map_values(|child: NodeView| child.id);
    lemma_sorted_refs(kids);
    if at > 0 {
        assert(hangs(list, at));
        let upper = choose|upper: int| 0 <= upper < at && #[trigger] links(list, upper, at);
        assert(ids[upper] == list[upper].node.id);
        assert(ids.contains(ids[upper]));
        assert(ids.index_of(ids[upper]) == upper);
        let siblings = list[upper].node.children.map_values(|child: NodeView| child.id);
        lemma_sorted_refs(siblings);
        let k = list[upper].node.children.index_of(list[at].node);
        assert(siblings[k] == list[at].node.id);
        assert(siblings.contains(list[at].node.id));
    }
    assert forall|i: int, j: int| 0 <= i < kids.len() && 0 <= j < kids.len() && i != j implies kids[i]
        != kids[j] by {
        assert(list[at].node.children.map_values(|child: NodeView| child.id).no_duplicates());
    }
    let sorted = data_of(list[at]).children;
    assert forall|k: int| 0 <= k < sorted.len() implies {
        let child = #[trigger] sorted[k];
        &&& ids.contains(child)
        &&& placed(instances, list)[child].parent == list[at].node.id
        &&& child != list[0].node.id
    } by {
        assert(sorted.contains(sorted[k]));
        assert(kids.contains(sorted[k]));
        let i = kids.index_of(sorted[k]);
        assert(holds(list, at, i));
        let lower = choose|lower: int|
            at < lower < list.len() && #[trigger] list[lower] == (FlatView {
                parent: Some(list[at].node.id),
                node: list[at].node.children[i],
            });
        assert(ids[lower] == sorted[k]);
        assert(ids[0] == list[0].node.id);
        assert(placed(instances, list)[list[lower].node.id] == data_of(list[lower]));
    }
}

/// The tree of a node whose identities differ and are present is well formed.
proof fn lemma_tree_of(node: NodeView)
    requires
        conflict(Set::empty().insert(NO_REF), flat_ids(flat(node, Some(NO_REF)))) is None,
    ensures
        tree_of(node).wf(),
{
    let list = flat(node, Some(NO_REF));
    let ids = flat_ids(list);
    let view = tree_of(node);
    lemma_no_conflict(Set::empty().insert(NO_REF), ids);
    lemma_flat_links(node, Some(NO_REF));
    lemma_siblings_differ(node, Some(NO_REF));
    lemma_placed(Map::empty(), list);
    assert forall|id: Ref| #[trigger] view.has(id) implies ids.contains(id) && 0 <= ids.index_of(id)
        < list.len() && list[ids.index_of(id)].node.id == id by {
        assert(ids.contains(id));
        assert(ids[ids.index_of(id)] == id);
    }
    assert(!view.has(NO_REF)) by {
        if view.has(NO_REF) {
            assert(ids[ids.index_of(NO_REF)] == NO_REF);
        }
    }
    assert(ids[0] == node.id);
    assert(ids.contains(node.id));
    lemma_placed_links(Map::empty(), list, 0);
    assert forall|id: Ref| view.has(id) && id != view.root implies view.has(
        #[trigger] view.nodes[id].parent,
    ) && view.nodes[view.nodes[id].parent].children.contains(id) by {
        lemma_placed_links(Map::empty(), list, ids.index_of(id));
        assert(ids.index_of(id) != 0);
    }
    assert forall|id: Ref, at: int| view.has(id) && 0 <= at < view.nodes[id].children.len() implies {
        let child = #[trigger] view.nodes[id].children[at];
        view.has(child) && view.nodes[child].parent == id && child != view.root
    } by {
        lemma_placed_links(Map::empty(), list, ids.index_of(id));
        assert(data_of(list[ids.index_of(id)]).children[at] == view.nodes[id].children[at]);
    }
    assert forall|id: Ref| view.has(id) implies (#[trigger] view.nodes[id]).children.no_duplicates() by {
        lemma_placed_links(Map::empty(), list, ids.index_of(id));
    }
    let depths = Map::new(|id: Ref| view.has(id), |id: Ref| flat_place(list, id));
    assert(view.has_depths(depths)) by {
        assert forall|id: Ref| view.has(id) && id != view.root implies #[trigger] depths[view.nodes[id].parent]
            < depths[id] by {
            lemma_placed_links(Map::empty(), list, ids.index_of(id));
            assert(ids.index_of(id) != 0);
        }
    }
}

/// `Ref::new` of `rbx_dom_weak` draws a reference at random. Nothing is claimed
/// of it but that it is not the absent one.
#[verifier::external_body]
fn new_ref() -> (id: Ref)
    ensures
        id != NO_REF,
{
    let id = rbx_dom_weak::types::Ref::new();
    u128::from_str_radix(&id.to_string(), 16).unwrap()
}

/// The same node with an identity wherever one was absent.
pub open spec fn filled(before: NodeView, after: NodeView) -> bool
    decreases before,
{
    &&& after.id != NO_REF
    &&& before.id != NO_REF ==> after.id == before.id
    &&& after.name == before.name
    &&& after.raw_name == before.raw_name
    &&& after.class == before.class
    &&& after.properties == before.properties
    &&& after.children.len() == before.children.len()
    &&& forall|at: int|
        0 <= at < before.children.len() ==> filled(#[trigger] before.children[at], after.children[at])
}

/// Every identity is present.
pub open spec fn identified(node: NodeView) -> bool
    decreases node,
{
    node.id != NO_REF && forall|at: int|
        0 <= at < node.children.len() ==> identified(#[trigger] node.children[at])
}

/// Where every identity is present, there is nothing to fill in.
pub proof fn lemma_filled(before: NodeView, after: NodeView)
    requires
        identified(before),
        filled(before, after),
    ensures
        before == after,
    decreases before,
{
    assert forall|at: int| 0 <= at < before.children.len() implies before.children[at] == after.children[at] by {
        lemma_filled(before.children[at], after.children[at]);
    }
    assert(before.children =~= after.children);
}

fn identify(snapshot: &mut Snapshot)
    ensures
        filled(old(snapshot).node(), final(snapshot).node()),
    decreases *old(snapshot),
{
    let ghost start = *snapshot;
    if snapshot.id == NO_REF {
        snapshot.id = new_ref();
    }
    let mut at: usize = 0;
    while at < snapshot.children.len()
        invariant
            at <= snapshot.children@.len(),
            start == *old(snapshot),
            snapshot.children@.len() == start.children@.len(),
            snapshot.id != NO_REF,
            start.id != NO_REF ==> snapshot.id == start.id,
            snapshot.name == start.name,
            snapshot.class == start.class,
            snapshot.raw_name == start.raw_name,
            snapshot.properties == start.properties,
            forall|k: int|
                0 <= k < at ==> filled(start.children@[k].node(), (#[trigger] snapshot.children@[k]).node()),
            forall|k: int| at <= k < start.children@.len() ==> #[trigger] snapshot.children@[k] == start.children@[k],
        decreases start.children@.len() - at,
    {
        proof {
            assert(snapshot.children@[at as int] == start.children@[at as int]);
        }
        identify(&mut snapshot.children[at]);
        at = at + 1;
    }
    proof {
        lemma_children(*snapshot);
        lemma_children(start);
        assert forall|k: int| 0 <= k < start.node().children.len() implies filled(
            #[trigger] start.node().children[k],
            snapshot.node().children[k],
        ) by {
            assert(filled(start.children@[k].node(), snapshot.children@[k].node()));
        }
    }
}

/// What building a tree of a node gives: the tree, or the first identity that
/// occurs twice.
pub open spec fn builds(node: NodeView, built: Result<Tree, TreeError>) -> bool {
    match conflict(Set::empty().insert(NO_REF), flat_ids(flat(node, Some(NO_REF)))) {
        Some(id) => built == Err::<Tree, TreeError>(TreeError::Duplicate(id)),
        None => built matches Ok(tree) && tree.wf() && tree@ == tree_of(node),
    }
}

impl Tree {
    /// The tree of a snapshot. Absent identities are drawn at random.
    pub fn new(snapshot: Snapshot) -> (built: Result<Self, TreeError>)
        ensures
            exists|node: NodeView| #[trigger] filled(snapshot.node(), node) && builds(node, built),
            identified(snapshot.node()) ==> builds(snapshot.node(), built),
    {
        let mut snapshot = snapshot;
        let ghost given = snapshot.node();
        identify(&mut snapshot);
        let ghost node = snapshot.node();
        proof {
            assert(filled(given, node));
            if identified(given) {
                lemma_filled(given, node);
            }
        }
        Self::from_identified(snapshot)
    }

    /// The tree of a snapshot whose identities are all present.
    fn from_identified(snapshot: Snapshot) -> (built: Result<Self, TreeError>)
        ensures
            builds(snapshot.node(), built),
    {
        let mut tree = Tree { nodes: Vec::new(), by_ref: HashMap::new(), root_ref: snapshot.id };
        let ghost node = snapshot.node();
        let ghost ids = flat_ids(flat(node, Some(NO_REF)));
        let mut list: Vec<FlatNode> = Vec::new();
        crate::hierarchy::flatten_into(&snapshot, Some(NO_REF), &mut list);
        proof {
            assert(flat_views(list@) =~= flat(node, Some(NO_REF)));
        }
        let mut at: usize = 0;
        let mut seen: HashSet<u128> = HashSet::new();
        seen.insert(NO_REF);
        proof {
            assert(ids.take(0) =~= Seq::empty());
            assert(seen@ =~= Set::empty().insert(NO_REF).union(ids.take(0).to_set()));
        }
        while at < list.len()
            invariant
                at <= list@.len(),
                ids == flat_ids(flat_views(list@)),
                ids == flat_ids(flat(snapshot.node(), Some(NO_REF))),
                seen@ == Set::empty().insert(NO_REF).union(ids.take(at as int).to_set()),
                conflict(Set::empty().insert(NO_REF), ids.take(at as int)) is None,
            decreases list@.len() - at,
        {
            let id: Ref = list[at].snapshot.id;
            proof {
                crate::hierarchy::lemma_taken_set(ids, at as int);
                assert(ids.take(at + 1).drop_last() =~= ids.take(at as int));
                assert(ids.take(at + 1).last() == id);
                lemma_conflict_prefix(Set::empty().insert(NO_REF), ids, at + 1);
                assert(seen@.contains(id) <==> id == NO_REF || ids.take(at as int).contains(id));
            }
            if seen.contains(&id) {
                return Err(TreeError::Duplicate(id));
            }
            seen.insert(id);
            proof {
                assert(seen@ =~= Set::empty().insert(NO_REF).union(ids.take(at + 1).to_set()));
            }
            at = at + 1;
        }
        proof {
            assert(ids.take(ids.len() as int) =~= ids);
            lemma_no_conflict(Set::empty().insert(NO_REF), ids);
            assert(tree@.nodes =~= Map::empty());
            lemma_tree_of(node);
        }
        tree.place(snapshot, NO_REF);
        Ok(tree)
    }
}

// ---------------------------------------------------------------------------
// Adding

/// A tree with a node, and everything below it, under one of its instances.
pub open spec fn grafted(view: TreeView, node: NodeView, parent: Ref) -> TreeView {
    TreeView {
        nodes: placed(
            view.nodes.insert(
                parent,
                TreeNodeView {
                    children: sorted_refs(view.nodes[parent].children.push(node.id)),
                    ..view.nodes[parent]
                },
            ),
            flat(node, Some(parent)),
        ),
        ..view
    }
}

#[verifier::rlimit(30)]
proof fn lemma_grafted(view: TreeView, node: NodeView, parent: Ref)
    requires
        view.wf(),
        view.has(parent),
        conflict(view.nodes.dom().insert(NO_REF), flat_ids(flat(node, Some(parent)))) is None,
    ensures
        grafted(view, node, parent).wf(),
{
    let list = flat(node, Some(parent));
    let ids = flat_ids(list);
    let after = grafted(view, node, parent);
    let base = view.nodes.insert(
        parent,
        TreeNodeView {
            children: sorted_refs(view.nodes[parent].children.push(node.id)),
            ..view.nodes[parent]
        },
    );
    lemma_no_conflict(view.nodes.dom().insert(NO_REF), ids);
    lemma_flat_links(node, Some(parent));
    lemma_siblings_differ(node, Some(parent));
    lemma_placed(base, list);
    let pushed = view.nodes[parent].children.push(node.id);
    lemma_sorted_refs(pushed);
    assert(ids[0] == node.id);
    assert(ids.contains(node.id));
    assert(!view.has(node.id));
    assert forall|id: Ref| #[trigger] ids.contains(id) implies !view.has(id) && id != NO_REF && 0
        <= ids.index_of(id) < list.len() && list[ids.index_of(id)].node.id == id by {
        assert(ids[ids.index_of(id)] == id);
    }
    let kids = view.nodes[parent].children;
    assert forall|id: Ref| pushed.contains(id) <==> kids.contains(id) || id == node.id by {
        if pushed.contains(id) {
            let k = pushed.index_of(id);
            if k < kids.len() {
                assert(kids[k] == id);
            }
        }
        if kids.contains(id) {
            let k = kids.index_of(id);
            assert(pushed[k] == id);
        }
        assert(pushed[kids.len() as int] == node.id);
    }
    assert(!kids.contains(node.id)) by {
        if kids.contains(node.id) {
            let k = kids.index_of(node.id);
            assert(view.nodes[parent].children[k] == node.id);
        }
    }
    assert(pushed.no_duplicates()) by {
        assert forall|i: int, j: int| 0 <= i < pushed.len() && 0 <= j < pushed.len() && i != j implies pushed[i]
            != pushed[j] by {
            if i < kids.len() {
                assert(kids.contains(kids[i]));
            }
            if j < kids.len() {
                assert(kids.contains(kids[j]));
            }
        }
    }
    assert(after.has(view.root));
    assert(after.nodes[view.root].parent == NO_REF);
    assert forall|id: Ref| after.has(id) && id != after.root implies after.has(
        #[trigger] after.nodes[id].parent,
    ) && after.nodes[after.nodes[id].parent].children.contains(id) by {
        if ids.contains(id) {
            lemma_placed_links(base, list, ids.index_of(id));
            if ids.index_of(id) == 0 {
                assert(after.nodes[id].parent == parent);
                assert(!ids.contains(parent));
                assert(after.nodes[parent] == base[parent]);
            }
        } else {
            assert(view.has(id));
            let up = view.nodes[id].parent;
            assert(after.nodes[id] == base[id]);
            assert(view.has(up) && view.nodes[up].children.contains(id));
            assert(!ids.contains(up));
            assert(after.nodes[up] == base[up]);
        }
    }
    assert forall|id: Ref, at: int| after.has(id) && 0 <= at < after.nodes[id].children.len() implies {
        let child = #[trigger] after.nodes[id].children[at];
        after.has(child) && after.nodes[child].parent == id && child != after.root
    } by {
        if ids.contains(id) {
            lemma_placed_links(base, list, ids.index_of(id));
            assert(data_of(list[ids.index_of(id)]).children[at] == after.nodes[id].children[at]);
            assert(ids.contains(after.nodes[id].children[at]));
            assert(view.has(view.root));
        } else {
            assert(after.nodes[id] == base[id]);
            let child = after.nodes[id].children[at];
            if id == parent {
                let sorted = sorted_refs(pushed);
                assert(sorted.contains(sorted[at]));
                if child == node.id {
                    lemma_placed_links(base, list, 0);
                } else {
                    let k = kids.index_of(child);
                    assert(view.nodes[parent].children[k] == child);
                    assert(!ids.contains(child));
                    assert(after.nodes[child] == base[child]);
                }
            } else {
                assert(view.nodes[id].children[at] == child);
                assert(!ids.contains(child));
                assert(after.nodes[child] == base[child]);
            }
        }
    }
    assert forall|id: Ref| after.has(id) implies (#[trigger] after.nodes[id]).children.no_duplicates() by {
        if ids.contains(id) {
            lemma_placed_links(base, list, ids.index_of(id));
        } else {
            assert(after.nodes[id] == base[id]);
            if id != parent {
                assert(view.nodes[id].children.no_duplicates());
            }
        }
    }
    let known = view.depths();
    assert(view.has_depths(known));
    let depths = Map::new(
        |id: Ref| after.has(id),
        |id: Ref| if ids.contains(id) { known[parent] + 1 + flat_place(list, id) } else { known[id] },
    );
    assert(after.has_depths(depths)) by {
        assert forall|id: Ref| after.has(id) && id != after.root implies #[trigger] depths[after.nodes[id].parent]
            < depths[id] by {
            if ids.contains(id) {
                lemma_placed_links(base, list, ids.index_of(id));
                if ids.index_of(id) == 0 {
                    assert(after.nodes[id].parent == parent);
                    assert(!ids.contains(parent));
                }
            } else {
                assert(after.nodes[id] == base[id]);
                let up = view.nodes[id].parent;
                assert(view.has(up));
                assert(!ids.contains(up));
                assert(known[view.nodes[id].parent] < known[id]);
            }
        }
    }
}

impl Tree {
    /// Adds a snapshot under an instance. Absent identities are drawn at random.
    pub fn insert_instance_recursive(&mut self, snapshot: Snapshot, parent: Ref) -> (inserted: Result<
        Ref,
        TreeError,
    >)
        requires
            old(self).wf(),
        ensures
            final(self).wf(),
            exists|node: NodeView| #[trigger]
                filled(snapshot.node(), node) && inserts(*old(self), node, parent, *final(self), inserted),
            identified(snapshot.node()) ==> inserts(
                *old(self),
                snapshot.node(),
                parent,
                *final(self),
                inserted,
            ),
    {
        let mut snapshot = snapshot;
        let ghost given = snapshot.node();
        identify(&mut snapshot);
        let ghost node = snapshot.node();
        let ghost before = *self;
        proof {
            assert(filled(given, node));
            if identified(given) {
                lemma_filled(given, node);
            }
        }
        let inserted = self.graft(snapshot, parent);
        proof {
            assert(inserts(before, node, parent, *self, inserted));
        }
        inserted
    }

    fn graft(&mut self, snapshot: Snapshot, parent: Ref) -> (inserted: Result<Ref, TreeError>)
        requires
            old(self).wf(),
        ensures
            final(self).wf(),
            inserts(*old(self), snapshot.node(), parent, *final(self), inserted),
    {
        let ghost node = snapshot.node();
        let ghost before = self@;
        let place: usize = match self.by_ref.get(&parent) {
            Some(place) => *place,
            None => {
                return Err(TreeError::ParentMissing);
            },
        };
        let mut list: Vec<FlatNode> = Vec::new();
        crate::hierarchy::flatten_into(&snapshot, Some(parent), &mut list);
        proof {
            assert(flat_views(list@) =~= flat(node, Some(parent)));
        }
        let ghost ids = flat_ids(flat(node, Some(parent)));
        let mut seen: HashSet<u128> = HashSet::new();
        let mut at: usize = 0;
        proof {
            assert(ids.take(0) =~= Seq::empty());
        }
        while at < list.len()
            invariant
                at <= list@.len(),
                self@ == before,
                *self == *old(self),
                ids == flat_ids(flat_views(list@)),
                ids == flat_ids(flat(snapshot.node(), Some(parent))),
                before.has(parent),
                self.wf(),
                before == old(self)@,
                seen@ == ids.take(at as int).to_set(),
                conflict(before.nodes.dom().insert(NO_REF), ids.take(at as int)) is None,
            decreases list@.len() - at,
        {
            let id: Ref = list[at].snapshot.id;
            proof {
                crate::hierarchy::lemma_taken_set(ids, at as int);
                assert(ids.take(at + 1).drop_last() =~= ids.take(at as int));
                assert(ids.take(at + 1).last() == id);
                lemma_conflict_prefix(before.nodes.dom().insert(NO_REF), ids, at + 1);
                assert(seen@.contains(id) <==> ids.take(at as int).contains(id));
            }
            if id == NO_REF || self.contains(id) || seen.contains(&id) {
                return Err(TreeError::Duplicate(id));
            }
            seen.insert(id);
            at = at + 1;
        }
        proof {
            assert(ids.take(ids.len() as int) =~= ids);
            lemma_no_conflict(before.nodes.dom().insert(NO_REF), ids);
            lemma_grafted(before, node, parent);
        }
        let id: Ref = snapshot.id;
        let mut children: Vec<Ref> = Vec::new();
        let mut k: usize = 0;
        let held: &Vec<Ref> = &self.nodes[place].children;
        while k < held.len()
            invariant
                k <= held@.len(),
                children@ == held@.take(k as int),
            decreases held@.len() - k,
        {
            children.push(held[k]);
            proof {
                assert(held@.take(k + 1) =~= held@.take(k as int).push(held@[k as int]));
            }
            k = k + 1;
        }
        proof {
            assert(held@.take(held@.len() as int) =~= held@);
        }
        children.push(id);
        let sorted: Vec<Ref> = sort_refs(&children);
        self.set_children(place, sorted);
        self.place(snapshot, parent);
        Ok(id)
    }

    /// Gives the instance at a place other children.
    fn set_children(&mut self, place: usize, children: Vec<Ref>)
        requires
            old(self).dense(),
            place < old(self).arena_len(),
        ensures
            final(self).dense(),
            final(self)@ == (TreeView {
                nodes: old(self)@.nodes.insert(
                    old(self).id_at(place as int),
                    (TreeNodeView {
                        children: children@,
                        ..old(self)@.nodes[old(self).id_at(place as int)]
                    }),
                ),
                ..old(self)@
            }),
    {
        self.nodes[place].children = children;
        proof {
            let id = old(self).nodes@[place as int].referent;
            assert(self@.nodes =~= old(self)@.nodes.insert(
                id,
                TreeNodeView { children: children@, ..old(self)@.nodes[id] },
            ));
        }
    }

    closed spec fn arena_len(self) -> nat {
        self.nodes@.len()
    }

    closed spec fn id_at(self, place: int) -> Ref {
        self.nodes@[place].referent
    }
}

/// What adding a node under an instance does.
pub open spec fn inserts(
    before: Tree,
    node: NodeView,
    parent: Ref,
    after: Tree,
    inserted: Result<Ref, TreeError>,
) -> bool {
    if !before@.has(parent) {
        inserted == Err::<Ref, TreeError>(TreeError::ParentMissing) && after == before
    } else {
        match conflict(before@.nodes.dom().insert(NO_REF), flat_ids(flat(node, Some(parent)))) {
            Some(id) => inserted == Err::<Ref, TreeError>(TreeError::Duplicate(id)) && after == before,
            None => inserted == Ok::<Ref, TreeError>(node.id) && after@ == grafted(before@, node, parent),
        }
    }
}

// ---------------------------------------------------------------------------
// Removing

/// The children of listed instances, one list after the other.
pub open spec fn children_of(view: TreeView, list: Seq<Ref>) -> Seq<Ref>
    decreases list.len(),
{
    if list.len() == 0 {
        Seq::empty()
    } else {
        children_of(view, list.drop_last()) + view.nodes[list.last()].children
    }
}

/// An instance and everything below it, level by level.
pub open spec fn level_order(view: TreeView, id: Ref, list: Seq<Ref>) -> bool {
    list == seq![id] + children_of(view, list)
}

/// A tree without an instance and the listed instances below it.
pub open spec fn pruned(view: TreeView, id: Ref, list: Seq<Ref>) -> TreeView {
    let parent = view.nodes[id].parent;
    let siblings = view.nodes[parent].children;
    TreeView {
        nodes: view.nodes.insert(
            parent,
            TreeNodeView { children: siblings.remove(siblings.index_of(id)), ..view.nodes[parent] },
        ).remove_keys(list.to_set()),
        ..view
    }
}

proof fn lemma_children_of(view: TreeView, list: Seq<Ref>, id: Ref)
    ensures
        children_of(view, list).contains(id) <==> exists|k: int|
            0 <= k < list.len() && view.nodes[#[trigger] list[k]].children.contains(id),
    decreases list.len(),
{
    if list.len() > 0 {
        let shorter = list.drop_last();
        lemma_children_of(view, shorter, id);
        let before = children_of(view, shorter);
        let last = view.nodes[list.last()].children;
        let all = children_of(view, list);
        if all.contains(id) {
            let k = all.index_of(id);
            if k < before.len() {
                assert(before[k] == id);
                let j = choose|j: int|
                    0 <= j < shorter.len() && view.nodes[#[trigger] shorter[j]].children.contains(id);
                assert(list[j] == shorter[j]);
            } else {
                assert(last[k - before.len()] == id);
                assert(list[list.len() - 1] == list.last());
            }
        }
        if exists|k: int| 0 <= k < list.len() && view.nodes[#[trigger] list[k]].children.contains(id) {
            let k = choose|k: int| 0 <= k < list.len() && view.nodes[#[trigger] list[k]].children.contains(id);
            if k < shorter.len() {
                assert(shorter[k] == list[k]);
                let j = before.index_of(id);
                assert(all[j] == id);
            } else {
                let j = last.index_of(id);
                assert(all[before.len() + j] == id);
            }
        }
    }
}

/// What a level-order walk has collected when `cursor` instances are expanded.
spec fn walked(view: TreeView, id: Ref, list: Seq<Ref>, cursor: int) -> bool {
    &&& 0 <= cursor <= list.len()
    &&& list == seq![id] + children_of(view, list.take(cursor))
    &&& list.no_duplicates()
    &&& forall|k: int|
        0 <= k < list.len() ==> view.has(#[trigger] list[k]) && view.depths()[id] <= view.depths()[list[k]] && (
        list[k] != id ==> list[k] != view.root)
}

proof fn lemma_walk_step(view: TreeView, id: Ref, list: Seq<Ref>, cursor: int)
    requires
        view.wf(),
        view.has(id),
        walked(view, id, list, cursor),
        cursor < list.len(),
    ensures
        walked(view, id, list + view.nodes[list[cursor]].children, cursor + 1),
{
    let current = list[cursor];
    let more = view.nodes[current].children;
    let next = list + more;
    let depths = view.depths();
    assert(view.has_depths(depths));
    assert(next.take(cursor + 1).drop_last() =~= list.take(cursor));
    assert(next.take(cursor + 1).last() == current);
    assert(next =~= seq![id] + children_of(view, next.take(cursor + 1)));
    assert forall|k: int| 0 <= k < more.len() implies view.has(#[trigger] more[k]) && depths[id]
        < depths[more[k]] && more[k] != view.root && view.nodes[more[k]].parent == current by {
        assert(view.nodes[current].children[k] == more[k]);
        assert(depths[view.nodes[more[k]].parent] < depths[more[k]]);
    }
    assert forall|k: int| 0 <= k < more.len() implies !list.contains(#[trigger] more[k]) by {
        if list.contains(more[k]) {
            let j = list.index_of(more[k]);
            assert(more[k] != id);
            assert(list[0] == id);
            let earlier = children_of(view, list.take(cursor));
            assert(list[j] == earlier[j - 1]);
            assert(earlier.contains(more[k]));
            lemma_children_of(view, list.take(cursor), more[k]);
            let i = choose|i: int|
                0 <= i < list.take(cursor).len() && view.nodes[#[trigger] list.take(cursor)[i]].children.contains(
                    more[k],
                );
            let holder = list.take(cursor)[i];
            let at = view.nodes[holder].children.index_of(more[k]);
            assert(view.nodes[holder].children[at] == more[k]);
            assert(holder == list[i]);
            assert(view.nodes[more[k]].parent == holder);
        }
    }
    assert(more.no_duplicates());
    assert forall|i: int, j: int| 0 <= i < next.len() && 0 <= j < next.len() && i != j implies next[i]
        != next[j] by {
        if i < list.len() {
            assert(list.contains(list[i]));
        }
        if j < list.len() {
            assert(list.contains(list[j]));
        }
        if i >= list.len() && j >= list.len() {
            assert(more[i - list.len()] != more[j - list.len()]);
        } else if i >= list.len() {
            assert(next[i] == more[i - list.len()]);
        } else if j >= list.len() {
            assert(next[j] == more[j - list.len()]);
        }
    }
    assert forall|k: int| 0 <= k < next.len() implies view.has(#[trigger] next[k]) && depths[id]
        <= depths[next[k]] && (next[k] != id ==> next[k] != view.root) by {
        if k >= list.len() {
            assert(next[k] == more[k - list.len()]);
        } else {
            assert(next[k] == list[k]);
        }
    }
}

proof fn lemma_walk_bound(view: TreeView, id: Ref, list: Seq<Ref>, cursor: int)
    requires
        view.linked(),
        walked(view, id, list, cursor),
    ensures
        list.len() <= view.nodes.dom().len(),
{
    list.unique_seq_to_set();
    assert(list.to_set().subset_of(view.nodes.dom())) by {
        assert forall|other: Ref| list.to_set().contains(other) implies view.nodes.dom().contains(other) by {
            let k = list.index_of(other);
            assert(view.has(list[k]));
        }
    }
    vstd::set_lib::lemma_len_subset(list.to_set(), view.nodes.dom());
}

/// The whole list holds an instance exactly where it holds its parent.
proof fn lemma_walk_closed(view: TreeView, id: Ref, list: Seq<Ref>, other: Ref)
    requires
        view.wf(),
        view.has(id),
        walked(view, id, list, list.len() as int),
        view.has(other),
        other != id,
        other != view.root,
    ensures
        list.contains(other) <==> list.contains(view.nodes[other].parent),
{
    assert(list.take(list.len() as int) =~= list);
    let below = children_of(view, list);
    lemma_children_of(view, list, other);
    if list.contains(other) {
        let k = list.index_of(other);
        assert(list[0] == id);
        assert(below[k - 1] == other);
        let i = choose|i: int| 0 <= i < list.len() && view.nodes[#[trigger] list[i]].children.contains(other);
        let at = view.nodes[list[i]].children.index_of(other);
        assert(view.nodes[list[i]].children[at] == other);
    }
    if list.contains(view.nodes[other].parent) {
        let k = list.index_of(view.nodes[other].parent);
        assert(view.nodes[list[k]].children.contains(other));
        let j = below.index_of(other);
        assert(list[j + 1] == other);
    }
}

#[verifier::rlimit(30)]
proof fn lemma_pruned(view: TreeView, id: Ref, list: Seq<Ref>)
    requires
        view.wf(),
        view.has(id),
        id != view.root,
        walked(view, id, list, list.len() as int),
    ensures
        pruned(view, id, list).wf(),
        !list.contains(view.nodes[id].parent),
        !list.contains(view.root),
{
    let parent = view.nodes[id].parent;
    let after = pruned(view, id, list);
    let depths = view.depths();
    assert(view.has_depths(depths));
    assert(view.has(parent) && view.nodes[parent].children.contains(id));
    assert(depths[view.nodes[id].parent] < depths[id]);
    assert(list[0] == id);
    assert(list.contains(id));
    assert(!list.contains(parent)) by {
        if list.contains(parent) {
            let k = list.index_of(parent);
            assert(depths[id] <= depths[list[k]]);
        }
    }
    assert(!list.contains(view.root)) by {
        if list.contains(view.root) {
            let k = list.index_of(view.root);
            assert(list[k] != id ==> list[k] != view.root);
        }
    }
    let siblings = view.nodes[parent].children;
    let place = siblings.index_of(id);
    let fewer = siblings.remove(place);
    assert(siblings.no_duplicates());
    assert forall|other: Ref| fewer.contains(other) <==> siblings.contains(other) && other != id by {
        if fewer.contains(other) {
            let k = fewer.index_of(other);
            if k < place {
                assert(siblings[k] == other);
            } else {
                assert(siblings[k + 1] == other);
            }
        }
        if siblings.contains(other) && other != id {
            let k = siblings.index_of(other);
            if k < place {
                assert(fewer[k] == other);
            } else {
                assert(fewer[k - 1] == other);
            }
        }
    }
    assert forall|other: Ref| #[trigger] after.has(other) <==> view.has(other) && !list.contains(other) by {
        assert(list.to_set().contains(other) <==> list.contains(other));
    }
    assert(after.nodes.dom() =~= view.nodes.dom().difference(list.to_set()));
    vstd::set_lib::lemma_set_subset_finite(view.nodes.dom(), after.nodes.dom());
    assert forall|other: Ref| after.has(other) && other != after.root implies after.has(
        #[trigger] after.nodes[other].parent,
    ) && after.nodes[after.nodes[other].parent].children.contains(other) by {
        assert(other != id);
        lemma_walk_closed(view, id, list, other);
        assert(view.has(view.nodes[other].parent));
        assert(view.nodes[view.nodes[other].parent].children.contains(other));
    }
    assert forall|other: Ref, at: int| after.has(other) && 0 <= at < after.nodes[other].children.len() implies {
        let child = #[trigger] after.nodes[other].children[at];
        after.has(child) && after.nodes[child].parent == other && child != after.root
    } by {
        let child = after.nodes[other].children[at];
        if other == parent {
            assert(fewer.contains(fewer[at]));
            let k = siblings.index_of(child);
            assert(view.nodes[parent].children[k] == child);
        } else {
            assert(view.nodes[other].children[at] == child);
        }
        assert(child != id);
        lemma_walk_closed(view, id, list, child);
    }
    assert forall|other: Ref| after.has(other) implies (
    #[trigger] after.nodes[other]).children.no_duplicates() by {
        assert(view.nodes[other].children.no_duplicates());
        if other == parent {
            assert forall|i: int, j: int| 0 <= i < fewer.len() && 0 <= j < fewer.len() && i != j implies fewer[i]
                != fewer[j] by {
                let a = if i < place { i } else { i + 1 };
                let b = if j < place { j } else { j + 1 };
                assert(siblings[a] != siblings[b]);
            }
        }
    }
    assert(after.has_depths(depths)) by {
        assert forall|other: Ref| after.has(other) && other != after.root implies
            #[trigger] depths[after.nodes[other].parent] < depths[other] by {
            assert(depths[view.nodes[other].parent] < depths[other]);
        }
    }
}

/// A list without an identity that it holds once.
fn without_ref(list: &Vec<Ref>, id: Ref) -> (rest: Vec<Ref>)
    requires
        list@.contains(id),
        list@.no_duplicates(),
    ensures
        rest@ == list@.remove(list@.index_of(id)),
{
    let ghost place = list@.index_of(id);
    let mut rest: Vec<Ref> = Vec::new();
    let mut at: usize = 0;
    proof {
        assert(list@[place] == id);
    }
    while at < list.len()
        invariant
            at <= list@.len(),
            0 <= place < list@.len(),
            list@[place] == id,
            list@.no_duplicates(),
            rest@ == (if at <= place {
                list@.take(at as int)
            } else {
                list@.remove(place).take(at - 1)
            }),
        decreases list@.len() - at,
    {
        if list[at] != id {
            rest.push(list[at]);
        }
        proof {
            if at < place {
                assert(list@[at as int] != id);
                assert(rest@ =~= list@.take(at + 1));
            } else if at == place {
                assert(rest@ =~= list@.remove(place).take(at as int));
            } else {
                assert(list@[at as int] != id);
                assert(rest@ =~= list@.remove(place).take(at as int));
            }
        }
        at = at + 1;
    }
    proof {
        assert(rest@ =~= list@.remove(place));
    }
    rest
}

impl Tree {
    /// Takes one instance out of the arena.
    fn drop_node(&mut self, id: Ref)
        requires
            old(self).dense(),
            old(self)@.has(id),
        ensures
            final(self).dense(),
            final(self)@ == (TreeView { nodes: old(self)@.nodes.remove(id), ..old(self)@ }),
    {
        let ghost before = *self;
        let place: usize = match self.by_ref.remove(&id) {
            Some(place) => place,
            None => {
                proof {
                    assert(false);
                }
                0
            },
        };
        let last: usize = self.nodes.len() - 1;
        self.nodes.swap_remove(place);
        if place < self.nodes.len() {
            let moved: Ref = self.nodes[place].referent;
            self.by_ref.insert(moved, place);
        }
        proof {
            assert(before.nodes@[last as int].referent == id <==> last == place);
            assert forall|other: Ref| #[trigger] self.by_ref@.dom().contains(other) <==> before.by_ref@.dom().contains(
                other,
            ) && other != id by {
                if place < last {
                    assert(before.by_ref@.dom().contains(before.nodes@[last as int].referent));
                }
            }
            assert(self.by_ref@.dom() =~= before.by_ref@.dom().remove(id));
            assert forall|other: Ref| #[trigger]
                self.by_ref@.dom().contains(other) implies self.by_ref@[other] < self.nodes@.len()
                && self.nodes@[self.by_ref@[other] as int].referent == other
                && self.nodes@[self.by_ref@[other] as int] == before.nodes@[before.by_ref@[other] as int] by {
                assert(before.by_ref@.dom().contains(other));
                assert(before.by_ref@[other] < before.nodes@.len());
                assert(before.nodes@[before.by_ref@[other] as int].referent == other);
                if before.by_ref@[other] == place {
                    assert(other == id);
                }
            }
            assert forall|at: int| 0 <= at < self.nodes@.len() implies self.by_ref@.dom().contains(
                (#[trigger] self.nodes@[at]).referent,
            ) && self.by_ref@[self.nodes@[at].referent] == at by {
                if at == place {
                    assert(self.nodes@[at] == before.nodes@[last as int]);
                } else {
                    assert(self.nodes@[at] == before.nodes@[at]);
                    assert(before.by_ref@[before.nodes@[at].referent] == at);
                }
            }
            assert(self@.nodes =~= before@.nodes.remove(id));
        }
    }

    /// Removes an instance and everything below it, and lists what was removed,
    /// level by level. The root stays.
    pub fn remove_instance(&mut self, id: Ref) -> (removed: Vec<Ref>)
        requires
            old(self).wf(),
        ensures
            final(self).wf(),
            if id == old(self)@.root || !old(self)@.has(id) {
                removed@.len() == 0 && *final(self) == *old(self)
            } else {
                level_order(old(self)@, id, removed@) && final(self)@ == pruned(old(self)@, id, removed@)
            },
    {
        let mut list: Vec<Ref> = Vec::new();
        if id == self.root_ref || !self.contains(id) {
            return list;
        }
        let ghost view = self@;
        list.push(id);
        let mut cursor: usize = 0;
        proof {
            assert(list@.take(0) =~= Seq::empty());
            assert(walked(view, id, list@, 0));
            lemma_walk_bound(view, id, list@, 0);
            assert(view.nodes.dom() =~= self.by_ref@.dom());
        }
        let count: usize = self.by_ref.len();
        while cursor < list.len()
            invariant
                walked(view, id, list@, cursor as int),
                view == self@,
                *self == *old(self),
                self.wf(),
                view.has(id),
                id != view.root,
                count == view.nodes.dom().len(),
                list@.len() <= count,
            decreases count - cursor,
        {
            let current: Ref = list[cursor];
            let ghost before = list@;
            match self.get_instance(current) {
                Some(node) => {
                    let children: &Vec<Ref> = node.children();
                    let mut at: usize = 0;
                    while at < children.len()
                        invariant
                            at <= children@.len(),
                            list@ == before + children@.take(at as int),
                        decreases children@.len() - at,
                    {
                        list.push(children[at]);
                        proof {
                            assert(before + children@.take(at + 1) =~= (before + children@.take(at as int)).push(
                                children@[at as int],
                            ));
                        }
                        at = at + 1;
                    }
                    proof {
                        assert(children@.take(children@.len() as int) =~= children@);
                        lemma_walk_step(view, id, before, cursor as int);
                        lemma_walk_bound(view, id, list@, cursor + 1);
                    }
                },
                None => {
                    proof {
                        assert(false);
                    }
                },
            }
            cursor = cursor + 1;
        }
        proof {
            assert(list@.take(list@.len() as int) =~= list@);
            lemma_pruned(view, id, list@);
        }
        let parent: Ref = match self.get_instance(id) {
            Some(node) => node.parent(),
            None => NO_REF,
        };
        let place: usize = match self.by_ref.get(&parent) {
            Some(place) => *place,
            None => {
                proof {
                    assert(view.has(view.nodes[id].parent));
                }
                0
            },
        };
        let rest: Vec<Ref> = {
            let siblings: &Vec<Ref> = &self.nodes[place].children;
            proof {
                assert(siblings@ == view.nodes[parent].children);
                assert(view.nodes[view.nodes[id].parent].children.contains(id));
            }
            without_ref(siblings, id)
        };
        self.set_children(place, rest);
        let ghost linked = self@;
        let mut left: usize = list.len();
        proof {
            assert(list@.skip(list@.len() as int).to_set() =~= Set::empty());
            assert(self@.nodes =~= linked.nodes.remove_keys(list@.skip(list@.len() as int).to_set()));
        }
        while left > 0
            invariant
                left <= list@.len(),
                self.dense(),
                list@.no_duplicates(),
                forall|k: int| 0 <= k < list@.len() ==> linked.has(#[trigger] list@[k]),
                self@ == (TreeView {
                    nodes: linked.nodes.remove_keys(list@.skip(left as int).to_set()),
                    ..linked
                }),
            decreases left,
        {
            left = left - 1;
            let gone: Ref = list[left];
            proof {
                assert(linked.has(list@[left as int]));
                let later = list@.skip(left + 1);
                assert(!later.contains(gone)) by {
                    if later.contains(gone) {
                        let k = later.index_of(gone);
                        assert(list@[left + 1 + k] == gone);
                    }
                }
                let now = list@.skip(left as int);
                assert forall|other: Ref| now.to_set().contains(other) <==> later.to_set().insert(gone).contains(
                    other,
                ) by {
                    if now.contains(other) {
                        let k = now.index_of(other);
                        if k > 0 {
                            assert(later[k - 1] == other);
                        }
                    }
                    if later.contains(other) {
                        let k = later.index_of(other);
                        assert(now[k + 1] == other);
                    }
                    assert(now[0] == gone);
                }
                assert(now.to_set() =~= later.to_set().insert(gone));
                assert(linked.nodes.remove_keys(later.to_set()).remove(gone) =~= linked.nodes.remove_keys(
                    now.to_set(),
                ));
            }
            self.drop_node(gone);
        }
        proof {
            assert(list@.skip(0) =~= list@);
        }
        list
    }
}

// ---------------------------------------------------------------------------
// Ancestors

/// An instance that is another one or stands below it.
pub open spec fn below(view: TreeView, lower: Ref, upper: Ref) -> bool
    decreases view.depths()[lower],
    when view.wf() && view.has(lower)
{
    proof {
        assert(view.has_depths(view.depths()));
        if lower != view.root {
            assert(view.depths()[view.nodes[lower].parent] < view.depths()[lower]);
        }
    }
    lower == upper || (lower != view.root && below(view, view.nodes[lower].parent, upper))
}

/// A tree in which an instance hangs under another parent.
pub open spec fn moved(view: TreeView, id: Ref, parent: Ref) -> TreeView {
    let old_parent = view.nodes[id].parent;
    let siblings = view.nodes[old_parent].children;
    let taken = view.nodes.insert(
        old_parent,
        TreeNodeView { children: siblings.remove(siblings.index_of(id)), ..view.nodes[old_parent] },
    );
    let given = taken.insert(
        parent,
        TreeNodeView { children: sorted_refs(taken[parent].children.push(id)), ..taken[parent] },
    );
    TreeView { nodes: given.insert(id, TreeNodeView { parent, ..given[id] }), ..view }
}

proof fn lemma_removed_ref(list: Seq<Ref>, id: Ref)
    requires
        list.contains(id),
        list.no_duplicates(),
    ensures
        forall|other: Ref| #[trigger]
            list.remove(list.index_of(id)).contains(other) <==> list.contains(other) && other != id,
        list.remove(list.index_of(id)).no_duplicates(),
{
    let place = list.index_of(id);
    let fewer = list.remove(place);
    assert forall|other: Ref| #[trigger] fewer.contains(other) <==> list.contains(other) && other != id by {
        if fewer.contains(other) {
            let k = fewer.index_of(other);
            if k < place {
                assert(list[k] == other);
            } else {
                assert(list[k + 1] == other);
            }
        }
        if list.contains(other) && other != id {
            let k = list.index_of(other);
            if k < place {
                assert(fewer[k] == other);
            } else {
                assert(fewer[k - 1] == other);
            }
        }
    }
    assert forall|i: int, j: int| 0 <= i < fewer.len() && 0 <= j < fewer.len() && i != j implies fewer[i]
        != fewer[j] by {
        let a = if i < place { i } else { i + 1 };
        let b = if j < place { j } else { j + 1 };
        assert(list[a] != list[b]);
    }
}

proof fn lemma_pushed_ref(list: Seq<Ref>, id: Ref)
    requires
        !list.contains(id),
        list.no_duplicates(),
    ensures
        forall|other: Ref| #[trigger] sorted_refs(list.push(id)).contains(other) <==> list.contains(other) || other
            == id,
        sorted_refs(list.push(id)).no_duplicates(),
{
    let pushed = list.push(id);
    lemma_sorted_refs(pushed);
    assert forall|other: Ref| pushed.contains(other) <==> list.contains(other) || other == id by {
        if pushed.contains(other) {
            let k = pushed.index_of(other);
            if k < list.len() {
                assert(list[k] == other);
            }
        }
        if list.contains(other) {
            let k = list.index_of(other);
            assert(pushed[k] == other);
        }
        assert(pushed[list.len() as int] == id);
    }
    assert forall|i: int, j: int| 0 <= i < pushed.len() && 0 <= j < pushed.len() && i != j implies pushed[i]
        != pushed[j] by {
        if i < list.len() {
            assert(list.contains(list[i]));
        }
        if j < list.len() {
            assert(list.contains(list[j]));
        }
    }
}

#[verifier::rlimit(30)]
proof fn lemma_moved(view: TreeView, id: Ref, parent: Ref)
    requires
        view.wf(),
        view.has(id),
        id != view.root,
        view.has(parent),
        !below(view, parent, id),
    ensures
        moved(view, id, parent).wf(),
{
    let old_parent = view.nodes[id].parent;
    let after = moved(view, id, parent);
    let known = view.depths();
    assert(view.has_depths(known));
    assert(view.has(old_parent) && view.nodes[old_parent].children.contains(id));
    assert(known[view.nodes[id].parent] < known[id]);
    assert(old_parent != id);
    assert(parent != id);
    let siblings = view.nodes[old_parent].children;
    lemma_removed_ref(siblings, id);
    let fewer = siblings.remove(siblings.index_of(id));
    let target = if parent == old_parent { fewer } else { view.nodes[parent].children };
    assert(!target.contains(id)) by {
        if parent != old_parent && target.contains(id) {
            let k = target.index_of(id);
            assert(view.nodes[parent].children[k] == id);
        }
    }
    assert(view.nodes[parent].children.no_duplicates());
    lemma_pushed_ref(target, id);
    let gained = sorted_refs(target.push(id));
    assert(after.nodes[parent].children == gained);
    assert(parent != old_parent ==> after.nodes[old_parent].children == fewer);
    assert(after.nodes[id].parent == parent);
    assert(after.nodes[id].children == view.nodes[id].children);
    assert(after.nodes.dom() =~= view.nodes.dom());
    assert forall|other: Ref| view.has(other) && other != id implies after.nodes[other].parent
        == view.nodes[other].parent by {}
    assert forall|other: Ref| view.has(other) && other != parent && other != old_parent implies (
    #[trigger] after.nodes[other]).children == view.nodes[other].children by {}
    assert forall|other: Ref| after.has(other) && other != after.root implies after.has(
        #[trigger] after.nodes[other].parent,
    ) && after.nodes[after.nodes[other].parent].children.contains(other) by {
        if other != id {
            let up = view.nodes[other].parent;
            assert(view.has(up) && view.nodes[up].children.contains(other));
        }
    }
    assert forall|other: Ref, at: int| after.has(other) && 0 <= at < after.nodes[other].children.len() implies {
        let child = #[trigger] after.nodes[other].children[at];
        after.has(child) && after.nodes[child].parent == other && child != after.root
    } by {
        let child = after.nodes[other].children[at];
        if other == parent {
            assert(gained.contains(gained[at]));
            if child != id {
                let list = view.nodes[parent].children;
                assert(list.contains(child));
                let k = list.index_of(child);
                assert(view.nodes[parent].children[k] == child);
            }
        } else if other == old_parent {
            assert(fewer.contains(fewer[at]));
            let k = siblings.index_of(child);
            assert(view.nodes[old_parent].children[k] == child);
        } else {
            assert(view.nodes[other].children[at] == child);
            assert(child != id);
        }
    }
    assert forall|other: Ref| after.has(other) implies (
    #[trigger] after.nodes[other]).children.no_duplicates() by {
        assert(view.nodes[other].children.no_duplicates());
    }
    let depths = Map::new(
        |other: Ref| view.has(other),
        |other: Ref| if below(view, other, id) { known[other] + known[parent] + 1 } else { known[other] },
    );
    assert(after.has_depths(depths)) by {
        assert forall|other: Ref| after.has(other) && other != after.root implies
            #[trigger] depths[after.nodes[other].parent] < depths[other] by {
            if other == id {
                assert(below(view, id, id));
            } else {
                let up = view.nodes[other].parent;
                assert(view.has(up));
                assert(known[view.nodes[other].parent] < known[other]);
                assert(below(view, other, id) == below(view, up, id));
            }
        }
    }
}

/// Why an update does not apply.
#[verifier::ext_equal]
pub enum UpdateFault {
    SetAndRemoved(Seq<char>),
    UpdatedMissing,
    RootMoved,
    DestinationMissing(Ref),
    BeneathItself,
}

impl TreeError {
    pub open spec fn reports(self, fault: UpdateFault) -> bool {
        match fault {
            UpdateFault::SetAndRemoved(property) => self matches TreeError::SetAndRemoved(name) && name@
                == property,
            UpdateFault::UpdatedMissing => self is UpdatedMissing,
            UpdateFault::RootMoved => self is RootMoved,
            UpdateFault::DestinationMissing(id) => self == TreeError::DestinationMissing(id),
            UpdateFault::BeneathItself => self is BeneathItself,
        }
    }
}

/// The first removed property that is set as well.
pub open spec fn set_and_removed(values: Map<Seq<char>, VariantView>, removed: Seq<Seq<char>>) -> Option<
    Seq<char>,
>
    decreases removed.len(),
{
    if removed.len() == 0 {
        None
    } else {
        match set_and_removed(values, removed.drop_last()) {
            Some(name) => Some(name),
            None => if values.dom().contains(removed.last()) {
                Some(removed.last())
            } else {
                None
            },
        }
    }
}

proof fn lemma_set_and_removed_prefix(values: Map<Seq<char>, VariantView>, removed: Seq<Seq<char>>, at: int)
    requires
        0 <= at <= removed.len(),
    ensures
        set_and_removed(values, removed.take(at)) is Some ==> set_and_removed(values, removed)
            == set_and_removed(values, removed.take(at)),
    decreases removed.len(),
{
    if at == removed.len() {
        assert(removed.take(at) =~= removed);
    } else {
        lemma_set_and_removed_prefix(values, removed.drop_last(), at);
        assert(removed.drop_last().take(at) =~= removed.take(at));
    }
}

/// What stands in the way of an update.
pub open spec fn update_fault(view: TreeView, update: UpdateView) -> Option<UpdateFault> {
    let clash = match update.properties {
        Some(values) => set_and_removed(values, update.removed_properties),
        None => None,
    };
    if clash is Some {
        Some(UpdateFault::SetAndRemoved(clash->0))
    } else if !view.has(update.id) {
        Some(UpdateFault::UpdatedMissing)
    } else {
        match update.parent {
            None => None,
            Some(parent) => if update.id == view.root {
                Some(UpdateFault::RootMoved)
            } else if !view.has(parent) {
                Some(UpdateFault::DestinationMissing(parent))
            } else if below(view, parent, update.id) {
                Some(UpdateFault::BeneathItself)
            } else {
                None
            },
        }
    }
}

/// An instance after an update: properties that it does not mention stay.
pub open spec fn updated_data(data: TreeNodeView, update: UpdateView) -> TreeNodeView {
    let named = match update.name {
        None => data.properties,
        Some(_) => match update.raw_name {
            Some(bytes) => data.properties.insert("__CarbonRawName"@, VariantView::BinaryString(bytes)),
            None => data.properties.remove("__CarbonRawName"@),
        },
    };
    let set = match update.properties {
        Some(values) => named.union_prefer_right(values),
        None => named,
    };
    TreeNodeView {
        name: match update.name {
            Some(name) => name,
            None => data.name,
        },
        class: match update.class {
            Some(class) => class,
            None => data.class,
        },
        properties: set.remove_keys(update.removed_properties.to_set()),
        ..data
    }
}

/// A tree after an update that nothing stands in the way of.
pub open spec fn updated(view: TreeView, update: UpdateView) -> TreeView {
    let base = match update.parent {
        Some(parent) => moved(view, update.id, parent),
        None => view,
    };
    TreeView { nodes: base.nodes.insert(update.id, updated_data(base.nodes[update.id], update)), ..base }
}

/// Changing what an instance holds leaves the links.
proof fn lemma_relabelled(view: TreeView, id: Ref, data: TreeNodeView)
    requires
        view.wf(),
        view.has(id),
        data.parent == view.nodes[id].parent,
        data.children == view.nodes[id].children,
    ensures
        (TreeView { nodes: view.nodes.insert(id, data), ..view }).wf(),
{
    let after = TreeView { nodes: view.nodes.insert(id, data), ..view };
    let depths = view.depths();
    assert(view.has_depths(depths));
    assert(after.nodes.dom() =~= view.nodes.dom());
    assert forall|other: Ref| after.has(other) implies after.nodes[other].parent == view.nodes[other].parent
        && after.nodes[other].children == view.nodes[other].children by {}
    assert forall|other: Ref| after.has(other) && other != after.root implies after.has(
        #[trigger] after.nodes[other].parent,
    ) && after.nodes[after.nodes[other].parent].children.contains(other) by {
        assert(view.has(view.nodes[other].parent));
    }
    assert forall|other: Ref, at: int| after.has(other) && 0 <= at < after.nodes[other].children.len() implies {
        let child = #[trigger] after.nodes[other].children[at];
        after.has(child) && after.nodes[child].parent == other && child != after.root
    } by {
        assert(view.nodes[other].children[at] == after.nodes[other].children[at]);
    }
    assert forall|other: Ref| after.has(other) implies (
    #[trigger] after.nodes[other]).children.no_duplicates() by {
        assert(view.nodes[other].children.no_duplicates());
    }
    assert(after.has_depths(depths)) by {
        assert forall|other: Ref| after.has(other) && other != after.root implies
            #[trigger] depths[after.nodes[other].parent] < depths[other] by {
            assert(depths[view.nodes[other].parent] < depths[other]);
        }
    }
}

fn copy_refs(list: &Vec<Ref>) -> (copy: Vec<Ref>)
    ensures
        copy@ == list@,
{
    let mut copy: Vec<Ref> = Vec::new();
    let mut at: usize = 0;
    while at < list.len()
        invariant
            at <= list@.len(),
            copy@ == list@.take(at as int),
        decreases list@.len() - at,
    {
        copy.push(list[at]);
        proof {
            assert(list@.take(at + 1) =~= list@.take(at as int).push(list@[at as int]));
        }
        at = at + 1;
    }
    proof {
        assert(list@.take(list@.len() as int) =~= list@);
    }
    copy
}

impl Tree {
    /// Whether an instance is another one or stands below it.
    fn is_below(&self, lower: Ref, upper: Ref) -> (found: bool)
        requires
            self.wf(),
            self@.has(lower),
        ensures
            found == below(self@, lower, upper),
    {
        let ghost view = self@;
        let mut current: Ref = lower;
        proof {
            assert(view.has_depths(view.depths()));
        }
        while current != upper && current != self.root_ref
            invariant
                self.wf(),
                view == self@,
                view.has_depths(view.depths()),
                view.has(current),
                below(view, lower, upper) == below(view, current, upper),
            decreases view.depths()[current],
        {
            proof {
                assert(view.depths()[view.nodes[current].parent] < view.depths()[current]);
                assert(view.has(view.nodes[current].parent));
            }
            match self.get_instance(current) {
                Some(node) => {
                    current = node.parent();
                },
                None => {
                    proof {
                        assert(false);
                    }
                },
            }
        }
        current == upper
    }

    /// The place of an instance in the arena.
    fn place_of(&self, id: Ref) -> (place: usize)
        requires
            self.dense(),
            self@.has(id),
        ensures
            place < self.arena_len(),
            self.id_at(place as int) == id,
    {
        match self.by_ref.get(&id) {
            Some(place) => *place,
            None => {
                proof {
                    assert(false);
                }
                0
            },
        }
    }

    /// Gives the instance at a place another parent.
    fn set_parent(&mut self, place: usize, parent: Ref)
        requires
            old(self).dense(),
            place < old(self).arena_len(),
        ensures
            final(self).dense(),
            final(self)@ == (TreeView {
                nodes: old(self)@.nodes.insert(
                    old(self).id_at(place as int),
                    (TreeNodeView { parent, ..old(self)@.nodes[old(self).id_at(place as int)] }),
                ),
                ..old(self)@
            }),
    {
        self.nodes[place].parent = parent;
        proof {
            let id = old(self).nodes@[place as int].referent;
            assert(self@.nodes =~= old(self)@.nodes.insert(
                id,
                TreeNodeView { parent, ..old(self)@.nodes[id] },
            ));
        }
    }

    /// Hangs an instance under another parent.
    pub fn reparent_instance(&mut self, id: Ref, parent: Ref)
        requires
            old(self).wf(),
            old(self)@.has(id),
            id != old(self)@.root,
            old(self)@.has(parent),
            !below(old(self)@, parent, id),
        ensures
            final(self).wf(),
            final(self)@ == moved(old(self)@, id, parent),
    {
        let ghost view = self@;
        proof {
            lemma_moved(view, id, parent);
            assert(view.has(view.nodes[id].parent));
            assert(view.nodes[view.nodes[id].parent].children.contains(id));
        }
        let old_parent: Ref = match self.get_instance(id) {
            Some(node) => node.parent(),
            None => NO_REF,
        };
        let from: usize = self.place_of(old_parent);
        let rest: Vec<Ref> = without_ref(&self.nodes[from].children, id);
        self.set_children(from, rest);
        let to: usize = self.place_of(parent);
        let mut children: Vec<Ref> = copy_refs(&self.nodes[to].children);
        children.push(id);
        let sorted: Vec<Ref> = sort_refs(&children);
        self.set_children(to, sorted);
        let place: usize = self.place_of(id);
        self.set_parent(place, parent);
        proof {
            assert(self@.nodes =~= moved(view, id, parent).nodes);
        }
    }

    /// Applies a sparse update: what it does not mention stays as it is.
    pub fn apply_update(&mut self, snapshot: UpdatedSnapshot) -> (applied: Result<(), TreeError>)
        requires
            old(self).wf(),
        ensures
            final(self).wf(),
            match update_fault(old(self)@, snapshot@) {
                Some(fault) => applied matches Err(error) && error.reports(fault) && *final(self) == *old(self),
                None => applied is Ok && final(self)@ == updated(old(self)@, snapshot@),
            },
    {
        let ghost view = self@;
        let ghost update = snapshot@;
        let id: Ref = snapshot.id;
        match &snapshot.properties {
            Some(properties) => {
                let ghost removed = update.removed_properties;
                let mut at: usize = 0;
                proof {
                    assert(removed.take(0) =~= Seq::empty());
                    assert(properties.deep().dom() =~= properties@.dom());
                }
                while at < snapshot.removed_properties.len()
                    invariant
                        at <= snapshot.removed_properties@.len(),
                        removed == texts(snapshot.removed_properties@),
                        update == snapshot@,
                        removed == update.removed_properties,
                        update.properties == Some(properties.deep()),
                        properties.deep().dom() == properties@.dom(),
                        set_and_removed(properties.deep(), removed.take(at as int)) is None,
                        *self == *old(self),
                        self.wf(),
                    decreases snapshot.removed_properties@.len() - at,
                {
                    proof {
                        assert(removed.take(at + 1).drop_last() =~= removed.take(at as int));
                        assert(removed.take(at + 1).last() == snapshot.removed_properties@[at as int]@);
                        lemma_set_and_removed_prefix(properties.deep(), removed, at + 1);
                    }
                    if properties.contains_key(snapshot.removed_properties[at].as_str()) {
                        return Err(TreeError::SetAndRemoved(snapshot.removed_properties[at].clone()));
                    }
                    at = at + 1;
                }
                proof {
                    assert(removed.take(removed.len() as int) =~= removed);
                }
            },
            None => {},
        }
        if !self.contains(id) {
            return Err(TreeError::UpdatedMissing);
        }
        match snapshot.parent {
            Some(parent) => {
                if id == self.root_ref {
                    return Err(TreeError::RootMoved);
                }
                if !self.contains(parent) {
                    return Err(TreeError::DestinationMissing(parent));
                }
                if self.is_below(parent, id) {
                    return Err(TreeError::BeneathItself);
                }
                self.reparent_instance(id, parent);
            },
            None => {},
        }
        let ghost base = self@;
        proof {
            let data = updated_data(base.nodes[id], update);
            lemma_relabelled(base, id, data);
        }
        let place: usize = self.place_of(id);
        let ghost start = *self;
        match snapshot.name {
            Some(name) => {
                self.nodes[place].name = name;
                match snapshot.raw_name {
                    Some(raw_name) => {
                        let ghost before = self.nodes@[place as int].properties.deep();
                        let ghost bytes = raw_name@;
                        self.nodes[place].properties.insert(
                            RAW_NAME_PROPERTY.to_owned(),
                            Variant::BinaryString(raw_name),
                        );
                        proof {
                            assert(self.nodes@[place as int].properties.deep() =~= before.insert(
                                "__CarbonRawName"@,
                                VariantView::BinaryString(bytes),
                            ));
                        }
                    },
                    None => {
                        let ghost before = self.nodes@[place as int].properties.deep();
                        self.nodes[place].properties.remove(RAW_NAME_PROPERTY);
                        proof {
                            assert(self.nodes@[place as int].properties.deep() =~= before.remove(
                                "__CarbonRawName"@,
                            ));
                        }
                    },
                }
            },
            None => {},
        }
        match snapshot.class {
            Some(class) => {
                self.nodes[place].class = class;
            },
            None => {},
        }
        match snapshot.properties {
            Some(properties) => {
                self.nodes[place].properties.extend_from(&properties);
            },
            None => {},
        }
        let ghost set = self.nodes@[place as int].properties.deep();
        let ghost removed = update.removed_properties;
        let ghost unchanged = *self;
        let mut at: usize = 0;
        proof {
            assert(removed.take(0).to_set() =~= Set::empty());
            assert(set.remove_keys(Set::empty()) =~= set);
        }
        while at < snapshot.removed_properties.len()
            invariant
                at <= snapshot.removed_properties@.len(),
                removed == texts(snapshot.removed_properties@),
                place < self.nodes@.len(),
                self.by_ref == unchanged.by_ref,
                self.root_ref == unchanged.root_ref,
                self.nodes@.len() == unchanged.nodes@.len(),
                forall|k: int|
                    0 <= k < self.nodes@.len() && k != place ==> #[trigger] self.nodes@[k] == unchanged.nodes@[k],
                self.nodes@[place as int].referent == unchanged.nodes@[place as int].referent,
                self.nodes@[place as int].parent == unchanged.nodes@[place as int].parent,
                self.nodes@[place as int].class == unchanged.nodes@[place as int].class,
                self.nodes@[place as int].name == unchanged.nodes@[place as int].name,
                self.nodes@[place as int].children == unchanged.nodes@[place as int].children,
                self.nodes@[place as int].properties.deep() == set.remove_keys(
                    removed.take(at as int).to_set(),
                ),
            decreases snapshot.removed_properties@.len() - at,
        {
            let ghost before = self.nodes@[place as int].properties.deep();
            self.nodes[place].properties.remove(snapshot.removed_properties[at].as_str());
            proof {
                let name = snapshot.removed_properties@[at as int]@;
                crate::hierarchy::lemma_taken_set(removed, at as int);
                assert(removed[at as int] == name);
                assert(self.nodes@[place as int].properties.deep() =~= before.remove(name));
                assert(self.nodes@[place as int].properties.deep() =~= set.remove_keys(
                    removed.take(at + 1).to_set(),
                ));
            }
            at = at + 1;
        }
        proof {
            assert(removed.take(removed.len() as int) =~= removed);
            assert(self.nodes@[place as int]@ == updated_data(base.nodes[id], update));
            assert(self@.nodes =~= updated(view, update).nodes);
        }
        Ok(())
    }
}

// ---------------------------------------------------------------------------
// Walking

/// No instance is deeper.
pub open spec fn is_ceiling(view: TreeView, limit: nat) -> bool {
    forall|id: Ref| #[trigger] view.has(id) ==> view.depths()[id] <= limit
}

/// A bound on the depth of every instance.
pub open spec fn ceiling(view: TreeView) -> nat {
    choose|limit: nat| #[trigger] is_ceiling(view, limit)
}

proof fn lemma_bounded(set: Set<Ref>, depths: Map<Ref, nat>) -> (limit: nat)
    requires
        set.finite(),
    ensures
        forall|id: Ref| #[trigger] set.contains(id) ==> depths[id] <= limit,
    decreases set.len(),
{
    if set.len() == 0 {
        assert forall|id: Ref| #[trigger] set.contains(id) implies depths[id] <= 0 by {
            assert(set =~= Set::empty());
        }
        0
    } else {
        let some = set.choose();
        let rest = lemma_bounded(set.remove(some), depths);
        let limit = if depths[some] > rest { depths[some] } else { rest };
        assert forall|id: Ref| #[trigger] set.contains(id) implies depths[id] <= limit by {
            if id != some {
                assert(set.remove(some).contains(id));
            }
        }
        limit
    }
}

proof fn lemma_ceiling(view: TreeView)
    requires
        view.wf(),
    ensures
        is_ceiling(view, ceiling(view)),
        view.has_depths(view.depths()),
{
    let limit = lemma_bounded(view.nodes.dom(), view.depths());
    assert(is_ceiling(view, limit));
}

/// How far an instance is above the deepest one.
pub open spec fn headroom(view: TreeView, id: Ref) -> nat {
    (ceiling(view) - view.depths()[id]) as nat
}

pub proof fn lemma_headroom(view: TreeView, parent: Ref, child: Ref)
    requires
        view.wf(),
        view.has(child),
        child != view.root,
        view.nodes[child].parent == parent,
    ensures
        headroom(view, child) < headroom(view, parent),
{
    lemma_ceiling(view);
    assert(view.depths()[view.nodes[child].parent] < view.depths()[child]);
    assert(view.has(parent));
}

/// Listed instances are children of one instance.
pub open spec fn are_children(view: TreeView, list: Seq<Ref>, parent: Ref) -> bool {
    forall|at: int|
        0 <= at < list.len() ==> view.has(#[trigger] list[at]) && view.nodes[list[at]].parent == parent && list[at]
            != view.root
}

/// An instance followed by everything below it, each before its children.
pub open spec fn preorder(view: TreeView, id: Ref) -> Seq<Ref>
    decreases headroom(view, id), 1nat, 0nat,
    when view.wf() && view.has(id)
{
    seq![id] + preorder_list(view, view.nodes[id].children, id)
}

/// Children of one instance, each followed by everything below it.
pub open spec fn preorder_list(view: TreeView, list: Seq<Ref>, parent: Ref) -> Seq<Ref>
    decreases headroom(view, parent), 0nat, list.len(),
    when view.wf() && are_children(view, list, parent)
{
    if list.len() == 0 {
        Seq::empty()
    } else {
        proof {
            assert(view.has(list[list.len() - 1]));
            lemma_headroom(view, parent, list.last());
        }
        preorder_list(view, list.drop_last(), parent) + preorder(view, list.last())
    }
}

/// The snapshot of an instance and everything below it.
pub open spec fn snapshot_of(view: TreeView, id: Ref) -> NodeView
    decreases headroom(view, id), 1nat, 0nat,
    when view.wf() && view.has(id)
{
    NodeView {
        id,
        name: view.nodes[id].name,
        raw_name: stored_raw_name(view.nodes[id].properties),
        class: view.nodes[id].class,
        properties: view.nodes[id].properties.remove("__CarbonRawName"@),
        children: snapshots_of(view, view.nodes[id].children, id),
    }
}

/// The snapshots of children of one instance.
pub open spec fn snapshots_of(view: TreeView, list: Seq<Ref>, parent: Ref) -> Seq<NodeView>
    decreases headroom(view, parent), 0nat, list.len(),
    when view.wf() && are_children(view, list, parent)
{
    if list.len() == 0 {
        Seq::empty()
    } else {
        proof {
            assert(view.has(list[list.len() - 1]));
            lemma_headroom(view, parent, list.last());
        }
        snapshots_of(view, list.drop_last(), parent).push(snapshot_of(view, list.last()))
    }
}

/// A hierarchy with siblings in the order of their identities.
pub open spec fn reordered(node: NodeView) -> NodeView
    decreases node,
{
    let own = node.children.map_values(|child: NodeView| child.id);
    let sorted = sorted_refs(own);
    NodeView {
        children: Seq::new(
            sorted.len(),
            |k: int|
                {
                    let at = own.index_of(sorted[k]);
                    if 0 <= at < node.children.len() {
                        reordered(node.children[at])
                    } else {
                        arbitrary()
                    }
                },
        ),
        ..node
    }
}

/// No node uses the name under which a tree keeps raw names.
pub open spec fn spares_raw_names(node: NodeView) -> bool {
    let list = flat(node, Some(NO_REF));
    forall|at: int|
        0 <= at < list.len() ==> !(#[trigger] list[at]).node.properties.dom().contains("__CarbonRawName"@)
}

proof fn lemma_snapshots_of(view: TreeView, list: Seq<Ref>, parent: Ref)
    requires
        view.wf(),
        are_children(view, list, parent),
    ensures
        snapshots_of(view, list, parent).len() == list.len(),
        forall|k: int|
            0 <= k < list.len() ==> #[trigger] snapshots_of(view, list, parent)[k] == snapshot_of(view, list[k]),
    decreases list.len(),
{
    if list.len() > 0 {
        let shorter = list.drop_last();
        assert forall|at: int| 0 <= at < shorter.len() implies view.has(#[trigger] shorter[at])
            && view.nodes[shorter[at]].parent == parent && shorter[at] != view.root by {
            assert(shorter[at] == list[at]);
        }
        lemma_snapshots_of(view, shorter, parent);
        assert forall|k: int| 0 <= k < list.len() implies #[trigger] snapshots_of(view, list, parent)[k]
            == snapshot_of(view, list[k]) by {
            if k < shorter.len() {
                assert(shorter[k] == list[k]);
                assert(snapshots_of(view, shorter, parent)[k] == snapshot_of(view, shorter[k]));
            }
        }
    }
}

proof fn lemma_given_back(root: NodeView, node: NodeView, at: int)
    requires
        conflict(Set::empty().insert(NO_REF), flat_ids(flat(root, Some(NO_REF)))) is None,
        spares_raw_names(root),
        0 <= at < flat(root, Some(NO_REF)).len(),
        flat(root, Some(NO_REF))[at].node == node,
    ensures
        tree_of(root).has(node.id),
        snapshot_of(tree_of(root), node.id) == reordered(node),
    decreases node,
{
    let list = flat(root, Some(NO_REF));
    let view = tree_of(root);
    lemma_tree_of(root);
    lemma_no_conflict(Set::empty().insert(NO_REF), flat_ids(list));
    lemma_flat_links(root, Some(NO_REF));
    lemma_siblings_differ(root, Some(NO_REF));
    lemma_placed(Map::empty(), list);
    lemma_placed_links(Map::empty(), list, at);
    assert(flat_ids(list)[at] == node.id);
    assert(flat_ids(list).contains(node.id));
    assert(view.has(node.id));
    let own = node.children.map_values(|child: NodeView| child.id);
    let sorted = sorted_refs(own);
    lemma_sorted_refs(own);
    assert(view.nodes[node.id] == data_of(list[at]));
    assert(view.nodes[node.id].children == sorted);
    lemma_own_children(view, node.id);
    lemma_snapshots_of(view, sorted, node.id);
    let found = snapshots_of(view, sorted, node.id);
    assert forall|k: int| 0 <= k < sorted.len() implies found[k] == #[trigger] reordered(node).children[k] by {
        assert(sorted.contains(sorted[k]));
        assert(own.contains(sorted[k]));
        let i = own.index_of(sorted[k]);
        assert(holds(list, at, i));
        let lower = choose|lower: int|
            at < lower < list.len() && #[trigger] list[lower] == (FlatView {
                parent: Some(list[at].node.id),
                node: list[at].node.children[i],
            });
        lemma_given_back(root, node.children[i], lower);
        assert(node.children[i].id == sorted[k]);
    }
    assert(found =~= reordered(node).children);
    assert(!node.properties.dom().contains("__CarbonRawName"@));
    let stored = stored_properties(node.properties, node.raw_name);
    assert(stored.remove("__CarbonRawName"@) =~= node.properties);
    assert(stored_raw_name(stored) == node.raw_name);
}

/// A tree gives back the hierarchy that it was built from, with siblings in the order
/// of their identities.
pub proof fn law_trees_give_back_their_hierarchy(node: NodeView)
    requires
        conflict(Set::empty().insert(NO_REF), flat_ids(flat(node, Some(NO_REF)))) is None,
        spares_raw_names(node),
    ensures
        tree_of(node).wf(),
        snapshot_of(tree_of(node), tree_of(node).root) == reordered(node),
{
    lemma_tree_of(node);
    lemma_flat_links(node, Some(NO_REF));
    lemma_given_back(node, node, 0);
}

pub(crate) proof fn lemma_own_children(view: TreeView, id: Ref)
    requires
        view.wf(),
        view.has(id),
    ensures
        are_children(view, view.nodes[id].children, id),
{
    assert forall|at: int| 0 <= at < view.nodes[id].children.len() implies view.has(
        #[trigger] view.nodes[id].children[at],
    ) && view.nodes[view.nodes[id].children[at]].parent == id && view.nodes[id].children[at] != view.root by {
        let child = view.nodes[id].children[at];
    }
}

pub(crate) proof fn lemma_below_transitive(view: TreeView, a: Ref, b: Ref, c: Ref)
    requires
        view.wf(),
        view.has(a),
        view.has(b),
        below(view, a, b),
        below(view, b, c),
    ensures
        below(view, a, c),
    decreases view.depths()[a],
{
    assert(view.has_depths(view.depths()));
    if a != b {
        assert(view.depths()[view.nodes[a].parent] < view.depths()[a]);
        assert(view.has(view.nodes[a].parent));
        lemma_below_transitive(view, view.nodes[a].parent, b, c);
    }
}

proof fn lemma_below_depth(view: TreeView, lower: Ref, upper: Ref)
    requires
        view.wf(),
        view.has(lower),
        below(view, lower, upper),
    ensures
        view.has(upper),
        view.depths()[upper] <= view.depths()[lower],
    decreases view.depths()[lower],
{
    assert(view.has_depths(view.depths()));
    if lower != upper {
        assert(view.depths()[view.nodes[lower].parent] < view.depths()[lower]);
        assert(view.has(view.nodes[lower].parent));
        lemma_below_depth(view, view.nodes[lower].parent, upper);
    }
}

/// An instance stands below at most one of two siblings.
proof fn lemma_siblings_apart(view: TreeView, lower: Ref, a: Ref, b: Ref)
    requires
        view.wf(),
        view.has(lower),
        view.has(a),
        view.has(b),
        a != b,
        a != view.root,
        b != view.root,
        view.nodes[a].parent == view.nodes[b].parent,
        below(view, lower, a),
    ensures
        !below(view, lower, b),
    decreases view.depths()[lower],
{
    assert(view.has_depths(view.depths()));
    if lower == a {
        if below(view, a, b) {
            assert(below(view, view.nodes[a].parent, b));
            assert(view.has(view.nodes[a].parent));
            lemma_below_depth(view, view.nodes[a].parent, b);
            assert(view.depths()[view.nodes[b].parent] < view.depths()[b]);
        }
    } else if lower == b {
        assert(below(view, view.nodes[b].parent, a));
        assert(view.has(view.nodes[b].parent));
        lemma_below_depth(view, view.nodes[b].parent, a);
        assert(view.depths()[view.nodes[a].parent] < view.depths()[a]);
    } else {
        assert(view.depths()[view.nodes[lower].parent] < view.depths()[lower]);
        assert(view.has(view.nodes[lower].parent));
        lemma_siblings_apart(view, view.nodes[lower].parent, a, b);
    }
}

/// The walk from an instance visits exactly what stands below it.
pub proof fn law_preorder_is_the_subtree(view: TreeView, id: Ref, other: Ref)
    requires
        view.wf(),
        view.has(id),
        view.has(other),
    ensures
        preorder(view, id).contains(other) <==> below(view, other, id),
    decreases headroom(view, id), 1nat, 0nat,
{
    let children = view.nodes[id].children;
    lemma_own_children(view, id);
    lemma_list_subtree(view, children, id, other);
    let rest = preorder_list(view, children, id);
    let all = preorder(view, id);
    if all.contains(other) {
        let k = all.index_of(other);
        if k > 0 {
            assert(rest[k - 1] == other);
            assert(rest.contains(other));
            let at = choose|at: int| 0 <= at < children.len() && below(view, other, #[trigger] children[at]);
            assert(view.has(children[at]));
            assert(below(view, id, id));
            assert(view.nodes[children[at]].parent == id && children[at] != view.root);
            assert(below(view, children[at], id));
            lemma_below_transitive(view, other, children[at], id);
        }
    }
    if below(view, other, id) {
        if other == id {
            assert(all[0] == id);
        } else {
            lemma_below_child(view, other, id);
            let at = choose|at: int| 0 <= at < children.len() && below(view, other, #[trigger] children[at]);
            let k = rest.index_of(other);
            assert(all[k + 1] == other);
        }
    }
}

pub(crate) proof fn lemma_below_child(view: TreeView, lower: Ref, upper: Ref)
    requires
        view.wf(),
        view.has(lower),
        view.has(upper),
        lower != upper,
        below(view, lower, upper),
    ensures
        exists|at: int|
            0 <= at < view.nodes[upper].children.len() && below(
                view,
                lower,
                #[trigger] view.nodes[upper].children[at],
            ),
    decreases view.depths()[lower],
{
    assert(view.has_depths(view.depths()));
    let parent = view.nodes[lower].parent;
    assert(view.depths()[view.nodes[lower].parent] < view.depths()[lower]);
    assert(view.has(parent) && view.nodes[parent].children.contains(lower));
    if parent == upper {
        let at = view.nodes[upper].children.index_of(lower);
        assert(below(view, lower, view.nodes[upper].children[at]));
    } else {
        lemma_below_child(view, parent, upper);
        let at = choose|at: int|
            0 <= at < view.nodes[upper].children.len() && below(
                view,
                parent,
                #[trigger] view.nodes[upper].children[at],
            );
        assert(below(view, lower, view.nodes[upper].children[at]));
    }
}

proof fn lemma_list_subtree(view: TreeView, list: Seq<Ref>, parent: Ref, other: Ref)
    requires
        view.wf(),
        are_children(view, list, parent),
        view.has(other),
    ensures
        preorder_list(view, list, parent).contains(other) <==> exists|at: int|
            0 <= at < list.len() && below(view, other, #[trigger] list[at]),
    decreases headroom(view, parent), 0nat, list.len(),
{
    if list.len() > 0 {
        let shorter = list.drop_last();
        assert(view.has(list[list.len() - 1]));
        lemma_headroom(view, parent, list.last());
        assert forall|at: int| 0 <= at < shorter.len() implies view.has(#[trigger] shorter[at])
            && view.nodes[shorter[at]].parent == parent && shorter[at] != view.root by {
            assert(list[at] == shorter[at]);
        }
        lemma_list_subtree(view, shorter, parent, other);
        law_preorder_is_the_subtree(view, list.last(), other);
        let before = preorder_list(view, shorter, parent);
        let last = preorder(view, list.last());
        let all = preorder_list(view, list, parent);
        if all.contains(other) {
            let k = all.index_of(other);
            if k < before.len() {
                assert(before[k] == other);
                let at = choose|at: int| 0 <= at < shorter.len() && below(view, other, #[trigger] shorter[at]);
                assert(list[at] == shorter[at]);
            } else {
                assert(last[k - before.len()] == other);
                assert(below(view, other, list[list.len() - 1]));
            }
        }
        if exists|at: int| 0 <= at < list.len() && below(view, other, #[trigger] list[at]) {
            let at = choose|at: int| 0 <= at < list.len() && below(view, other, #[trigger] list[at]);
            if at < shorter.len() {
                assert(shorter[at] == list[at]);
                let k = before.index_of(other);
                assert(all[k] == other);
            } else {
                let k = last.index_of(other);
                assert(all[before.len() + k] == other);
            }
        }
    }
}

/// The walk visits instances of the tree only.
pub proof fn lemma_preorder_known(view: TreeView, id: Ref)
    requires
        view.wf(),
        view.has(id),
    ensures
        forall|k: int| 0 <= k < preorder(view, id).len() ==> view.has(#[trigger] preorder(view, id)[k]),
    decreases headroom(view, id), 1nat, 0nat,
{
    lemma_own_children(view, id);
    lemma_preorder_list_known(view, view.nodes[id].children, id);
    let rest = preorder_list(view, view.nodes[id].children, id);
    assert forall|k: int| 0 <= k < preorder(view, id).len() implies view.has(#[trigger] preorder(view, id)[k]) by {
        if k > 0 {
            assert(preorder(view, id)[k] == rest[k - 1]);
        }
    }
}

proof fn lemma_preorder_list_known(view: TreeView, list: Seq<Ref>, parent: Ref)
    requires
        view.wf(),
        are_children(view, list, parent),
    ensures
        forall|k: int|
            0 <= k < preorder_list(view, list, parent).len() ==> view.has(
                #[trigger] preorder_list(view, list, parent)[k],
            ),
    decreases headroom(view, parent), 0nat, list.len(),
{
    if list.len() > 0 {
        let shorter = list.drop_last();
        assert(view.has(list[list.len() - 1]));
        lemma_headroom(view, parent, list.last());
        assert forall|at: int| 0 <= at < shorter.len() implies view.has(#[trigger] shorter[at])
            && view.nodes[shorter[at]].parent == parent && shorter[at] != view.root by {
            assert(list[at] == shorter[at]);
        }
        lemma_preorder_list_known(view, shorter, parent);
        lemma_preorder_known(view, list.last());
        let before = preorder_list(view, shorter, parent);
        let last = preorder(view, list.last());
        assert forall|k: int| 0 <= k < preorder_list(view, list, parent).len() implies view.has(
            #[trigger] preorder_list(view, list, parent)[k],
        ) by {
            if k < before.len() {
                assert(preorder_list(view, list, parent)[k] == before[k]);
            } else {
                assert(preorder_list(view, list, parent)[k] == last[k - before.len()]);
            }
        }
    }
}

impl Tree {
    fn collect_refs(&self, id: Ref, out: &mut Vec<Ref>)
        requires
            self.wf(),
            self@.has(id),
        ensures
            final(out)@ == old(out)@ + preorder(self@, id),
        decreases headroom(self@, id),
    {
        let ghost view = self@;
        proof {
            lemma_own_children(view, id);
        }
        out.push(id);
        match self.get_instance(id) {
            Some(node) => {
                let children: &Vec<Ref> = node.children();
                let mut at: usize = 0;
                proof {
                    assert(children@.take(0) =~= Seq::empty());
                    assert(out@ =~= old(out)@ + seq![id] + preorder_list(view, children@.take(0), id));
                }
                while at < children.len()
                    invariant
                        at <= children@.len(),
                        self.wf(),
                        view == self@,
                        view.has(id),
                        children@ == view.nodes[id].children,
                        are_children(view, children@, id),
                        out@ == old(out)@ + seq![id] + preorder_list(view, children@.take(at as int), id),
                    decreases children@.len() - at,
                {
                    proof {
                        let next = children@.take(at + 1);
                        assert(next.drop_last() =~= children@.take(at as int));
                        assert(next.last() == children@[at as int]);
                        assert(view.has(children@[at as int]));
                        lemma_headroom(view, id, children@[at as int]);
                        assert forall|k: int| 0 <= k < next.len() implies view.has(#[trigger] next[k])
                            && view.nodes[next[k]].parent == id && next[k] != view.root by {
                            assert(next[k] == children@[k]);
                        }
                        assert(are_children(view, next, id));
                    }
                    self.collect_refs(children[at], out);
                    proof {
                        assert(out@ =~= old(out)@ + seq![id] + preorder_list(view, children@.take(at + 1), id));
                    }
                    at = at + 1;
                }
                proof {
                    assert(children@.take(children@.len() as int) =~= children@);
                    assert(out@ =~= old(out)@ + preorder(view, id));
                }
            },
            None => {
                proof {
                    assert(false);
                }
            },
        }
    }

    /// An instance and everything below it.
    pub fn subtree_refs(&self, id: Ref) -> (refs: Result<Vec<Ref>, TreeError>)
        requires
            self.wf(),
        ensures
            if self@.has(id) {
                refs matches Ok(refs) && refs@ == preorder(self@, id)
            } else {
                refs == Err::<Vec<Ref>, TreeError>(TreeError::InstanceMissing(id))
            },
    {
        if !self.contains(id) {
            return Err(TreeError::InstanceMissing(id));
        }
        let mut refs: Vec<Ref> = Vec::new();
        self.collect_refs(id, &mut refs);
        proof {
            assert(refs@ =~= preorder(self@, id));
        }
        Ok(refs)
    }

    /// A copy of the snapshot of an instance.
    pub fn snapshot(&self, id: Ref) -> (snapshot: Snapshot)
        requires
            self.wf(),
            self@.has(id),
        ensures
            snapshot.node() == snapshot_of(self@, id),
        decreases headroom(self@, id),
    {
        let ghost view = self@;
        proof {
            lemma_own_children(view, id);
        }
        let place: usize = self.place_of(id);
        let node: &TreeNode = &self.nodes[place];
        let mut snapshots: Vec<Snapshot> = Vec::new();
        let mut at: usize = 0;
        proof {
            assert(node.children@.take(0) =~= Seq::empty());
            assert(nodes(snapshots@) =~= Seq::empty());
        }
        while at < node.children.len()
            invariant
                at <= node.children@.len(),
                self.wf(),
                view == self@,
                view.has(id),
                node.children@ == view.nodes[id].children,
                are_children(view, node.children@, id),
                nodes(snapshots@) == snapshots_of(view, node.children@.take(at as int), id),
            decreases node.children@.len() - at,
        {
            let ghost before = snapshots@;
            proof {
                let children = node.children@;
                let next = children.take(at + 1);
                assert(next.drop_last() =~= children.take(at as int));
                assert(next.last() == children[at as int]);
                assert(view.has(children[at as int]));
                lemma_headroom(view, id, children[at as int]);
                assert forall|k: int| 0 <= k < next.len() implies view.has(#[trigger] next[k])
                    && view.nodes[next[k]].parent == id && next[k] != view.root by {
                    assert(next[k] == children[k]);
                }
                assert(are_children(view, next, id));
            }
            let child: Snapshot = self.snapshot(node.children[at]);
            snapshots.push(child);
            proof {
                assert(nodes(snapshots@) =~= nodes(before).push(child.node()));
            }
            at = at + 1;
        }
        proof {
            assert(node.children@.take(node.children@.len() as int) =~= node.children@);
        }
        let mut properties: Properties = node.properties.copy();
        let raw_name: Option<Vec<u8>> = take_raw_name(&mut properties);
        let snapshot = Snapshot {
            id,
            name: node.name.clone(),
            raw_name,
            class: node.class.clone(),
            properties,
            children: snapshots,
        };
        proof {
            lemma_children(snapshot);
        }
        snapshot
    }
}

/// The arena with a slot for each instance that has not been taken.
spec fn slots_hold(tree: Tree, slots: Seq<Option<TreeNode>>, id: Ref) -> bool {
    slots[tree.by_ref@[id] as int] == Some(tree.nodes@[tree.by_ref@[id] as int])
}

fn take_snapshot(
    id: Ref,
    slots: &mut Vec<Option<TreeNode>>,
    by_ref: &HashMap<u128, usize>,
    Ghost(tree): Ghost<Tree>,
) -> (snapshot: Snapshot)
    requires
        tree.wf(),
        tree@.has(id),
        by_ref@ == tree.by_ref@,
        old(slots)@.len() == tree.nodes@.len(),
        forall|other: Ref| tree@.has(other) && below(tree@, other, id) ==> #[trigger] slots_hold(
            tree,
            old(slots)@,
            other,
        ),
    ensures
        snapshot.node() == snapshot_of(tree@, id),
        final(slots)@.len() == old(slots)@.len(),
        forall|other: Ref|
            tree@.has(other) && !below(tree@, other, id) && slots_hold(tree, old(slots)@, other)
                ==> #[trigger] slots_hold(tree, final(slots)@, other),
    decreases headroom(tree@, id),
{
    let ghost view = tree@;
    let ghost start = slots@;
    proof {
        lemma_own_children(view, id);
        assert(below(view, id, id));
        assert(slots_hold(tree, slots@, id));
    }
    let place: usize = match by_ref.get(&id) {
        Some(place) => *place,
        None => 0,
    };
    let taken: Option<TreeNode> = slots[place].take();
    let mut node: TreeNode = match taken {
        Some(node) => node,
        None => {
            proof {
                assert(false);
            }
            TreeNode {
                referent: id,
                parent: NO_REF,
                class: String::new(),
                name: String::new(),
                properties: Properties::new(),
                children: Vec::new(),
            }
        },
    };
    let ghost data = node@;
    let raw_name: Option<Vec<u8>> = take_raw_name(&mut node.properties);
    let mut snapshots: Vec<Snapshot> = Vec::new();
    let mut at: usize = 0;
    proof {
        assert(data == view.nodes[id]);
        assert(node.children@.take(0) =~= Seq::empty());
        assert(nodes(snapshots@) =~= Seq::empty());
        assert forall|other: Ref| tree@.has(other) && other != id && slots_hold(tree, start, other) implies
            #[trigger] slots_hold(tree, slots@, other) by {
            assert(tree.by_ref@.dom().contains(other));
            if tree.by_ref@[other] == place {
                assert(tree.nodes@[place as int].referent == other);
            }
        }
    }
    while at < node.children.len()
        invariant
            at <= node.children@.len(),
            tree.wf(),
            view == tree@,
            view.has(id),
            by_ref@ == tree.by_ref@,
            slots@.len() == tree.nodes@.len(),
            node.children@ == view.nodes[id].children,
            are_children(view, node.children@, id),
            nodes(snapshots@) == snapshots_of(view, node.children@.take(at as int), id),
            forall|other: Ref|
                view.has(other) && below(view, other, id) ==> #[trigger] slots_hold(tree, start, other),
            forall|other: Ref|
                view.has(other) && other != id && slots_hold(tree, start, other) && (forall|k: int|
                    0 <= k < at ==> !below(view, other, #[trigger] node.children@[k])) ==> #[trigger] slots_hold(
                    tree,
                    slots@,
                    other,
                ),
        decreases node.children@.len() - at,
    {
        let ghost before = snapshots@;
        let ghost slots_before = slots@;
        let child_id: Ref = node.children[at];
        proof {
            let children = node.children@;
            let next = children.take(at + 1);
            assert(next.drop_last() =~= children.take(at as int));
            assert(next.last() == child_id);
            assert(view.has(children[at as int]));
            lemma_headroom(view, id, child_id);
            assert forall|k: int| 0 <= k < next.len() implies view.has(#[trigger] next[k])
                && view.nodes[next[k]].parent == id && next[k] != view.root by {
                assert(next[k] == children[k]);
            }
            assert(are_children(view, next, id));
            assert(view.nodes[id].children.no_duplicates());
            assert forall|other: Ref| view.has(other) && below(view, other, child_id) implies
                #[trigger] slots_hold(tree, slots@, other) by {
                assert(below(view, child_id, id)) by {
                    assert(view.nodes[child_id].parent == id);
                    assert(below(view, id, id));
                }
                lemma_below_transitive(view, other, child_id, id);
                assert(slots_hold(tree, start, other));
                assert(other != id) by {
                    if other == id {
                        lemma_below_depth(view, id, child_id);
                        assert(view.has_depths(view.depths()));
                        assert(view.depths()[view.nodes[child_id].parent] < view.depths()[child_id]);
                    }
                }
                assert forall|k: int| 0 <= k < at implies !below(view, other, #[trigger] children[k]) by {
                    assert(view.has(children[k]));
                    assert(children[k] != child_id);
                    lemma_siblings_apart(view, other, child_id, children[k]);
                }
            }
        }
        let child: Snapshot = take_snapshot(child_id, slots, by_ref, Ghost(tree));
        snapshots.push(child);
        proof {
            assert(nodes(snapshots@) =~= nodes(before).push(child.node()));
            assert forall|other: Ref|
                view.has(other) && other != id && slots_hold(tree, start, other) && (forall|k: int|
                    0 <= k < at + 1 ==> !below(view, other, #[trigger] node.children@[k])) implies
                #[trigger] slots_hold(tree, slots@, other) by {
                assert(!below(view, other, node.children@[at as int]));
                assert(slots_hold(tree, slots_before, other));
            }
        }
        at = at + 1;
    }
    proof {
        assert(node.children@.take(node.children@.len() as int) =~= node.children@);
        assert forall|other: Ref|
            view.has(other) && !below(view, other, id) && slots_hold(tree, start, other) implies
            #[trigger] slots_hold(tree, slots@, other) by {
            assert(other != id);
            assert forall|k: int| 0 <= k < node.children@.len() implies !below(
                view,
                other,
                #[trigger] node.children@[k],
            ) by {
                let child = node.children@[k];
                assert(view.has(child));
                if below(view, other, child) {
                    assert(below(view, child, id)) by {
                        assert(view.nodes[child].parent == id);
                        assert(below(view, id, id));
                    }
                    lemma_below_transitive(view, other, child, id);
                }
            }
        }
    }
    let snapshot = Snapshot {
        id,
        name: node.name,
        raw_name,
        class: node.class,
        properties: node.properties,
        children: snapshots,
    };
    proof {
        lemma_children(snapshot);
    }
    snapshot
}

impl Tree {
    /// Consumes the arena into a recursive snapshot without copying names or
    /// properties.
    pub fn into_snapshot(self) -> (snapshot: Snapshot)
        requires
            self.wf(),
        ensures
            snapshot.node() == snapshot_of(self@, self@.root),
    {
        let ghost whole = self;
        let root: Ref = self.root_ref;
        let mut slots: Vec<Option<TreeNode>> = Vec::new();
        for node in iter: self.nodes
            invariant
                iter.seq() == whole.nodes@,
                slots@.len() == iter.index(),
                forall|k: int| 0 <= k < slots@.len() ==> #[trigger] slots@[k] == Some(whole.nodes@[k]),
        {
            slots.push(Some(node));
        }
        proof {
            assert forall|other: Ref| whole@.has(other) && below(whole@, other, root) implies
                #[trigger] slots_hold(whole, slots@, other) by {
                assert(whole.by_ref@.dom().contains(other));
            }
        }
        take_snapshot(root, &mut slots, &self.by_ref, Ghost(whole))
    }
}

// ---------------------------------------------------------------------------
// Pages

/// A number that no machine size exceeds.
pub open spec fn capped(number: nat) -> nat {
    if number <= usize::MAX {
        number
    } else {
        usize::MAX as nat
    }
}

/// The bytes that an instance counts for in a page.
pub open spec fn page_bytes(data: TreeNodeView) -> nat {
    capped(96 + text_bytes(data.name).len() + text_bytes(data.class).len())
}

/// The state of a page: what it holds, what is still to come and its bytes.
#[verifier::ext_equal]
pub struct PageView {
    pub taken: Seq<Ref>,
    pub cursor: Seq<Ref>,
    pub bytes: nat,
}

/// A page continued until it is full or nothing is left, unless the cursor
/// names an instance that the tree does not hold. The first instance always
/// fits.
pub open spec fn page_from(view: TreeView, page: PageView, max_instances: nat, max_bytes: nat) -> Option<PageView>
    decreases max_instances - page.taken.len(),
{
    if page.taken.len() >= max_instances || page.cursor.len() == 0 {
        Some(page)
    } else {
        let id = page.cursor.last();
        if !view.has(id) {
            None
        } else {
            let size = page_bytes(view.nodes[id]);
            if page.taken.len() > 0 && page.bytes + size > max_bytes {
                Some(page)
            } else {
                page_from(
                    view,
                    PageView {
                        taken: page.taken.push(id),
                        cursor: page.cursor.drop_last() + view.nodes[id].children.reverse(),
                        bytes: page.bytes + size,
                    },
                    max_instances,
                    max_bytes,
                )
            }
        }
    }
}

/// What a page says of an instance.
pub open spec fn page_entry(view: TreeView, id: Ref, entry: HierarchySnapshot) -> bool {
    &&& entry.id == id
    &&& entry.parent == view.nodes[id].parent
    &&& entry.name@ == view.nodes[id].name
    &&& bytes_view(entry.raw_name) == stored_raw_name(view.nodes[id].properties)
    &&& entry.class@ == view.nodes[id].class
    &&& !entry.unavailable
}

/// Whether a page holds the listed instances.
pub open spec fn page_holds(view: TreeView, page: PageView, found: SnapshotPage) -> bool {
    &&& found.instances@.len() == page.taken.len()
    &&& forall|at: int|
        0 <= at < page.taken.len() ==> page_entry(view, page.taken[at], #[trigger] found.instances@[at])
    &&& found.cursor@ == page.cursor
    &&& found.done == (page.cursor.len() == 0)
    &&& found.encoded_bytes == page.bytes
}

/// Where a page starts: at its cursor or, without one, at an instance or the
/// root.
pub open spec fn page_start(view: TreeView, instance: Ref, cursor: Seq<Ref>) -> Seq<Ref> {
    if cursor.len() > 0 {
        cursor
    } else if instance != NO_REF {
        seq![instance]
    } else {
        seq![view.root]
    }
}

impl Tree {
    /// The next bounded page of a pre-order walk.
    pub fn snapshot_page(
        &self,
        instance: Ref,
        cursor: Vec<Ref>,
        max_instances: usize,
        max_bytes: usize,
    ) -> (page: Result<Option<SnapshotPage>, TreeError>)
        requires
            self.dense(),
        ensures
            ({
                let start = page_start(self@, instance, cursor@);
                let first = PageView { taken: Seq::empty(), cursor: start, bytes: 0 };
                if cursor@.len() == 0 && !self@.has(start[0]) {
                    page matches Ok(None)
                } else {
                    match page_from(self@, first, max_instances as nat, max_bytes as nat) {
                        Some(expected) => page matches Ok(Some(found)) && page_holds(self@, expected, found),
                        None => page == Err::<Option<SnapshotPage>, TreeError>(TreeError::CursorUnknown),
                    }
                }
            }),
    {
        let ghost view = self@;
        let ghost start = page_start(view, instance, cursor@);
        let mut queue = cursor;
        if queue.len() == 0 {
            let first: Ref = if instance != NO_REF {
                instance
            } else {
                self.root_ref
            };
            if !self.contains(first) {
                return Ok(None);
            }
            queue.push(first);
            proof {
                assert(queue@ =~= start);
            }
        }
        let mut instances: Vec<HierarchySnapshot> = Vec::new();
        let mut encoded_bytes: usize = 0;
        let ghost mut taken: Seq<Ref> = Seq::empty();
        let ghost first = PageView { taken: Seq::empty(), cursor: start, bytes: 0 };
        let mut full: bool = false;
        while !full && instances.len() < max_instances && queue.len() > 0
            invariant
                self.dense(),
                view == self@,
                start == page_start(view, instance, cursor@),
                first == (PageView { taken: Seq::empty(), cursor: start, bytes: 0 }),
                cursor@.len() == 0 ==> view.has(start[0]),
                taken.len() == 0 ==> encoded_bytes == 0,
                instances@.len() == taken.len(),
                taken.len() <= max_instances,
                forall|at: int|
                    0 <= at < taken.len() ==> page_entry(view, taken[at], #[trigger] instances@[at]),
                !full ==> page_from(view, first, max_instances as nat, max_bytes as nat) == page_from(
                    view,
                    (PageView { taken, cursor: queue@, bytes: encoded_bytes as nat }),
                    max_instances as nat,
                    max_bytes as nat,
                ),
                full ==> page_from(view, first, max_instances as nat, max_bytes as nat) == Some(
                    (PageView { taken, cursor: queue@, bytes: encoded_bytes as nat }),
                ),
            decreases max_instances - taken.len(), (if full { 0nat } else { 1nat }),
        {
            let id: Ref = queue[queue.len() - 1];
            let node: &TreeNode = match self.get_instance(id) {
                Some(node) => node,
                None => {
                    return Err(TreeError::CursorUnknown);
                },
            };
            let name_len: usize = node.name().as_bytes().len();
            let class_len: usize = node.class().as_bytes().len();
            let size: usize = match name_len.checked_add(class_len) {
                Some(sum) => match sum.checked_add(96) {
                    Some(size) => size,
                    None => usize::MAX,
                },
                None => usize::MAX,
            };
            proof {
                assert(size == page_bytes(view.nodes[id]));
            }
            if instances.len() > 0 && (encoded_bytes > max_bytes || size > max_bytes - encoded_bytes) {
                full = true;
            } else {
                let raw_name: Option<Vec<u8>> = match node.properties().get(RAW_NAME_PROPERTY) {
                    Some(Variant::BinaryString(bytes)) => Some(crate::text::copy_bytes(bytes.as_slice())),
                    _ => None,
                };
                let ghost entries = instances@;
                let ghost rest = queue@.drop_last();
                instances.push(
                    HierarchySnapshot {
                        id,
                        parent: node.parent(),
                        name: node.name().to_owned(),
                        raw_name,
                        class: node.class().to_owned(),
                        unavailable: false,
                    },
                );
                queue.pop();
                let children: &Vec<Ref> = node.children();
                let mut left: usize = children.len();
                proof {
                    assert(children@.reverse().take(0) =~= Seq::empty());
                }
                while left > 0
                    invariant
                        left <= children@.len(),
                        queue@ == rest + children@.reverse().take(children@.len() - left),
                    decreases left,
                {
                    left = left - 1;
                    queue.push(children[left]);
                    proof {
                        let turned = children@.reverse();
                        let k = children@.len() - left - 1;
                        assert(turned[k] == children@[left as int]);
                        assert(turned.take(k + 1) =~= turned.take(k).push(turned[k]));
                        assert(rest + turned.take(k + 1) =~= (rest + turned.take(k)).push(turned[k]));
                    }
                }
                proof {
                    let turned = children@.reverse();
                    assert(turned.take(children@.len() as int) =~= turned);
                    taken = taken.push(id);
                    assert forall|at: int| 0 <= at < taken.len() implies page_entry(
                        view,
                        taken[at],
                        #[trigger] instances@[at],
                    ) by {
                        if at < entries.len() {
                            assert(instances@[at] == entries[at]);
                        }
                    }
                }
                encoded_bytes = encoded_bytes + size;
            }
        }
        let done: bool = queue.len() == 0;
        Ok(Some(SnapshotPage { instances, cursor: queue, done, encoded_bytes }))
    }
}

/// What a walk has still to visit: each instance of its cursor with everything below
/// it, the last one first.
pub open spec fn still_to_come(view: TreeView, cursor: Seq<Ref>) -> Seq<Ref>
    decreases cursor.len(),
{
    if cursor.len() == 0 {
        Seq::empty()
    } else {
        preorder(view, cursor.last()) + still_to_come(view, cursor.drop_last())
    }
}

/// Every instance of a cursor is in the tree.
pub open spec fn is_cursor(view: TreeView, cursor: Seq<Ref>) -> bool {
    forall|k: int| 0 <= k < cursor.len() ==> view.has(#[trigger] cursor[k])
}

proof fn lemma_coming_joined(view: TreeView, a: Seq<Ref>, b: Seq<Ref>)
    ensures
        still_to_come(view, a + b) == still_to_come(view, b) + still_to_come(view, a),
    decreases b.len(),
{
    if b.len() == 0 {
        assert(a + b =~= a);
        assert(still_to_come(view, b) + still_to_come(view, a) =~= still_to_come(view, a));
    } else {
        lemma_coming_joined(view, a, b.drop_last());
        assert((a + b).drop_last() =~= a + b.drop_last());
        assert((a + b).last() == b.last());
        assert(still_to_come(view, a + b) =~= still_to_come(view, b) + still_to_come(view, a));
    }
}

proof fn lemma_coming_children(view: TreeView, list: Seq<Ref>, parent: Ref)
    requires
        view.wf(),
        are_children(view, list, parent),
    ensures
        still_to_come(view, list.reverse()) == preorder_list(view, list, parent),
    decreases list.len(),
{
    if list.len() == 0 {
        assert(list.reverse() =~= Seq::empty());
    } else {
        let shorter = list.drop_last();
        let last = seq![list.last()];
        assert(are_children(view, shorter, parent)) by {
            assert forall|at: int| 0 <= at < shorter.len() implies view.has(#[trigger] shorter[at])
                && view.nodes[shorter[at]].parent == parent && shorter[at] != view.root by {
                assert(shorter[at] == list[at]);
            }
        }
        lemma_coming_children(view, shorter, parent);
        assert(list.reverse() =~= last + shorter.reverse());
        lemma_coming_joined(view, last, shorter.reverse());
        assert(last.drop_last() =~= Seq::empty());
        assert(still_to_come(view, last.drop_last()) =~= Seq::empty());
        assert(still_to_come(view, last) =~= preorder(view, list.last()));
    }
}

/// A page takes the next instances of a walk, in order, and leaves the rest to its
/// cursor.
proof fn lemma_page_taken(view: TreeView, page: PageView, max_instances: nat, max_bytes: nat)
    requires
        view.wf(),
        is_cursor(view, page.cursor),
        page.taken.len() == 0 ==> page.bytes == 0,
        page.bytes <= max_bytes || page.taken.len() <= 1,
        page.taken.len() <= max_instances,
    ensures
        page_from(view, page, max_instances, max_bytes) matches Some(after) && {
            &&& is_cursor(view, after.cursor)
            &&& after.taken + still_to_come(view, after.cursor) == page.taken + still_to_come(view, page.cursor)
            &&& page.taken.len() <= after.taken.len() <= max_instances
            &&& page.cursor.len() > 0 && max_instances > 0 ==> after.taken.len() > 0
            &&& after.bytes <= max_bytes || after.taken.len() <= 1
        },
    decreases max_instances - page.taken.len(),
{
    if page.taken.len() < max_instances && page.cursor.len() > 0 {
        let id = page.cursor.last();
        assert(view.has(page.cursor[page.cursor.len() - 1]));
        let size = page_bytes(view.nodes[id]);
        if !(page.taken.len() > 0 && page.bytes + size > max_bytes) {
            let rest = page.cursor.drop_last();
            let turned = view.nodes[id].children.reverse();
            let next = PageView { taken: page.taken.push(id), cursor: rest + turned, bytes: page.bytes + size };
            lemma_own_children(view, id);
            lemma_coming_children(view, view.nodes[id].children, id);
            lemma_coming_joined(view, rest, turned);
            assert(is_cursor(view, next.cursor)) by {
                assert forall|k: int| 0 <= k < next.cursor.len() implies view.has(#[trigger] next.cursor[k]) by {
                    if k < rest.len() {
                        assert(next.cursor[k] == page.cursor[k]);
                    } else {
                        let child = view.nodes[id].children[turned.len() - 1 - (k - rest.len())];
                        assert(next.cursor[k] == child);
                    }
                }
            }
            lemma_page_taken(view, next, max_instances, max_bytes);
            assert(next.taken + still_to_come(view, next.cursor) =~= page.taken + still_to_come(view, page.cursor));
        }
    }
}

/// The page that continues a walk at a cursor.
pub open spec fn page_at(view: TreeView, cursor: Seq<Ref>, max_instances: nat, max_bytes: nat) -> Option<PageView> {
    page_from(view, PageView { taken: Seq::empty(), cursor, bytes: 0 }, max_instances, max_bytes)
}

/// What pages hold, one after the other.
pub open spec fn all_taken(pages: Seq<PageView>) -> Seq<Ref>
    decreases pages.len(),
{
    if pages.len() == 0 {
        Seq::empty()
    } else {
        all_taken(pages.drop_last()) + pages.last().taken
    }
}

/// A page that starts at the cursor of the one before it.
pub open spec fn continues(view: TreeView, pages: Seq<PageView>, k: int, max_instances: nat, max_bytes: nat) -> bool {
    pages[k - 1].cursor.len() > 0 && page_at(view, pages[k - 1].cursor, max_instances, max_bytes) == Some(pages[k])
}

/// Pages of one walk from an instance: each starts at the cursor of the one before it.
pub open spec fn is_walk(view: TreeView, id: Ref, pages: Seq<PageView>, max_instances: nat, max_bytes: nat) -> bool {
    &&& pages.len() > 0 ==> page_at(view, seq![id], max_instances, max_bytes) == Some(pages[0])
    &&& forall|k: int| 0 < k < pages.len() ==> #[trigger] continues(view, pages, k, max_instances, max_bytes)
}

/// The pages of one walk together hold the next instances of the subtree, each once and
/// in pre-order; once nothing is left to the cursor, they hold all of it. Every page
/// holds at least one instance, and no more than asked for; its bytes stay within the
/// limit unless it holds a single instance.
pub proof fn law_pages_hold_the_subtree(
    view: TreeView,
    id: Ref,
    pages: Seq<PageView>,
    max_instances: nat,
    max_bytes: nat,
)
    requires
        view.wf(),
        view.has(id),
        max_instances > 0,
        pages.len() > 0,
        is_walk(view, id, pages, max_instances, max_bytes),
    ensures
        all_taken(pages) + still_to_come(view, pages.last().cursor) == preorder(view, id),
        pages.last().cursor.len() == 0 ==> all_taken(pages) == preorder(view, id),
        forall|k: int|
            0 <= k < pages.len() ==> 1 <= (#[trigger] pages[k]).taken.len() <= max_instances && (pages[k].bytes
                <= max_bytes || pages[k].taken.len() == 1),
        is_cursor(view, pages.last().cursor),
    decreases pages.len(),
{
    let last = pages.last();
    let shorter = pages.drop_last();
    if pages.len() == 1 {
        let start = PageView { taken: Seq::empty(), cursor: seq![id], bytes: 0 };
        lemma_page_taken(view, start, max_instances, max_bytes);
        assert(start.cursor.drop_last() =~= Seq::empty());
        assert(still_to_come(view, start.cursor.drop_last()) =~= Seq::empty());
        assert(still_to_come(view, start.cursor) =~= preorder(view, id));
        assert(start.taken + still_to_come(view, start.cursor) =~= preorder(view, id));
        assert(shorter =~= Seq::empty());
        assert(all_taken(shorter) =~= Seq::empty());
        assert(all_taken(pages) =~= last.taken);
    } else {
        assert(is_walk(view, id, shorter, max_instances, max_bytes)) by {
            assert forall|k: int| 0 < k < shorter.len() implies #[trigger] continues(
                view,
                shorter,
                k,
                max_instances,
                max_bytes,
            ) by {
                assert(continues(view, pages, k, max_instances, max_bytes));
            }
        }
        law_pages_hold_the_subtree(view, id, shorter, max_instances, max_bytes);
        let cursor = shorter.last().cursor;
        assert(continues(view, pages, pages.len() - 1, max_instances, max_bytes));
        let start = PageView { taken: Seq::empty(), cursor, bytes: 0 };
        lemma_page_taken(view, start, max_instances, max_bytes);
        assert(start.taken + still_to_come(view, cursor) =~= still_to_come(view, cursor));
        assert(all_taken(pages) + still_to_come(view, last.cursor) =~= all_taken(shorter) + (last.taken
            + still_to_come(view, last.cursor)));
        assert forall|k: int| 0 <= k < pages.len() implies 1 <= (#[trigger] pages[k]).taken.len() <= max_instances && (
        pages[k].bytes <= max_bytes || pages[k].taken.len() == 1) by {
            if k < shorter.len() {
                assert(shorter[k] == pages[k]);
            }
        }
    }
    if last.cursor.len() == 0 {
        assert(all_taken(pages) + still_to_come(view, last.cursor) =~= all_taken(pages));
    }
}

// ---------------------------------------------------------------------------
// Building from loose instances

/// What a tree stores of a loose instance, whose children are not known yet.
pub open spec fn loose_data(node: NodeView, parent: Ref) -> TreeNodeView {
    TreeNodeView {
        parent,
        class: node.class,
        name: node.name,
        properties: stored_properties(node.properties, node.raw_name),
        children: Seq::empty(),
    }
}

/// The listed instances that name one parent.
pub open spec fn loose_children(view: TreeView, order: Seq<Ref>, parent: Ref) -> Seq<Ref>
    decreases order.len(),
{
    if order.len() == 0 {
        Seq::empty()
    } else {
        let before = loose_children(view, order.drop_last(), parent);
        if view.nodes[order.last()].parent == parent {
            before.push(order.last())
        } else {
            before
        }
    }
}

/// The first listed instance that has no place: a second root, or one whose
/// parent is missing.
pub open spec fn loose_fault(view: TreeView, order: Seq<Ref>) -> Option<TreeError>
    decreases order.len(),
{
    if order.len() == 0 {
        None
    } else {
        match loose_fault(view, order.drop_last()) {
            Some(fault) => Some(fault),
            None => {
                let parent = view.nodes[order.last()].parent;
                if parent == NO_REF {
                    if order.last() == view.root {
                        None
                    } else {
                        Some(TreeError::MultipleRoots)
                    }
                } else if !view.has(parent) {
                    Some(TreeError::ParentMissing)
                } else {
                    None
                }
            },
        }
    }
}

proof fn lemma_loose_fault_prefix(view: TreeView, order: Seq<Ref>, at: int)
    requires
        0 <= at <= order.len(),
    ensures
        loose_fault(view, order.take(at)) is Some ==> loose_fault(view, order) == loose_fault(
            view,
            order.take(at),
        ),
    decreases order.len(),
{
    if at == order.len() {
        assert(order.take(at) =~= order);
    } else {
        lemma_loose_fault_prefix(view, order.drop_last(), at);
        assert(order.drop_last().take(at) =~= order.take(at));
    }
}

/// A tree in which every instance lists the instances that name it.
pub open spec fn gathered(view: TreeView, order: Seq<Ref>) -> TreeView {
    TreeView {
        nodes: Map::new(
            |id: Ref| view.has(id),
            |id: Ref|
                TreeNodeView { children: sorted_refs(loose_children(view, order, id)), ..view.nodes[id] },
        ),
        ..view
    }
}

impl Tree {
    /// The identities in the order in which they were stored.
    pub closed spec fn order(self) -> Seq<Ref> {
        self.nodes@.map_values(|node: TreeNode| node.referent)
    }

    /// A tree of one loose root.
    pub fn new_detached(snapshot: Snapshot, capacity: usize) -> (tree: Result<Self, TreeError>)
        ensures
            if snapshot.node().id == NO_REF {
                tree == Err::<Self, TreeError>(TreeError::RootWithoutId)
            } else {
                tree matches Ok(tree) && tree.dense() && tree.order() == seq![snapshot.node().id] && tree@ == (
                TreeView {
                    root: snapshot.node().id,
                    nodes: Map::empty().insert(snapshot.node().id, loose_data(snapshot.node(), NO_REF)),
                })
            },
    {
        if snapshot.id == NO_REF {
            return Err(TreeError::RootWithoutId);
        }
        let ghost node = snapshot.node();
        let mut tree = Tree {
            nodes: Vec::with_capacity(capacity),
            by_ref: HashMap::with_capacity(capacity),
            root_ref: snapshot.id,
        };
        proof {
            assert(tree@.nodes =~= Map::empty());
            assert(tree.order() =~= Seq::empty());
        }
        match tree.insert_detached(snapshot, NO_REF) {
            Ok(_) => {},
            Err(error) => {
                return Err(error);
            },
        }
        Ok(tree)
    }

    /// Stores one loose instance. What is below it is not looked at.
    pub fn insert_detached(&mut self, snapshot: Snapshot, parent: Ref) -> (inserted: Result<(), TreeError>)
        requires
            old(self).dense(),
        ensures
            final(self).dense(),
            if snapshot.node().id == NO_REF {
                inserted == Err::<(), TreeError>(TreeError::NodeWithoutId) && *final(self) == *old(self)
            } else if old(self)@.has(snapshot.node().id) {
                inserted == Err::<(), TreeError>(TreeError::Duplicate(snapshot.node().id)) && *final(self)
                    == *old(self)
            } else {
                inserted is Ok && final(self).order() == old(self).order().push(snapshot.node().id)
                    && final(self)@ == (TreeView {
                    nodes: old(self)@.nodes.insert(snapshot.node().id, loose_data(snapshot.node(), parent)),
                    ..old(self)@
                })
            },
    {
        if snapshot.id == NO_REF {
            return Err(TreeError::NodeWithoutId);
        }
        if self.contains(snapshot.id) {
            return Err(TreeError::Duplicate(snapshot.id));
        }
        let ghost order = self.order();
        let mut properties = snapshot.properties;
        match snapshot.raw_name {
            Some(raw_name) => {
                let ghost before = properties.deep();
                let ghost bytes = raw_name@;
                properties.insert(RAW_NAME_PROPERTY.to_owned(), Variant::BinaryString(raw_name));
                proof {
                    assert(properties.deep() =~= before.insert(
                        "__CarbonRawName"@,
                        VariantView::BinaryString(bytes),
                    ));
                }
            },
            None => {},
        }
        let id: Ref = snapshot.id;
        let node = TreeNode {
            referent: id,
            parent,
            class: snapshot.class,
            name: snapshot.name,
            properties,
            children: Vec::new(),
        };
        proof {
            assert(node@ =~= loose_data(snapshot.node(), parent));
        }
        let at: usize = self.nodes.len();
        let ghost before = *self;
        self.by_ref.insert(id, at);
        self.nodes.push(node);
        proof {
            assert(self@.nodes =~= before@.nodes.insert(id, node@));
            assert(self.order() =~= order.push(id));
        }
        Ok(())
    }

    /// Gathers the children of every loose instance.
    #[verifier::rlimit(40)]
    pub fn finish_detached(&mut self) -> (finished: Result<(), TreeError>)
        requires
            old(self).dense(),
            !old(self)@.has(NO_REF),
        ensures
            final(self).dense(),
            match loose_fault(old(self)@, old(self).order()) {
                Some(fault) => finished == Err::<(), TreeError>(fault) && *final(self) == *old(self),
                None => finished is Ok && final(self)@ == gathered(old(self)@, old(self).order()),
            },
    {
        let ghost view = self@;
        let ghost order = self.order();
        let len: usize = self.nodes.len();
        let mut children: Vec<Vec<Ref>> = Vec::new();
        while children.len() < len
            invariant
                children@.len() <= len,
                forall|k: int| 0 <= k < children@.len() ==> (#[trigger] children@[k])@.len() == 0,
            decreases len - children@.len(),
        {
            children.push(Vec::new());
        }
        let mut at: usize = 0;
        proof {
            assert(order.take(0) =~= Seq::empty());
            assert forall|k: int| 0 <= k < len implies (#[trigger] children@[k])@ == loose_children(
                view,
                order.take(0),
                order[k],
            ) by {
                assert(children@[k]@ =~= Seq::empty());
            }
        }
        while at < len
            invariant
                at <= len,
                *self == *old(self),
                self.dense(),
                len == self.nodes@.len(),
                view == self@,
                order == self.order(),
                children@.len() == len,
                loose_fault(view, order.take(at as int)) is None,
                forall|k: int|
                    0 <= k < len ==> (#[trigger] children@[k])@ == loose_children(
                        view,
                        order.take(at as int),
                        order[k],
                    ),
                !view.has(NO_REF),
            decreases len - at,
        {
            let parent: Ref = self.nodes[at].parent;
            let id: Ref = self.nodes[at].referent;
            proof {
                let next = order.take(at + 1);
                assert(next.drop_last() =~= order.take(at as int));
                assert(next.last() == id);
                assert(view.nodes[id].parent == parent);
                lemma_loose_fault_prefix(view, order, at + 1);
            }
            if parent == NO_REF {
                if id != self.root_ref {
                    return Err(TreeError::MultipleRoots);
                }
            } else {
                let place: usize = match self.by_ref.get(&parent) {
                    Some(place) => *place,
                    None => {
                        return Err(TreeError::ParentMissing);
                    },
                };
                let ghost before = children@;
                children[place].push(id);
                proof {
                    assert(order[place as int] == parent);
                    assert forall|k: int| 0 <= k < len implies (
                    #[trigger] children@[k])@ == loose_children(view, order.take(at + 1), order[k]) by {
                        assert(before[k]@ == loose_children(view, order.take(at as int), order[k]));
                        if order[k] == parent {
                            assert(self.by_ref@[order[k]] == k);
                        }
                    }
                }
            }
            at = at + 1;
        }
        let mut next: usize = 0;
        proof {
            assert(order.take(len as int) =~= order);
        }
        while next < len
            invariant
                next <= len,
                len == self.nodes@.len(),
                old(self).dense(),
                view == old(self)@,
                order == old(self).order(),
                order.len() == len,
                self.by_ref == old(self).by_ref,
                self.root_ref == old(self).root_ref,
                self.nodes@.len() == old(self).nodes@.len(),
                children@.len() == len,
                forall|k: int|
                    0 <= k < len ==> (#[trigger] children@[k])@ == loose_children(
                        view,
                        order,
                        order[k],
                    ),
                forall|k: int|
                    next <= k < len ==> #[trigger] self.nodes@[k] == old(self).nodes@[k],
                forall|k: int|
                    0 <= k < next ==> (#[trigger] self.nodes@[k]).referent == order[k] && self.nodes@[k]@ == (
                    TreeNodeView {
                        children: sorted_refs(loose_children(view, order, order[k])),
                        ..old(self).nodes@[k]@
                    }),
            decreases len - next,
        {
            let sorted: Vec<Ref> = sort_refs(&children[next]);
            self.nodes[next].children = sorted;
            next = next + 1;
        }
        proof {
            assert forall|k: int| 0 <= k < len implies order[k] == old(self).nodes@[k].referent by {}
            assert(self.dense());
            assert(self@.nodes =~= gathered(view, order).nodes);
        }
        Ok(())
    }
}

// ---------------------------------------------------------------------------
// Order of emitted siblings

/// Whether one sibling is emitted before another: by class, then by name, then
/// by identity.
pub open spec fn output_before(view: TreeView, left: Ref, right: Ref) -> bool {
    let a = view.nodes[left];
    let b = view.nodes[right];
    text_before(a.class, b.class) || (a.class == b.class && (text_before(a.name, b.name) || (a.name == b.name
        && left < right)))
}

/// A list with one sibling more, after those that are not emitted after it.
pub open spec fn with_output(view: TreeView, list: Seq<Ref>, id: Ref) -> Seq<Ref>
    decreases list.len(),
{
    if list.len() == 0 || !output_before(view, id, list.last()) {
        list.push(id)
    } else {
        with_output(view, list.drop_last(), id).push(list.last())
    }
}

/// Siblings in the order in which they are emitted.
pub open spec fn output_sorted(view: TreeView, list: Seq<Ref>) -> Seq<Ref>
    decreases list.len(),
{
    if list.len() == 0 {
        Seq::empty()
    } else {
        with_output(view, output_sorted(view, list.drop_last()), list.last())
    }
}

/// A tree whose siblings stand in the order in which they are emitted.
pub open spec fn output_ordered(view: TreeView) -> TreeView {
    TreeView {
        nodes: view.nodes.map_values(
            |data: TreeNodeView| TreeNodeView { children: output_sorted(view, data.children), ..data },
        ),
        ..view
    }
}

proof fn lemma_with_output(view: TreeView, list: Seq<Ref>, id: Ref)
    ensures
        with_output(view, list, id).to_multiset() =~= list.to_multiset().insert(id),
    decreases list.len(),
{
    broadcast use vstd::seq_lib::group_to_multiset_ensures;

    if list.len() > 0 && output_before(view, id, list.last()) {
        lemma_with_output(view, list.drop_last(), id);
        assert(list =~= list.drop_last().push(list.last()));
    }
}

proof fn lemma_output_sorted(view: TreeView, list: Seq<Ref>)
    ensures
        output_sorted(view, list).to_multiset() =~= list.to_multiset(),
        output_sorted(view, list).len() == list.len(),
        forall|id: Ref| #[trigger] output_sorted(view, list).contains(id) <==> list.contains(id),
        list.no_duplicates() ==> output_sorted(view, list).no_duplicates(),
    decreases list.len(),
{
    broadcast use vstd::seq_lib::group_to_multiset_ensures;

    let sorted = output_sorted(view, list);
    if list.len() > 0 {
        lemma_output_sorted(view, list.drop_last());
        lemma_with_output(view, output_sorted(view, list.drop_last()), list.last());
        assert(list =~= list.drop_last().push(list.last()));
    }
    assert(sorted.to_multiset().len() == list.to_multiset().len());
    assert forall|id: Ref| #[trigger] sorted.contains(id) <==> list.contains(id) by {
        assert(sorted.contains(id) <==> sorted.to_multiset().count(id) > 0);
        assert(list.contains(id) <==> list.to_multiset().count(id) > 0);
    }
    if list.no_duplicates() {
        list.lemma_multiset_has_no_duplicates();
        assert forall|id: Ref| sorted.to_multiset().contains(id) implies sorted.to_multiset().count(id) == 1 by {
            assert(list.to_multiset().contains(id));
        }
        sorted.lemma_multiset_has_no_duplicates_conv();
    }
}

/// Siblings are emitted in a total order.
proof fn lemma_output_order(view: TreeView, a: Ref, b: Ref, c: Ref)
    ensures
        a != b ==> output_before(view, a, b) || output_before(view, b, a),
        !(output_before(view, a, b) && output_before(view, b, a)),
        output_before(view, a, b) && output_before(view, b, c) ==> output_before(view, a, c),
{
    let x = view.nodes[a];
    let y = view.nodes[b];
    let z = view.nodes[c];
    lemma_text_before_total(x.class, y.class);
    lemma_text_before_total(x.name, y.name);
    if text_before(x.class, y.class) && text_before(y.class, z.class) {
        lemma_text_before_transitive(x.class, y.class, z.class);
    }
    if text_before(x.name, y.name) && text_before(y.name, z.name) {
        lemma_text_before_transitive(x.name, y.name, z.name);
    }
}

/// Each sibling is emitted before those behind it.
spec fn in_output_order(view: TreeView, list: Seq<Ref>) -> bool {
    forall|i: int, j: int| 0 <= i < j < list.len() ==> output_before(view, #[trigger] list[i], #[trigger] list[j])
}

proof fn lemma_with_output_order(view: TreeView, list: Seq<Ref>, id: Ref)
    requires
        in_output_order(view, list),
        !list.contains(id),
    ensures
        in_output_order(view, with_output(view, list, id)),
        forall|other: Ref| #[trigger] with_output(view, list, id).contains(other) <==> list.contains(other) || other == id,
    decreases list.len(),
{
    let whole = with_output(view, list, id);
    if list.len() > 0 && output_before(view, id, list.last()) {
        let rest = list.drop_last();
        let last = list.last();
        assert(in_output_order(view, rest)) by {
            assert forall|i: int, j: int| 0 <= i < j < rest.len() implies output_before(
                view,
                #[trigger] rest[i],
                #[trigger] rest[j],
            ) by {
                assert(output_before(view, list[i], list[j]));
            }
        }
        assert(!rest.contains(id)) by {
            if rest.contains(id) {
                assert(list[rest.index_of(id)] == id);
            }
        }
        lemma_with_output_order(view, rest, id);
        let inner = with_output(view, rest, id);
        assert forall|i: int, j: int| 0 <= i < j < whole.len() implies output_before(
            view,
            #[trigger] whole[i],
            #[trigger] whole[j],
        ) by {
            if j < inner.len() {
                assert(output_before(view, inner[i], inner[j]));
            } else {
                assert(inner.contains(inner[i]));
                if inner[i] != id {
                    let k = rest.index_of(inner[i]);
                    assert(output_before(view, list[k], list[list.len() - 1]));
                }
            }
        }
        assert forall|other: Ref| #[trigger] whole.contains(other) <==> list.contains(other) || other == id by {
            if whole.contains(other) {
                let k = whole.index_of(other);
                if k < inner.len() {
                    assert(inner[k] == other);
                    assert(inner.contains(other));
                    if other != id {
                        assert(list[rest.index_of(other)] == other);
                    }
                } else {
                    assert(list[list.len() - 1] == other);
                }
            }
            if other == id || rest.contains(other) {
                assert(inner.contains(other));
                assert(whole[inner.index_of(other)] == other);
            }
            if list.contains(other) && !rest.contains(other) {
                let k = list.index_of(other);
                if k < rest.len() {
                    assert(rest[k] == other);
                }
                assert(whole[whole.len() - 1] == other);
            }
        }
    } else {
        assert forall|i: int, j: int| 0 <= i < j < whole.len() implies output_before(
            view,
            #[trigger] whole[i],
            #[trigger] whole[j],
        ) by {
            if j < list.len() {
                assert(output_before(view, list[i], list[j]));
            } else {
                assert(list.contains(list[i]));
                let last = list[list.len() - 1];
                assert(list.contains(last));
                lemma_output_order(view, last, id, id);
                if i < list.len() - 1 {
                    assert(output_before(view, list[i], last));
                    lemma_output_order(view, list[i], last, id);
                }
            }
        }
        assert forall|other: Ref| #[trigger] whole.contains(other) <==> list.contains(other) || other == id by {
            if list.contains(other) {
                assert(whole[list.index_of(other)] == other);
            }
            assert(whole[list.len() as int] == id);
        }
    }
}

proof fn lemma_output_in_order(view: TreeView, list: Seq<Ref>)
    requires
        list.no_duplicates(),
    ensures
        in_output_order(view, output_sorted(view, list)),
    decreases list.len(),
{
    if list.len() > 0 {
        let rest = list.drop_last();
        lemma_output_in_order(view, rest);
        lemma_output_sorted(view, rest);
        assert(!rest.contains(list.last())) by {
            if rest.contains(list.last()) {
                let k = rest.index_of(list.last());
                assert(list[k] == list[list.len() - 1]);
            }
        }
        lemma_with_output_order(view, output_sorted(view, rest), list.last());
    }
}

proof fn lemma_same_output(view: TreeView, a: Seq<Ref>, b: Seq<Ref>)
    requires
        in_output_order(view, a),
        in_output_order(view, b),
        forall|id: Ref| #[trigger] a.contains(id) <==> b.contains(id),
    ensures
        a == b,
    decreases a.len(),
{
    if a.len() == 0 {
        if b.len() > 0 {
            assert(b.contains(b[0]) && !a.contains(b[0]));
        }
        assert(a =~= b);
    } else {
        assert(a.contains(a[a.len() - 1]));
        assert(b.len() > 0);
        assert(b.contains(b[b.len() - 1]) && a.contains(b[b.len() - 1]));
        let i = b.index_of(a.last());
        let j = a.index_of(b.last());
        assert(b[i] == a[a.len() - 1]);
        assert(a[j] == b[b.len() - 1]);
        lemma_output_order(view, a.last(), b.last(), a.last());
        assert(a.last() == b.last());
        let shorter_a = a.drop_last();
        let shorter_b = b.drop_last();
        assert forall|id: Ref| #[trigger] shorter_a.contains(id) <==> shorter_b.contains(id) by {
            lemma_output_order(view, id, id, id);
            if shorter_a.contains(id) {
                let k = shorter_a.index_of(id);
                assert(output_before(view, a[k], a[a.len() - 1]));
                assert(a[k] == id && a.contains(id));
                let l = b.index_of(id);
                assert(b[l] == id && l < b.len() - 1);
                assert(shorter_b[l] == id);
            }
            if shorter_b.contains(id) {
                let k = shorter_b.index_of(id);
                assert(output_before(view, b[k], b[b.len() - 1]));
                assert(b[k] == id && b.contains(id) && a.contains(id));
                let l = a.index_of(id);
                assert(a[l] == id && l < a.len() - 1);
                assert(shorter_a[l] == id);
            }
        }
        assert(in_output_order(view, shorter_a)) by {
            assert forall|x: int, y: int| 0 <= x < y < shorter_a.len() implies output_before(
                view,
                #[trigger] shorter_a[x],
                #[trigger] shorter_a[y],
            ) by {
                assert(output_before(view, a[x], a[y]));
            }
        }
        assert(in_output_order(view, shorter_b)) by {
            assert forall|x: int, y: int| 0 <= x < y < shorter_b.len() implies output_before(
                view,
                #[trigger] shorter_b[x],
                #[trigger] shorter_b[y],
            ) by {
                assert(output_before(view, b[x], b[y]));
            }
        }
        lemma_same_output(view, shorter_a, shorter_b);
        assert(a =~= shorter_a.push(a.last()));
        assert(b =~= shorter_b.push(b.last()));
    }
}

/// The order in which siblings are emitted depends on which they are, not on the order
/// in which they stand.
pub proof fn law_output_forgets_sibling_order(view: TreeView, list: Seq<Ref>, other: Seq<Ref>)
    requires
        list.no_duplicates(),
        other.no_duplicates(),
        forall|id: Ref| #[trigger] list.contains(id) <==> other.contains(id),
    ensures
        output_sorted(view, list) == output_sorted(view, other),
{
    lemma_output_in_order(view, list);
    lemma_output_in_order(view, other);
    lemma_output_sorted(view, list);
    lemma_output_sorted(view, other);
    let a = output_sorted(view, list);
    let b = output_sorted(view, other);
    assert forall|id: Ref| #[trigger] a.contains(id) <==> b.contains(id) by {
        assert(list.contains(id) <==> other.contains(id));
    }
    lemma_same_output(view, a, b);
}

/// Instances of two trees that are told apart by class and name, and are alike in both.
pub open spec fn are_alike(view: TreeView, other: TreeView, list: Seq<Ref>, renamed: spec_fn(Ref) -> Ref) -> bool {
    &&& forall|k: int|
        0 <= k < list.len() ==> other.nodes[renamed(#[trigger] list[k])].class == view.nodes[list[k]].class
            && other.nodes[renamed(list[k])].name == view.nodes[list[k]].name
    &&& forall|i: int, j: int|
        0 <= i < j < list.len() ==> view.nodes[#[trigger] list[i]].class != view.nodes[#[trigger] list[j]].class
            || view.nodes[list[i]].name != view.nodes[list[j]].name
}

proof fn lemma_alike_placed(
    view: TreeView,
    other: TreeView,
    list: Seq<Ref>,
    renamed: spec_fn(Ref) -> Ref,
    sorted: Seq<Ref>,
    at: int,
)
    requires
        are_alike(view, other, list, renamed),
        0 <= at < list.len(),
        forall|k: int|
            0 <= k < sorted.len() ==> exists|i: int| 0 <= i < at && list[i] == #[trigger] sorted[k],
    ensures
        with_output(other, sorted.map_values(renamed), renamed(list[at])) == with_output(
            view,
            sorted,
            list[at],
        ).map_values(renamed),
    decreases sorted.len(),
{
    let id = list[at];
    let turned = sorted.map_values(renamed);
    if sorted.len() == 0 {
        assert(turned.push(renamed(id)) =~= sorted.push(id).map_values(renamed));
    } else {
        let last = sorted[sorted.len() - 1];
        let i = choose|i: int| 0 <= i < at && list[i] == sorted[sorted.len() - 1];
        assert(list[i] == last);
        assert(view.nodes[list[i]].class != view.nodes[list[at]].class || view.nodes[list[i]].name
            != view.nodes[list[at]].name);
        assert(turned.last() == renamed(list[i]));
        assert(output_before(other, renamed(id), turned.last()) == output_before(view, id, last));
        if output_before(view, id, last) {
            let rest = sorted.drop_last();
            assert forall|k: int| 0 <= k < rest.len() implies exists|i: int| 0 <= i < at && list[i] == #[trigger] rest[k] by {
                assert(rest[k] == sorted[k]);
            }
            lemma_alike_placed(view, other, list, renamed, rest, at);
            assert(turned.drop_last() =~= rest.map_values(renamed));
            assert(with_output(view, rest, id).map_values(renamed).push(turned.last()) =~= with_output(
                view,
                rest,
                id,
            ).push(last).map_values(renamed));
        } else {
            assert(turned.push(renamed(id)) =~= sorted.push(id).map_values(renamed));
        }
    }
}

proof fn lemma_alike_sorted(view: TreeView, other: TreeView, list: Seq<Ref>, renamed: spec_fn(Ref) -> Ref, count: int)
    requires
        are_alike(view, other, list, renamed),
        0 <= count <= list.len(),
    ensures
        output_sorted(other, list.take(count).map_values(renamed)) == output_sorted(view, list.take(count)).map_values(
            renamed,
        ),
    decreases count,
{
    let taken = list.take(count);
    let turned = taken.map_values(renamed);
    if count == 0 {
        assert(turned =~= Seq::empty());
        assert(output_sorted(view, taken).map_values(renamed) =~= Seq::empty());
    } else {
        lemma_alike_sorted(view, other, list, renamed, count - 1);
        let before = list.take(count - 1);
        assert(taken.drop_last() =~= before);
        assert(turned.drop_last() =~= before.map_values(renamed));
        assert(turned.last() == renamed(list[count - 1]));
        let sorted = output_sorted(view, before);
        lemma_output_sorted(view, before);
        assert forall|k: int| 0 <= k < sorted.len() implies exists|i: int|
            0 <= i < count - 1 && list[i] == #[trigger] sorted[k] by {
            assert(sorted.contains(sorted[k]));
            let i = before.index_of(sorted[k]);
            assert(before[i] == list[i]);
            assert(list[i] == sorted[k]);
        }
        lemma_alike_placed(view, other, list, renamed, sorted, count - 1);
    }
}

/// The order in which siblings are emitted does not depend on their identities, where
/// their classes and names tell them apart: the same siblings under other identities,
/// such as those of the same source in another directory, are emitted in the same order.
pub proof fn law_output_forgets_identities(
    view: TreeView,
    other: TreeView,
    list: Seq<Ref>,
    renamed: spec_fn(Ref) -> Ref,
)
    requires
        are_alike(view, other, list, renamed),
    ensures
        output_sorted(other, list.map_values(renamed)) == output_sorted(view, list).map_values(renamed),
{
    lemma_alike_sorted(view, other, list, renamed, list.len() as int);
    assert(list.take(list.len() as int) =~= list);
}

proof fn lemma_same_emission(view: TreeView, other: TreeView, list: Seq<Ref>, id: Ref)
    requires
        forall|k: int|
            0 <= k < list.len() ==> other.nodes[#[trigger] list[k]].class == view.nodes[list[k]].class
                && other.nodes[list[k]].name == view.nodes[list[k]].name,
        other.nodes[id].class == view.nodes[id].class,
        other.nodes[id].name == view.nodes[id].name,
    ensures
        with_output(view, list, id) == with_output(other, list, id),
    decreases list.len(),
{
    if list.len() > 0 {
        assert(list[list.len() - 1] == list.last());
        assert(output_before(view, id, list.last()) == output_before(other, id, list.last()));
        let rest = list.drop_last();
        assert forall|k: int| 0 <= k < rest.len() implies other.nodes[#[trigger] rest[k]].class
            == view.nodes[rest[k]].class && other.nodes[rest[k]].name == view.nodes[rest[k]].name by {
            assert(rest[k] == list[k]);
        }
        lemma_same_emission(view, other, rest, id);
    }
}

proof fn lemma_same_emissions(view: TreeView, other: TreeView, list: Seq<Ref>)
    requires
        forall|k: int|
            0 <= k < list.len() ==> other.nodes[#[trigger] list[k]].class == view.nodes[list[k]].class
                && other.nodes[list[k]].name == view.nodes[list[k]].name,
    ensures
        output_sorted(view, list) == output_sorted(other, list),
    decreases list.len(),
{
    if list.len() > 0 {
        let rest = list.drop_last();
        assert forall|k: int| 0 <= k < rest.len() implies other.nodes[#[trigger] rest[k]].class
            == view.nodes[rest[k]].class && other.nodes[rest[k]].name == view.nodes[rest[k]].name by {
            assert(rest[k] == list[k]);
        }
        lemma_same_emissions(view, other, rest);
        let sorted = output_sorted(view, rest);
        lemma_output_sorted(view, rest);
        assert forall|k: int| 0 <= k < sorted.len() implies other.nodes[#[trigger] sorted[k]].class
            == view.nodes[sorted[k]].class && other.nodes[sorted[k]].name == view.nodes[sorted[k]].name by {
            assert(sorted.contains(sorted[k]));
            let i = rest.index_of(sorted[k]);
            assert(rest[i] == list[i]);
        }
        assert(list[list.len() - 1] == list.last());
        lemma_same_emission(view, other, sorted, list.last());
    }
}

/// Trees that are the same but for the order in which siblings stand.
pub open spec fn same_but_for_order(view: TreeView, other: TreeView) -> bool {
    &&& view.root == other.root
    &&& view.nodes.dom() == other.nodes.dom()
    &&& forall|id: Ref| #[trigger]
        view.has(id) ==> {
            let a = view.nodes[id];
            let b = other.nodes[id];
            &&& b == (TreeNodeView { children: b.children, ..a })
            &&& a.children.to_set() == b.children.to_set()
        }
}

/// Putting a tree into the order of its output forgets the order in which siblings
/// stood: trees that differ in nothing else become the same tree.
pub proof fn law_output_order_is_canonical(view: TreeView, other: TreeView)
    requires
        view.wf(),
        other.wf(),
        same_but_for_order(view, other),
    ensures
        output_ordered(view) == output_ordered(other),
{
    assert forall|id: Ref| view.has(id) implies #[trigger] output_ordered(view).nodes[id] == output_ordered(
        other,
    ).nodes[id] by {
        let a = view.nodes[id].children;
        let b = other.nodes[id].children;
        assert(other.has(id));
        assert forall|child: Ref| #[trigger] a.contains(child) <==> b.contains(child) by {
            assert(a.to_set().contains(child) <==> b.to_set().contains(child));
        }
        law_output_forgets_sibling_order(view, a, b);
        assert forall|k: int| 0 <= k < b.len() implies other.nodes[#[trigger] b[k]].class == view.nodes[b[k]].class
            && other.nodes[b[k]].name == view.nodes[b[k]].name by {
            assert(view.has(b[k]));
        }
        lemma_same_emissions(view, other, b);
    }
    assert(output_ordered(view).nodes =~= output_ordered(other).nodes);
}

/// The same hierarchy under other identities: each instance is alike in both trees, and
/// the children of each are told apart by class and name.
pub open spec fn same_but_for_identities(view: TreeView, other: TreeView, renamed: spec_fn(Ref) -> Ref) -> bool {
    forall|id: Ref| #[trigger]
        view.has(id) ==> {
            &&& other.has(renamed(id))
            &&& other.nodes[renamed(id)].children == view.nodes[id].children.map_values(renamed)
            &&& are_alike(view, other, view.nodes[id].children, renamed)
        }
}

/// Putting a tree into the order of its output does not depend on identities, where
/// classes and names tell siblings apart: the same hierarchy under other identities, such
/// as that of the same source in another directory, is put into the same order.
pub proof fn law_output_order_forgets_identities(view: TreeView, other: TreeView, renamed: spec_fn(Ref) -> Ref)
    requires
        same_but_for_identities(view, other, renamed),
    ensures
        forall|id: Ref| #[trigger]
            view.has(id) ==> output_ordered(other).nodes[renamed(id)].children == output_ordered(
                view,
            ).nodes[id].children.map_values(renamed),
{
    assert forall|id: Ref| #[trigger] view.has(id) implies output_ordered(other).nodes[renamed(id)].children
        == output_ordered(view).nodes[id].children.map_values(renamed) by {
        law_output_forgets_identities(view, other, view.nodes[id].children, renamed);
    }
}

impl Tree {
    /// Whether one sibling is emitted before another.
    fn is_emitted_before(&self, left: Ref, right: Ref) -> (before: bool)
        requires
            self.dense(),
            self@.has(left),
            self@.has(right),
        ensures
            before == output_before(self@, left, right),
    {
        let first: &TreeNode = &self.nodes[self.place_of(left)];
        let second: &TreeNode = &self.nodes[self.place_of(right)];
        if is_before(first.class.as_str(), second.class.as_str()) {
            return true;
        }
        if !first.class.as_str().eq(second.class.as_str()) {
            return false;
        }
        is_before(first.name.as_str(), second.name.as_str()) || (first.name.as_str().eq(second.name.as_str())
            && left < right)
    }

    fn emitted_order(&self, list: &Vec<Ref>) -> (sorted: Vec<Ref>)
        requires
            self.dense(),
            forall|k: int| 0 <= k < list@.len() ==> self@.has(#[trigger] list@[k]),
        ensures
            sorted@ == output_sorted(self@, list@),
    {
        let ghost view = self@;
        let mut sorted: Vec<Ref> = Vec::new();
        let mut at: usize = 0;
        proof {
            assert(list@.take(0) =~= Seq::empty());
        }
        while at < list.len()
            invariant
                at <= list@.len(),
                self.dense(),
                view == self@,
                forall|k: int| 0 <= k < list@.len() ==> view.has(#[trigger] list@[k]),
                forall|k: int| 0 <= k < sorted@.len() ==> view.has(#[trigger] sorted@[k]),
                sorted@ == output_sorted(view, list@.take(at as int)),
            decreases list@.len() - at,
        {
            let id: Ref = list[at];
            let mut place: usize = sorted.len();
            proof {
                assert(view.has(list@[at as int]));
                assert(sorted@.take(place as int) =~= sorted@);
                assert(with_output(view, sorted@, id) + sorted@.skip(place as int) =~= with_output(
                    view,
                    sorted@,
                    id,
                ));
            }
            let mut settled: bool = false;
            while !settled && place > 0
                invariant
                    place <= sorted@.len(),
                    self.dense(),
                    view == self@,
                    view.has(id),
                    forall|k: int| 0 <= k < sorted@.len() ==> view.has(#[trigger] sorted@[k]),
                    settled ==> place > 0 && !output_before(view, id, sorted@[place - 1]),
                    with_output(view, sorted@, id) == with_output(view, sorted@.take(place as int), id)
                        + sorted@.skip(place as int),
                decreases place, (if settled { 0nat } else { 1nat }),
            {
                proof {
                    assert(view.has(sorted@[place - 1]));
                }
                if self.is_emitted_before(id, sorted[place - 1]) {
                    proof {
                        let taken = sorted@.take(place as int);
                        assert(taken.drop_last() =~= sorted@.take(place - 1));
                        assert(taken.last() == sorted@[place - 1]);
                        assert(with_output(view, taken, id) + sorted@.skip(place as int) =~= with_output(
                            view,
                            sorted@.take(place - 1),
                            id,
                        ) + sorted@.skip(place - 1));
                    }
                    place = place - 1;
                } else {
                    settled = true;
                }
            }
            proof {
                let taken = sorted@.take(place as int);
                assert(with_output(view, taken, id) == taken.push(id));
                assert(taken.push(id) + sorted@.skip(place as int) =~= sorted@.insert(place as int, id));
                assert(list@.take(at + 1).drop_last() =~= list@.take(at as int));
            }
            let ghost before = sorted@;
            sorted.insert(place, id);
            proof {
                assert forall|k: int| 0 <= k < sorted@.len() implies view.has(#[trigger] sorted@[k]) by {
                    if k < place {
                        assert(sorted@[k] == before[k]);
                    } else if k > place {
                        assert(sorted@[k] == before[k - 1]);
                    }
                }
            }
            at = at + 1;
        }
        proof {
            assert(list@.take(list@.len() as int) =~= list@);
        }
        sorted
    }

    /// Puts siblings into the order in which place bytes are emitted: names and
    /// classes are the portable hierarchy, identity decides among duplicates.
    pub fn canonicalize_output_order(&mut self)
        requires
            old(self).wf(),
        ensures
            final(self).wf(),
            final(self)@ == output_ordered(old(self)@),
    {
        let ghost view = self@;
        let len: usize = self.nodes.len();
        let mut lists: Vec<Vec<Ref>> = Vec::new();
        while lists.len() < len
            invariant
                lists@.len() <= len,
                len == self.nodes@.len(),
                self.wf(),
                view == self@,
                forall|k: int|
                    0 <= k < lists@.len() ==> (#[trigger] lists@[k])@ == output_sorted(
                        view,
                        self.nodes@[k].children@,
                    ),
            decreases len - lists@.len(),
        {
            let at: usize = lists.len();
            proof {
                let id = self.nodes@[at as int].referent;
                assert(view.has(id));
                assert(view.nodes[id].children == self.nodes@[at as int].children@);
                lemma_own_children(view, id);
                assert forall|k: int| 0 <= k < self.nodes@[at as int].children@.len() implies view.has(
                    #[trigger] self.nodes@[at as int].children@[k],
                ) by {
                    assert(view.has(view.nodes[id].children[k]));
                }
            }
            let sorted: Vec<Ref> = self.emitted_order(&self.nodes[at].children);
            lists.push(sorted);
        }
        let mut at: usize = 0;
        for sorted in iter: lists
            invariant
                iter.seq() == lists@,
                at == iter.index(),
                lists@.len() == len,
                len == old(self).nodes@.len(),
                self.nodes@.len() == len,
                self.by_ref == old(self).by_ref,
                self.root_ref == old(self).root_ref,
                view == old(self)@,
                forall|k: int|
                    0 <= k < len ==> (#[trigger] lists@[k])@ == output_sorted(
                        view,
                        old(self).nodes@[k].children@,
                    ),
                forall|k: int| at <= k < len ==> #[trigger] self.nodes@[k] == old(self).nodes@[k],
                forall|k: int|
                    0 <= k < at ==> (#[trigger] self.nodes@[k]).referent == old(self).nodes@[k].referent
                        && self.nodes@[k]@ == (TreeNodeView {
                        children: output_sorted(view, old(self).nodes@[k].children@),
                        ..old(self).nodes@[k]@
                    }),
        {
            self.nodes[at].children = sorted;
            at = at + 1;
        }
        proof {
            assert(self@.nodes =~= output_ordered(view).nodes);
            let after = output_ordered(view);
            let depths = view.depths();
            assert(view.has_depths(depths));
            assert(after.nodes.dom() =~= view.nodes.dom());
            assert forall|id: Ref| after.has(id) && id != after.root implies after.has(
                #[trigger] after.nodes[id].parent,
            ) && after.nodes[after.nodes[id].parent].children.contains(id) by {
                assert(view.has(view.nodes[id].parent));
                lemma_output_sorted(view, view.nodes[view.nodes[id].parent].children);
            }
            assert forall|id: Ref, k: int| after.has(id) && 0 <= k < after.nodes[id].children.len() implies {
                let child = #[trigger] after.nodes[id].children[k];
                after.has(child) && after.nodes[child].parent == id && child != after.root
            } by {
                let child = after.nodes[id].children[k];
                lemma_output_sorted(view, view.nodes[id].children);
                assert(after.nodes[id].children.contains(child));
                let j = view.nodes[id].children.index_of(child);
                assert(view.nodes[id].children[j] == child);
            }
            assert forall|id: Ref| after.has(id) implies (
            #[trigger] after.nodes[id]).children.no_duplicates() by {
                lemma_output_sorted(view, view.nodes[id].children);
                assert(view.nodes[id].children.no_duplicates());
            }
            assert(after.has_depths(depths)) by {
                assert forall|id: Ref| after.has(id) && id != after.root implies
                    #[trigger] depths[after.nodes[id].parent] < depths[id] by {
                    assert(depths[view.nodes[id].parent] < depths[id]);
                }
            }
        }
    }
}

} // verus!
