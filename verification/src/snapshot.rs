//! Snapshots of an instance hierarchy and of changes to it.

use crate::text::copy_bytes;
use crate::text_map::TextMap;
use crate::variant::{Properties, Variant, VariantView};
use crate::{Ref, NO_REF};
use vstd::prelude::*;

verus! {

/// An instance with everything below it.
#[derive(Debug)]
pub struct Snapshot {
    pub id: Ref,
    pub name: String,
    pub raw_name: Option<Vec<u8>>,
    pub class: String,
    pub properties: Properties,
    pub children: Vec<Snapshot>,
}

/// What a snapshot stands for.
#[verifier::ext_equal]
pub struct NodeView {
    pub id: Ref,
    pub name: Seq<char>,
    pub raw_name: Option<Seq<u8>>,
    pub class: Seq<char>,
    pub properties: Map<Seq<char>, VariantView>,
    pub children: Seq<NodeView>,
}

pub open spec fn bytes_view(bytes: Option<Vec<u8>>) -> Option<Seq<u8>> {
    match bytes {
        Some(bytes) => Some(bytes@),
        None => None,
    }
}

pub open spec fn text_view(text: Option<String>) -> Option<Seq<char>> {
    match text {
        Some(text) => Some(text@),
        None => None,
    }
}

impl Snapshot {
    pub open spec fn node(self) -> NodeView
        decreases self,
    {
        NodeView {
            id: self.id,
            name: self.name@,
            raw_name: bytes_view(self.raw_name),
            class: self.class@,
            properties: self.properties.deep(),
            children: Seq::new(
                self.children@.len(),
                |at: int|
                    if 0 <= at < self.children@.len() {
                        self.children@[at].node()
                    } else {
                        arbitrary()
                    },
            ),
        }
    }
}

/// What snapshots stand for.
pub open spec fn nodes(list: Seq<Snapshot>) -> Seq<NodeView> {
    list.map_values(|snapshot: Snapshot| snapshot.node())
}

pub proof fn lemma_children(snapshot: Snapshot)
    ensures
        snapshot.node().children == nodes(snapshot.children@),
        snapshot.node().children.len() == snapshot.children@.len(),
        forall|at: int|
            0 <= at < snapshot.children@.len() ==> #[trigger] snapshot.node().children[at]
                == snapshot.children@[at].node(),
{
    assert(snapshot.node().children =~= nodes(snapshot.children@));
}

impl View for Snapshot {
    type V = NodeView;

    open spec fn view(&self) -> NodeView {
        self.node()
    }
}

/// A copy of optional bytes.
pub fn copy_raw(bytes: &Option<Vec<u8>>) -> (copy: Option<Vec<u8>>)
    ensures
        bytes_view(copy) == bytes_view(*bytes),
{
    match bytes {
        Some(bytes) => Some(copy_bytes(bytes.as_slice())),
        None => None,
    }
}

/// Whether optional bytes agree.
pub fn same_raw(left: &Option<Vec<u8>>, right: &Option<Vec<u8>>) -> (same: bool)
    ensures
        same == (bytes_view(*left) == bytes_view(*right)),
{
    match (left, right) {
        (Some(left), Some(right)) => crate::text::same_bytes(left.as_slice(), right.as_slice()),
        (None, None) => true,
        _ => false,
    }
}

impl Clone for Snapshot {
    fn clone(&self) -> (copy: Snapshot)
        ensures
            copy.node() == self.node(),
        decreases self,
    {
        let mut children: Vec<Snapshot> = Vec::new();
        let mut at: usize = 0;
        while at < self.children.len()
            invariant
                at <= self.children@.len(),
                children@.len() == at,
                forall|k: int| 0 <= k < at ==> (#[trigger] children@[k]).node() == self.children@[k].node(),
            decreases self.children@.len() - at,
        {
            let child: Snapshot = self.children[at].clone();
            children.push(child);
            at = at + 1;
        }
        let copy = Snapshot {
            id: self.id,
            name: self.name.clone(),
            raw_name: copy_raw(&self.raw_name),
            class: self.class.clone(),
            properties: self.properties.copy(),
            children,
        };
        proof {
            assert(copy.node().children =~= self.node().children);
        }
        copy
    }
}

/// A copy of snapshots.
pub fn copy_snapshots(list: &Vec<Snapshot>) -> (copy: Vec<Snapshot>)
    ensures
        nodes(copy@) == nodes(list@),
{
    let mut copy: Vec<Snapshot> = Vec::new();
    let mut at: usize = 0;
    while at < list.len()
        invariant
            at <= list@.len(),
            copy@.len() == at,
            forall|k: int| 0 <= k < at ==> (#[trigger] copy@[k]).node() == list@[k].node(),
        decreases list@.len() - at,
    {
        copy.push(list[at].clone());
        at = at + 1;
    }
    proof {
        assert(nodes(copy@) =~= nodes(list@));
    }
    copy
}

impl Snapshot {
    pub fn new() -> (snapshot: Self)
        ensures
            snapshot.node() == (NodeView {
                id: NO_REF,
                name: Seq::empty(),
                raw_name: None,
                class: "Folder"@,
                properties: Map::empty(),
                children: Seq::empty(),
            }),
    {
        let snapshot = Snapshot {
            id: NO_REF,
            name: String::new(),
            raw_name: None,
            class: "Folder".to_owned(),
            properties: TextMap::new(),
            children: Vec::new(),
        };
        proof {
            assert(snapshot.properties.deep() =~= Map::empty());
            assert(snapshot.node().children =~= Seq::empty());
        }
        snapshot
    }

    pub fn with_id(self, id: Ref) -> (snapshot: Self)
        ensures
            snapshot.node() == (NodeView { id, ..self.node() }),
    {
        let snapshot = Snapshot { id, ..self };
        proof {
            assert(snapshot.node().children =~= self.node().children);
        }
        snapshot
    }

    pub fn with_name(self, name: &str) -> (snapshot: Self)
        ensures
            snapshot.node() == (NodeView { name: name@, ..self.node() }),
    {
        let snapshot = Snapshot { name: name.to_owned(), ..self };
        proof {
            assert(snapshot.node().children =~= self.node().children);
        }
        snapshot
    }

    pub fn with_class(self, class: &str) -> (snapshot: Self)
        ensures
            snapshot.node() == (NodeView { class: class@, ..self.node() }),
    {
        let snapshot = Snapshot { class: class.to_owned(), ..self };
        proof {
            assert(snapshot.node().children =~= self.node().children);
        }
        snapshot
    }

    pub fn with_properties(self, properties: Properties) -> (snapshot: Self)
        ensures
            snapshot.node() == (NodeView { properties: properties.deep(), ..self.node() }),
    {
        let snapshot = Snapshot { properties, ..self };
        proof {
            assert(snapshot.node().children =~= self.node().children);
        }
        snapshot
    }

    pub fn with_children(self, children: Vec<Snapshot>) -> (snapshot: Self)
        ensures
            snapshot.node() == (NodeView { children: nodes(children@), ..self.node() }),
    {
        let snapshot = Snapshot { children, ..self };
        proof {
            lemma_children(snapshot);
        }
        snapshot
    }
}

impl Default for Snapshot {
    fn default() -> (snapshot: Self)
        ensures
            snapshot.node() == (NodeView {
                id: NO_REF,
                name: Seq::empty(),
                raw_name: None,
                class: "Folder"@,
                properties: Map::empty(),
                children: Seq::empty(),
            }),
    {
        Snapshot::new()
    }
}

/// An instance added below another.
#[derive(Debug)]
pub struct AddedSnapshot {
    pub id: Ref,
    pub parent: Ref,
    pub name: String,
    pub raw_name: Option<Vec<u8>>,
    pub class: String,
    pub properties: Properties,
    pub children: Vec<Snapshot>,
}

/// What an addition stands for: the parent and the added node.
#[verifier::ext_equal]
pub struct AdditionView {
    pub parent: Ref,
    pub node: NodeView,
}

impl View for AddedSnapshot {
    type V = AdditionView;

    open spec fn view(&self) -> AdditionView {
        AdditionView {
            parent: self.parent,
            node: NodeView {
                id: self.id,
                name: self.name@,
                raw_name: bytes_view(self.raw_name),
                class: self.class@,
                properties: self.properties.deep(),
                children: nodes(self.children@),
            },
        }
    }
}

impl Clone for AddedSnapshot {
    fn clone(&self) -> (copy: AddedSnapshot)
        ensures
            copy@ == self@,
    {
        AddedSnapshot {
            id: self.id,
            parent: self.parent,
            name: self.name.clone(),
            raw_name: copy_raw(&self.raw_name),
            class: self.class.clone(),
            properties: self.properties.copy(),
            children: copy_snapshots(&self.children),
        }
    }
}

impl AddedSnapshot {
    /// The added node, without its parent.
    pub fn into_snapshot(self) -> (snapshot: Snapshot)
        ensures
            snapshot.node() == self@.node,
    {
        let snapshot = Snapshot {
            id: self.id,
            name: self.name,
            raw_name: self.raw_name,
            class: self.class,
            properties: self.properties,
            children: self.children,
        };
        proof {
            lemma_children(snapshot);
        }
        snapshot
    }

    /// A copy of the added node, without its parent.
    pub fn snapshot(&self) -> (snapshot: Snapshot)
        ensures
            snapshot.node() == self@.node,
    {
        self.clone().into_snapshot()
    }
}

/// One instance of a flat pre-order page.
#[derive(Debug)]
pub struct HierarchySnapshot {
    pub id: Ref,
    pub parent: Ref,
    pub name: String,
    pub raw_name: Option<Vec<u8>>,
    pub class: String,
    pub unavailable: bool,
}

/// Bounded, flat pre-order hierarchy page.
#[derive(Debug)]
pub struct SnapshotPage {
    pub instances: Vec<HierarchySnapshot>,
    pub cursor: Vec<Ref>,
    pub done: bool,
    pub encoded_bytes: usize,
}

/// A sparse change of one instance.
#[derive(Debug)]
pub struct UpdatedSnapshot {
    pub id: Ref,
    pub parent: Option<Ref>,
    pub name: Option<String>,
    pub raw_name: Option<Vec<u8>>,
    pub class: Option<String>,
    /// Sparse property values to set. Properties omitted from this map are
    /// intentionally left untouched.
    pub properties: Option<Properties>,
    /// Canonical property names to reset to their defaults.
    pub removed_properties: Vec<String>,
}

/// What an update stands for.
#[verifier::ext_equal]
pub struct UpdateView {
    pub id: Ref,
    pub parent: Option<Ref>,
    pub name: Option<Seq<char>>,
    pub raw_name: Option<Seq<u8>>,
    pub class: Option<Seq<char>>,
    pub properties: Option<Map<Seq<char>, VariantView>>,
    pub removed_properties: Seq<Seq<char>>,
}

pub open spec fn sparse_view(properties: Option<Properties>) -> Option<Map<Seq<char>, VariantView>> {
    match properties {
        Some(properties) => Some(properties.deep()),
        None => None,
    }
}

impl View for UpdatedSnapshot {
    type V = UpdateView;

    open spec fn view(&self) -> UpdateView {
        UpdateView {
            id: self.id,
            parent: self.parent,
            name: text_view(self.name),
            raw_name: bytes_view(self.raw_name),
            class: text_view(self.class),
            properties: sparse_view(self.properties),
            removed_properties: crate::text::texts(self.removed_properties@),
        }
    }
}

/// A copy of optional text.
pub fn copy_text(text: &Option<String>) -> (copy: Option<String>)
    ensures
        text_view(copy) == text_view(*text),
{
    match text {
        Some(text) => Some(text.clone()),
        None => None,
    }
}

impl Clone for UpdatedSnapshot {
    fn clone(&self) -> (copy: UpdatedSnapshot)
        ensures
            copy@ == self@,
    {
        UpdatedSnapshot {
            id: self.id,
            parent: self.parent,
            name: copy_text(&self.name),
            raw_name: copy_raw(&self.raw_name),
            class: copy_text(&self.class),
            properties: match &self.properties {
                Some(properties) => Some(properties.copy()),
                None => None,
            },
            removed_properties: crate::text::copy_texts(&self.removed_properties),
        }
    }
}

impl UpdatedSnapshot {
    pub fn new(id: Ref) -> (update: Self)
        ensures
            update@ == (UpdateView {
                id,
                parent: None,
                name: None,
                raw_name: None,
                class: None,
                properties: None,
                removed_properties: Seq::empty(),
            }),
    {
        let update = UpdatedSnapshot {
            id,
            parent: None,
            name: None,
            raw_name: None,
            class: None,
            properties: None,
            removed_properties: Vec::new(),
        };
        proof {
            assert(update@.removed_properties =~= Seq::empty());
        }
        update
    }

    /// Whether the update changes nothing.
    pub fn is_empty(&self) -> (empty: bool)
        ensures
            empty == self@.is_empty(),
    {
        self.parent.is_none() && self.name.is_none() && self.class.is_none() && self.properties.is_none()
            && self.removed_properties.len() == 0
    }
}

impl UpdateView {
    pub open spec fn is_empty(self) -> bool {
        self.parent is None && self.name is None && self.class is None && self.properties is None
            && self.removed_properties.len() == 0
    }
}

/// Additions, updates and removals that belong together.
#[derive(Debug)]
pub struct Changes {
    pub additions: Vec<AddedSnapshot>,
    pub updates: Vec<UpdatedSnapshot>,
    pub removals: Vec<Ref>,
}

#[verifier::ext_equal]
pub struct ChangesView {
    pub additions: Seq<AdditionView>,
    pub updates: Seq<UpdateView>,
    pub removals: Seq<Ref>,
}

/// What additions stand for.
pub open spec fn additions_view(list: Seq<AddedSnapshot>) -> Seq<AdditionView> {
    list.map_values(|addition: AddedSnapshot| addition@)
}

/// What updates stand for.
pub open spec fn updates_view(list: Seq<UpdatedSnapshot>) -> Seq<UpdateView> {
    list.map_values(|update: UpdatedSnapshot| update@)
}

impl View for Changes {
    type V = ChangesView;

    open spec fn view(&self) -> ChangesView {
        ChangesView {
            additions: additions_view(self.additions@),
            updates: updates_view(self.updates@),
            removals: self.removals@,
        }
    }
}

/// The reserved property that holds a name that is not UTF-8.
pub const RAW_NAME_PROPERTY: &'static str = "__CarbonRawName";

/// The bytes that the reserved property holds.
pub open spec fn stored_raw_name(properties: Map<Seq<char>, VariantView>) -> Option<Seq<u8>> {
    if properties.dom().contains("__CarbonRawName"@) {
        match properties["__CarbonRawName"@] {
            VariantView::BinaryString(bytes) => Some(bytes),
            _ => None,
        }
    } else {
        None
    }
}

/// The addition of a snapshot: a reserved raw name becomes the addition's own,
/// unless the snapshot has one.
pub open spec fn addition_of(node: NodeView, parent: Ref) -> AdditionView {
    if node.raw_name is Some {
        AdditionView { parent, node }
    } else {
        AdditionView {
            parent,
            node: NodeView {
                raw_name: stored_raw_name(node.properties),
                properties: node.properties.remove("__CarbonRawName"@),
                ..node
            },
        }
    }
}

/// Takes the reserved raw name out of properties.
pub fn take_raw_name(properties: &mut Properties) -> (raw: Option<Vec<u8>>)
    ensures
        bytes_view(raw) == stored_raw_name(old(properties).deep()),
        final(properties).deep() == old(properties).deep().remove("__CarbonRawName"@),
{
    let taken: Option<Variant> = properties.remove(RAW_NAME_PROPERTY);
    proof {
        assert(properties.deep() =~= old(properties).deep().remove("__CarbonRawName"@));
    }
    match taken {
        Some(Variant::BinaryString(bytes)) => Some(bytes),
        _ => None,
    }
}

impl Changes {
    pub fn new() -> (changes: Self)
        ensures
            changes@ == (ChangesView {
                additions: Seq::empty(),
                updates: Seq::empty(),
                removals: Seq::empty(),
            }),
    {
        let changes = Changes { additions: Vec::new(), updates: Vec::new(), removals: Vec::new() };
        proof {
            assert(changes@.additions =~= Seq::empty());
            assert(changes@.updates =~= Seq::empty());
        }
        changes
    }

    pub fn add(&mut self, snapshot: Snapshot, parent: Ref)
        ensures
            final(self)@ == (ChangesView {
                additions: old(self)@.additions.push(addition_of(snapshot.node(), parent)),
                ..old(self)@
            }),
    {
        proof {
            lemma_children(snapshot);
        }
        let mut properties = snapshot.properties;
        let raw_name: Option<Vec<u8>> = match snapshot.raw_name {
            Some(raw_name) => Some(raw_name),
            None => take_raw_name(&mut properties),
        };
        let addition = AddedSnapshot {
            id: snapshot.id,
            parent,
            name: snapshot.name,
            raw_name,
            class: snapshot.class,
            properties,
            children: snapshot.children,
        };
        self.additions.push(addition);
        proof {
            assert(self@.additions =~= old(self)@.additions.push(addition@));
        }
    }

    pub fn update(&mut self, modified_snapshot: UpdatedSnapshot)
        ensures
            final(self)@ == (ChangesView {
                updates: old(self)@.updates.push(modified_snapshot@),
                ..old(self)@
            }),
    {
        self.updates.push(modified_snapshot);
        proof {
            assert(self@.updates =~= old(self)@.updates.push(modified_snapshot@));
        }
    }

    pub fn remove(&mut self, id: Ref)
        ensures
            final(self)@ == (ChangesView { removals: old(self)@.removals.push(id), ..old(self)@ }),
    {
        self.removals.push(id);
    }

    pub fn extend(&mut self, changes: Self)
        ensures
            final(self)@ == (ChangesView {
                additions: old(self)@.additions + changes@.additions,
                updates: old(self)@.updates + changes@.updates,
                removals: old(self)@.removals + changes@.removals,
            }),
    {
        let ghost before = self@;
        let ghost given = changes@;
        let mut changes = changes;
        self.additions.append(&mut changes.additions);
        self.updates.append(&mut changes.updates);
        self.removals.append(&mut changes.removals);
        proof {
            assert(self@.additions =~= before.additions + given.additions);
            assert(self@.updates =~= before.updates + given.updates);
            assert(self@.removals =~= before.removals + given.removals);
        }
    }

    pub fn is_empty(&self) -> (empty: bool)
        ensures
            empty == (self@.additions.len() + self@.updates.len() + self@.removals.len() == 0),
    {
        self.additions.len() == 0 && self.updates.len() == 0 && self.removals.len() == 0
    }

    pub fn total(&self) -> (total: usize)
        requires
            self@.additions.len() + self@.updates.len() + self@.removals.len() <= usize::MAX,
        ensures
            total == self@.additions.len() + self@.updates.len() + self@.removals.len(),
    {
        self.additions.len() + self.updates.len() + self.removals.len()
    }
}

} // verus!
