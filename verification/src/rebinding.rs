//! Identities of a build whose instances Studio replaces when it opens the
//! place.

use crate::place::property_of;
use crate::snapshot::{lemma_children, NodeView, Snapshot};
use crate::variant::{Variant, VariantView};
use crate::{Ref, NO_REF};
use std::collections::HashSet;
use vstd::prelude::*;

verus! {

broadcast use vstd::std_specs::hash::group_hash_axioms;

/// How an instance that replaces another is found.
#[derive(Clone, Copy, Debug, PartialEq, Eq, Structural)]
pub enum ManagedIdentityRebindingKind {
    HumanoidStatus,
    ConfigureServerService,
    FilteredSelection,
    AccessoryWeld,
    HeadWeld,
    Descendant,
}

impl ManagedIdentityRebindingKind {
    pub open spec fn name(self) -> Seq<char> {
        match self {
            ManagedIdentityRebindingKind::HumanoidStatus => "humanoidStatus"@,
            ManagedIdentityRebindingKind::ConfigureServerService => "configureServerService"@,
            ManagedIdentityRebindingKind::FilteredSelection => "filteredSelection"@,
            ManagedIdentityRebindingKind::AccessoryWeld => "accessoryWeld"@,
            ManagedIdentityRebindingKind::HeadWeld => "headWeld"@,
            ManagedIdentityRebindingKind::Descendant => "descendant"@,
        }
    }

    /// The name of the kind in messages.
    pub fn wire_name(self) -> (name: &'static str)
        ensures
            name@ == self.name(),
    {
        match self {
            ManagedIdentityRebindingKind::HumanoidStatus => "humanoidStatus",
            ManagedIdentityRebindingKind::ConfigureServerService => "configureServerService",
            ManagedIdentityRebindingKind::FilteredSelection => "filteredSelection",
            ManagedIdentityRebindingKind::AccessoryWeld => "accessoryWeld",
            ManagedIdentityRebindingKind::HeadWeld => "headWeld",
            ManagedIdentityRebindingKind::Descendant => "descendant",
        }
    }
}

/// An identity that goes over to the instance that replaces its own.
#[derive(Debug)]
pub struct ManagedIdentityRebinding {
    pub source_id: Ref,
    pub parent_source_id: Ref,
    pub class_name: String,
    pub name: String,
    pub kind: ManagedIdentityRebindingKind,
    pub related_source_id: Option<Ref>,
}

#[verifier::ext_equal]
pub struct RebindingView {
    pub source_id: Ref,
    pub parent_source_id: Ref,
    pub class_name: Seq<char>,
    pub name: Seq<char>,
    pub kind: ManagedIdentityRebindingKind,
    pub related_source_id: Option<Ref>,
}

impl View for ManagedIdentityRebinding {
    type V = RebindingView;

    open spec fn view(&self) -> RebindingView {
        RebindingView {
            source_id: self.source_id,
            parent_source_id: self.parent_source_id,
            class_name: self.class_name@,
            name: self.name@,
            kind: self.kind,
            related_source_id: self.related_source_id,
        }
    }
}

pub open spec fn rebindings_view(list: Seq<ManagedIdentityRebinding>) -> Seq<RebindingView> {
    list.map_values(|rebinding: ManagedIdentityRebinding| rebinding@)
}

// ---------------------------------------------------------------------------
// Cameras and handles

/// The camera through which a workspace is looked at.
pub open spec fn own_camera(node: NodeView) -> Set<Ref> {
    match property_of(node.properties, "CurrentCamera"@) {
        Some(VariantView::Ref(camera)) => if node.class == "Workspace"@ && camera != NO_REF {
            set![camera]
        } else {
            Set::empty()
        },
        _ => Set::empty(),
    }
}

/// The cameras through which the workspaces at and below a node are looked at.
pub open spec fn cameras(node: NodeView) -> Set<Ref>
    decreases node,
{
    own_camera(node).union(cameras_of(node.children))
}

pub open spec fn cameras_of(list: Seq<NodeView>) -> Set<Ref>
    decreases list,
{
    if list.len() == 0 {
        Set::empty()
    } else {
        cameras_of(list.drop_last()).union(cameras(list.last()))
    }
}

/// A child that fastens an accessory.
pub open spec fn fastener(node: NodeView) -> bool {
    node.class == "Weld"@ && node.name == "AccessoryWeld"@
}

/// The handle of a fastened accessory.
pub open spec fn handle(node: NodeView, parent: Option<NodeView>) -> bool {
    &&& node.class == "Part"@
    &&& node.name == "Handle"@
    &&& parent matches Some(parent) && parent.class == "Accessory"@
    &&& exists|k: int| 0 <= k < node.children.len() && fastener(#[trigger] node.children[k])
}

/// The handles of fastened accessories at and below a node.
pub open spec fn handles(node: NodeView, parent: Option<NodeView>) -> Set<Ref>
    decreases node,
{
    (if handle(node, parent) {
        set![node.id]
    } else {
        Set::empty()
    }).union(handles_of(node.children, node))
}

pub open spec fn handles_of(list: Seq<NodeView>, parent: NodeView) -> Set<Ref>
    decreases list,
{
    if list.len() == 0 {
        Set::empty()
    } else {
        handles_of(list.drop_last(), parent).union(handles(list.last(), Some(parent)))
    }
}

/// What an optional node stands for.
pub open spec fn opt_node(node: Option<&Snapshot>) -> Option<NodeView> {
    match node {
        Some(node) => Some(node.node()),
        None => None,
    }
}

fn has_class(node: Option<&Snapshot>, class: &str) -> (has: bool)
    ensures
        has == (opt_node(node) matches Some(found) && found.class == class@),
{
    match node {
        Some(node) => node.class.as_str().eq(class),
        None => false,
    }
}

fn has_name(node: Option<&Snapshot>, name: &str) -> (has: bool)
    ensures
        has == (opt_node(node) matches Some(found) && found.name == name@),
{
    match node {
        Some(node) => node.name.as_str().eq(name),
        None => false,
    }
}

fn is_fastened(node: &Snapshot) -> (fastened: bool)
    ensures
        fastened == exists|k: int| 0 <= k < node.node().children.len() && fastener(#[trigger] node.node().children[k]),
{
    proof {
        lemma_children(*node);
    }
    let mut at: usize = 0;
    while at < node.children.len()
        invariant
            at <= node.children@.len(),
            node.node().children.len() == node.children@.len(),
            forall|k: int|
                0 <= k < node.children@.len() ==> #[trigger] node.node().children[k] == node.children@[k].node(),
            forall|k: int| 0 <= k < at ==> !fastener(#[trigger] node.node().children[k]),
        decreases node.children@.len() - at,
    {
        proof {
            assert(node.node().children[at as int] == node.children@[at as int].node());
        }
        if node.children[at].class.as_str().eq("Weld") && node.children[at].name.as_str().eq("AccessoryWeld") {
            assert(fastener(node.node().children[at as int]));
            return true;
        }
        at = at + 1;
    }
    false
}

fn scan(
    node: &Snapshot,
    parent: Option<&Snapshot>,
    edit_cameras: &mut HashSet<u128>,
    accessory_handles: &mut HashSet<u128>,
)
    ensures
        final(edit_cameras)@ == old(edit_cameras)@.union(cameras(node.node())),
        final(accessory_handles)@ == old(accessory_handles)@.union(handles(node.node(), opt_node(parent))),
    decreases node,
{
    let ghost view = node.node();
    if node.class.as_str().eq("Workspace") {
        match crate::place::find_property(&node.properties, "CurrentCamera") {
            Some(value) => match value {
                Variant::Ref(camera) => {
                    if *camera != NO_REF {
                        edit_cameras.insert(*camera);
                    }
                },
                _ => {},
            },
            None => {},
        }
    }
    if node.class.as_str().eq("Part") && node.name.as_str().eq("Handle") && has_class(parent, "Accessory")
        && is_fastened(node) {
        accessory_handles.insert(node.id);
    }
    let ghost cameras_here = edit_cameras@;
    let ghost handles_here = accessory_handles@;
    let ghost children = view.children;
    proof {
        assert(cameras_here =~= old(edit_cameras)@.union(own_camera(view)));
        assert(handles_here =~= old(accessory_handles)@.union(
            if handle(view, opt_node(parent)) {
                set![view.id]
            } else {
                Set::empty()
            },
        ));
        lemma_children(*node);
        assert(children.take(0) =~= Seq::empty());
        assert(cameras_here.union(cameras_of(children.take(0))) =~= cameras_here);
        assert(handles_here.union(handles_of(children.take(0), view)) =~= handles_here);
    }
    let mut at: usize = 0;
    while at < node.children.len()
        invariant
            at <= node.children@.len(),
            view == node.node(),
            children == view.children,
            children.len() == node.children@.len(),
            forall|k: int| 0 <= k < children.len() ==> #[trigger] children[k] == node.children@[k].node(),
            edit_cameras@ == cameras_here.union(cameras_of(children.take(at as int))),
            accessory_handles@ == handles_here.union(handles_of(children.take(at as int), view)),
        decreases node.children@.len() - at,
    {
        scan(&node.children[at], Some(node), edit_cameras, accessory_handles);
        proof {
            let next = children.take(at + 1);
            assert(next.drop_last() =~= children.take(at as int));
            assert(next.last() == children[at as int]);
            assert(edit_cameras@ =~= cameras_here.union(cameras_of(next)));
            assert(accessory_handles@ =~= handles_here.union(handles_of(next, view)));
        }
        at = at + 1;
    }
    proof {
        assert(children.take(children.len() as int) =~= children);
        assert(edit_cameras@ =~= old(edit_cameras)@.union(cameras(view)));
        assert(accessory_handles@ =~= old(accessory_handles)@.union(handles(view, opt_node(parent))));
    }
}

/// The cameras of the author and the handles of fastened accessories.
pub fn managed_build_identity_anchors(snapshot: &Snapshot) -> (anchors: (HashSet<u128>, HashSet<u128>))
    ensures
        anchors.0@ == cameras(snapshot.node()),
        anchors.1@ == handles(snapshot.node(), None),
{
    let mut edit_cameras: HashSet<u128> = HashSet::new();
    let mut accessory_handles: HashSet<u128> = HashSet::new();
    scan(snapshot, None, &mut edit_cameras, &mut accessory_handles);
    proof {
        assert(edit_cameras@ =~= cameras(snapshot.node()));
        assert(accessory_handles@ =~= handles(snapshot.node(), None));
    }
    (edit_cameras, accessory_handles)
}

// ---------------------------------------------------------------------------
// Rebindings

/// What the choice of rebindings rests on.
pub struct RebindingContext {
    pub mapped: Set<Ref>,
    pub cameras: Set<Ref>,
    pub handles: Set<Ref>,
}

pub open spec fn with_class(node: Option<NodeView>, class: Seq<char>) -> bool {
    node matches Some(found) && found.class == class
}

pub open spec fn with_name(node: Option<NodeView>, name: Seq<char>) -> bool {
    node matches Some(found) && found.name == name
}

/// The handle that a weld of the head holds.
pub open spec fn held_handle(context: RebindingContext, node: NodeView) -> Option<Ref> {
    match property_of(node.properties, "Part1"@) {
        Some(VariantView::Ref(target)) => if context.handles.contains(target) {
            Some(target)
        } else {
            None
        },
        _ => None,
    }
}

/// How Studio replaces an instance, where it does.
pub open spec fn replaced(
    context: RebindingContext,
    node: NodeView,
    parent: Option<NodeView>,
    grandparent: Option<NodeView>,
) -> Option<(ManagedIdentityRebindingKind, Option<Ref>)> {
    if node.class == "Status"@ && with_class(parent, "Humanoid"@) {
        Some((ManagedIdentityRebindingKind::HumanoidStatus, None))
    } else if node.class == "ConfigureServerService"@ && with_class(parent, "DataModel"@) {
        Some((ManagedIdentityRebindingKind::ConfigureServerService, None))
    } else if node.class == "Instance"@ && node.name == "FilteredSelection"@ && node.children.len() == 0 && with_class(
        parent,
        "DataModel"@,
    ) {
        Some((ManagedIdentityRebindingKind::FilteredSelection, None))
    } else if fastener(node) && with_class(parent, "Part"@) && with_name(parent, "Handle"@) && with_class(
        grandparent,
        "Accessory"@,
    ) {
        Some((ManagedIdentityRebindingKind::AccessoryWeld, None))
    } else if node.class == "Weld"@ && node.name == "HeadWeld"@ && with_class(parent, "Part"@) && with_name(
        parent,
        "Head"@,
    ) && held_handle(context, node) is Some {
        Some((ManagedIdentityRebindingKind::HeadWeld, held_handle(context, node)))
    } else {
        None
    }
}

/// An instance that carries no identity into the built place: what belongs to
/// the file system or is a camera of the author, and everything below it.
pub open spec fn unbound(context: RebindingContext, node: NodeView, above: bool) -> bool {
    above || context.mapped.contains(node.id) || context.cameras.contains(node.id)
}

/// How an instance is replaced, by itself or with an ancestor.
pub open spec fn rehydrated(
    context: RebindingContext,
    node: NodeView,
    parent: Option<NodeView>,
    grandparent: Option<NodeView>,
    above: bool,
    unbound_above: bool,
) -> Option<(ManagedIdentityRebindingKind, Option<Ref>)> {
    if unbound(context, node, unbound_above) {
        None
    } else if above {
        Some((ManagedIdentityRebindingKind::Descendant, None))
    } else {
        replaced(context, node, parent, grandparent)
    }
}

/// The rebindings at and below a node, each parent before its children.
pub open spec fn rebindings(
    context: RebindingContext,
    node: NodeView,
    parent: Option<NodeView>,
    grandparent: Option<NodeView>,
    above: bool,
    unbound_above: bool,
) -> Seq<RebindingView>
    decreases node,
{
    let how = rehydrated(context, node, parent, grandparent, above, unbound_above);
    (match (how, parent) {
        (Some((kind, related)), Some(parent)) => seq![
            RebindingView {
                source_id: node.id,
                parent_source_id: parent.id,
                class_name: node.class,
                name: node.name,
                kind,
                related_source_id: related,
            },
        ],
        _ => Seq::empty(),
    }) + rebindings_of(
        context,
        node.children,
        node,
        parent,
        how is Some,
        unbound(context, node, unbound_above),
    )
}

pub open spec fn rebindings_of(
    context: RebindingContext,
    list: Seq<NodeView>,
    parent: NodeView,
    grandparent: Option<NodeView>,
    above: bool,
    unbound_above: bool,
) -> Seq<RebindingView>
    decreases list,
{
    if list.len() == 0 {
        Seq::empty()
    } else {
        rebindings_of(context, list.drop_last(), parent, grandparent, above, unbound_above) + rebindings(
            context,
            list.last(),
            Some(parent),
            grandparent,
            above,
            unbound_above,
        )
    }
}

struct Context<'a> {
    mapped_refs: &'a HashSet<u128>,
    edit_cameras: &'a HashSet<u128>,
    accessory_handles: &'a HashSet<u128>,
}

impl<'a> Context<'a> {
    spec fn view(self) -> RebindingContext {
        RebindingContext {
            mapped: self.mapped_refs@,
            cameras: self.edit_cameras@,
            handles: self.accessory_handles@,
        }
    }

    fn classify(&self, node: &Snapshot, parent: Option<&Snapshot>, grandparent: Option<&Snapshot>) -> (how: Option<
        (ManagedIdentityRebindingKind, Option<Ref>),
    >)
        ensures
            how == replaced(self.view(), node.node(), opt_node(parent), opt_node(grandparent)),
    {
        proof {
            lemma_children(*node);
        }
        if node.class.as_str().eq("Status") && has_class(parent, "Humanoid") {
            return Some((ManagedIdentityRebindingKind::HumanoidStatus, None));
        }
        if node.class.as_str().eq("ConfigureServerService") && has_class(parent, "DataModel") {
            return Some((ManagedIdentityRebindingKind::ConfigureServerService, None));
        }
        if node.class.as_str().eq("Instance") && node.name.as_str().eq("FilteredSelection") && node.children.len() == 0
            && has_class(parent, "DataModel") {
            return Some((ManagedIdentityRebindingKind::FilteredSelection, None));
        }
        if node.class.as_str().eq("Weld") && node.name.as_str().eq("AccessoryWeld") && has_class(parent, "Part")
            && has_name(parent, "Handle") && has_class(grandparent, "Accessory") {
            return Some((ManagedIdentityRebindingKind::AccessoryWeld, None));
        }
        if node.class.as_str().eq("Weld") && node.name.as_str().eq("HeadWeld") && has_class(parent, "Part") && has_name(
            parent,
            "Head",
        ) {
            match crate::place::find_property(&node.properties, "Part1") {
                Some(value) => match value {
                    Variant::Ref(target) => {
                        if self.accessory_handles.contains(target) {
                            return Some((ManagedIdentityRebindingKind::HeadWeld, Some(*target)));
                        }
                    },
                    _ => {},
                },
                None => {},
            }
        }
        None
    }

    fn collect(
        &self,
        node: &Snapshot,
        parent: Option<&Snapshot>,
        grandparent: Option<&Snapshot>,
        above: bool,
        unbound_above: bool,
        out: &mut Vec<ManagedIdentityRebinding>,
    )
        ensures
            rebindings_view(final(out)@) == rebindings_view(old(out)@) + rebindings(
                self.view(),
                node.node(),
                opt_node(parent),
                opt_node(grandparent),
                above,
                unbound_above,
            ),
        decreases node,
    {
        let ghost view = node.node();
        let ghost first = rebindings_view(out@);
        let unbound_here: bool = unbound_above || self.mapped_refs.contains(&node.id) || self.edit_cameras.contains(
            &node.id,
        );
        let how: Option<(ManagedIdentityRebindingKind, Option<Ref>)> = if unbound_here {
            None
        } else if above {
            Some((ManagedIdentityRebindingKind::Descendant, None))
        } else {
            self.classify(node, parent, grandparent)
        };
        let ghost own = match (how, opt_node(parent)) {
            (Some((kind, related)), Some(parent)) => seq![
                RebindingView {
                    source_id: view.id,
                    parent_source_id: parent.id,
                    class_name: view.class,
                    name: view.name,
                    kind,
                    related_source_id: related,
                },
            ],
            _ => Seq::empty(),
        };
        match (how, parent) {
            (Some((kind, related_source_id)), Some(parent)) => {
                out.push(
                    ManagedIdentityRebinding {
                        source_id: node.id,
                        parent_source_id: parent.id,
                        class_name: node.class.clone(),
                        name: node.name.clone(),
                        kind,
                        related_source_id,
                    },
                );
            },
            _ => {},
        }
        let ghost start = rebindings_view(out@);
        let ghost children = view.children;
        proof {
            assert(start =~= first + own);
            lemma_children(*node);
            assert(children.take(0) =~= Seq::empty());
            assert(start + rebindings_of(
                self.view(),
                children.take(0),
                view,
                opt_node(parent),
                how is Some,
                unbound_here,
            ) =~= start);
        }
        let mut at: usize = 0;
        while at < node.children.len()
            invariant
                at <= node.children@.len(),
                view == node.node(),
                children == view.children,
                children.len() == node.children@.len(),
                forall|k: int| 0 <= k < children.len() ==> #[trigger] children[k] == node.children@[k].node(),
                rebindings_view(out@) == start + rebindings_of(
                    self.view(),
                    children.take(at as int),
                    view,
                    opt_node(parent),
                    how is Some,
                    unbound_here,
                ),
            decreases node.children@.len() - at,
        {
            self.collect(&node.children[at], Some(node), parent, how.is_some(), unbound_here, out);
            proof {
                let next = children.take(at + 1);
                assert(next.drop_last() =~= children.take(at as int));
                assert(next.last() == children[at as int]);
                assert(rebindings_view(out@) =~= start + rebindings_of(
                    self.view(),
                    next,
                    view,
                    opt_node(parent),
                    how is Some,
                    unbound_here,
                ));
            }
            at = at + 1;
        }
        proof {
            assert(children.take(children.len() as int) =~= children);
            assert(rebindings_view(out@) =~= first + rebindings(
                self.view(),
                view,
                opt_node(parent),
                opt_node(grandparent),
                above,
                unbound_above,
            ));
        }
    }
}

/// What the choice of the rebindings of a hierarchy rests on.
pub open spec fn context_of(node: NodeView, mapped: Set<Ref>) -> RebindingContext {
    RebindingContext { mapped, cameras: cameras(node), handles: handles(node, None) }
}

/// The identities whose instances Studio replaces, each parent before its
/// children, so that each replacement is bound below one that is bound already.
pub fn managed_build_identity_rebindings(snapshot: &Snapshot, mapped_refs: &HashSet<u128>) -> (list: Vec<
    ManagedIdentityRebinding,
>)
    ensures
        rebindings_view(list@) == rebindings(
            context_of(snapshot.node(), mapped_refs@),
            snapshot.node(),
            None,
            None,
            false,
            false,
        ),
{
    let (edit_cameras, accessory_handles): (HashSet<u128>, HashSet<u128>) = managed_build_identity_anchors(snapshot);
    let context: Context = Context {
        mapped_refs,
        edit_cameras: &edit_cameras,
        accessory_handles: &accessory_handles,
    };
    let mut list: Vec<ManagedIdentityRebinding> = Vec::new();
    context.collect(snapshot, None, None, false, false, &mut list);
    proof {
        assert(rebindings_view(list@) =~= rebindings(
            context_of(snapshot.node(), mapped_refs@),
            snapshot.node(),
            None,
            None,
            false,
            false,
        ));
    }
    list
}

// ---------------------------------------------------------------------------
// Exclusions

/// The identities that carry no marker into the built place.
pub open spec fn unbound_ids(context: RebindingContext, node: NodeView, above: bool) -> Set<Ref>
    decreases node,
{
    (if unbound(context, node, above) {
        set![node.id]
    } else {
        Set::empty()
    }).union(unbound_ids_of(context, node.children, unbound(context, node, above)))
}

pub open spec fn unbound_ids_of(context: RebindingContext, list: Seq<NodeView>, above: bool) -> Set<Ref>
    decreases list,
{
    if list.len() == 0 {
        Set::empty()
    } else {
        unbound_ids_of(context, list.drop_last(), above).union(unbound_ids(context, list.last(), above))
    }
}

/// The identities of rebindings.
pub open spec fn sources(list: Seq<RebindingView>) -> Seq<Ref> {
    list.map_values(|rebinding: RebindingView| rebinding.source_id)
}

fn collect_unbound(context: &Context, node: &Snapshot, above: bool, out: &mut HashSet<u128>)
    ensures
        final(out)@ == old(out)@.union(unbound_ids(context.view(), node.node(), above)),
    decreases node,
{
    let unbound_here: bool = above || context.mapped_refs.contains(&node.id) || context.edit_cameras.contains(
        &node.id,
    );
    if unbound_here {
        out.insert(node.id);
    }
    let ghost start = out@;
    let ghost view = node.node();
    let ghost children = view.children;
    proof {
        lemma_children(*node);
        assert(start =~= old(out)@.union(
            if unbound_here {
                set![view.id]
            } else {
                Set::empty()
            },
        ));
        assert(children.take(0) =~= Seq::empty());
        assert(start.union(unbound_ids_of(context.view(), children.take(0), unbound_here)) =~= start);
    }
    let mut at: usize = 0;
    while at < node.children.len()
        invariant
            at <= node.children@.len(),
            children == node.node().children,
            children.len() == node.children@.len(),
            forall|k: int| 0 <= k < children.len() ==> #[trigger] children[k] == node.children@[k].node(),
            out@ == start.union(unbound_ids_of(context.view(), children.take(at as int), unbound_here)),
        decreases node.children@.len() - at,
    {
        collect_unbound(context, &node.children[at], unbound_here, out);
        proof {
            let next = children.take(at + 1);
            assert(next.drop_last() =~= children.take(at as int));
            assert(next.last() == children[at as int]);
            assert(out@ =~= start.union(unbound_ids_of(context.view(), next, unbound_here)));
        }
        at = at + 1;
    }
    proof {
        assert(children.take(children.len() as int) =~= children);
        assert(out@ =~= old(out)@.union(unbound_ids(context.view(), view, above)));
    }
}

/// The identities that cannot carry markers into the built place: those whose
/// instances Studio replaces, and those that stay outside the manifest.
pub fn managed_build_identity_exclusions(snapshot: &Snapshot, mapped_refs: &HashSet<u128>) -> (excluded: HashSet<u128>)
    ensures
        excluded@ == sources(
            rebindings(context_of(snapshot.node(), mapped_refs@), snapshot.node(), None, None, false, false),
        ).to_set().union(unbound_ids(context_of(snapshot.node(), mapped_refs@), snapshot.node(), false)),
{
    let list: Vec<ManagedIdentityRebinding> = managed_build_identity_rebindings(snapshot, mapped_refs);
    let mut excluded: HashSet<u128> = HashSet::new();
    let ghost all = sources(rebindings_view(list@));
    let mut at: usize = 0;
    proof {
        assert(all.take(0).to_set() =~= Set::empty());
        assert(excluded@ =~= all.take(0).to_set());
    }
    while at < list.len()
        invariant
            at <= list@.len(),
            all == sources(rebindings_view(list@)),
            excluded@ == all.take(at as int).to_set(),
        decreases list@.len() - at,
    {
        excluded.insert(list[at].source_id);
        proof {
            crate::hierarchy::lemma_taken_set(all, at as int);
            assert(all[at as int] == list@[at as int].source_id);
            assert(excluded@ =~= all.take(at + 1).to_set());
        }
        at = at + 1;
    }
    proof {
        assert(all.take(list@.len() as int) =~= all);
    }
    let (edit_cameras, accessory_handles): (HashSet<u128>, HashSet<u128>) = managed_build_identity_anchors(snapshot);
    let context: Context = Context {
        mapped_refs,
        edit_cameras: &edit_cameras,
        accessory_handles: &accessory_handles,
    };
    collect_unbound(&context, snapshot, false, &mut excluded);
    excluded
}

// ---------------------------------------------------------------------------
// Laws

/// Each rebinding of a descendant comes behind the one of its parent, or the
/// parent is bound already.
pub open spec fn parents_first(list: Seq<RebindingView>, bound: Set<Ref>) -> bool {
    forall|j: int|
        0 <= j < list.len() && (#[trigger] list[j]).kind == ManagedIdentityRebindingKind::Descendant ==> bound.contains(
            list[j].parent_source_id,
        ) || sources(list.take(j)).contains(list[j].parent_source_id)
}

proof fn lemma_parents_first_concat(a: Seq<RebindingView>, b: Seq<RebindingView>, bound: Set<Ref>)
    requires
        parents_first(a, bound),
        parents_first(b, bound.union(sources(a).to_set())),
    ensures
        parents_first(a + b, bound),
{
    let all = a + b;
    assert forall|j: int|
        0 <= j < all.len() && (#[trigger] all[j]).kind == ManagedIdentityRebindingKind::Descendant implies bound.contains(
        all[j].parent_source_id,
    ) || sources(all.take(j)).contains(all[j].parent_source_id) by {
        let parent = all[j].parent_source_id;
        if j < a.len() {
            assert(a[j] == all[j]);
            assert(all.take(j) =~= a.take(j));
        } else {
            let k = j - a.len();
            assert(b[k] == all[j]);
            if !bound.contains(parent) {
                if sources(b.take(k)).contains(parent) {
                    let i = sources(b.take(k)).index_of(parent);
                    assert(sources(all.take(j))[i + a.len()] == parent);
                } else {
                    assert(sources(a).to_set().contains(parent));
                    let i = sources(a).index_of(parent);
                    assert(sources(all.take(j))[i] == parent);
                }
            }
        }
    }
}

proof fn lemma_rebindings_ordered(
    context: RebindingContext,
    node: NodeView,
    parent: Option<NodeView>,
    grandparent: Option<NodeView>,
    above: bool,
    unbound_above: bool,
    bound: Set<Ref>,
)
    requires
        above ==> (parent matches Some(found) && bound.contains(found.id)),
    ensures
        parents_first(rebindings(context, node, parent, grandparent, above, unbound_above), bound),
    decreases node, 1nat,
{
    let how = rehydrated(context, node, parent, grandparent, above, unbound_above);
    let own = match (how, parent) {
        (Some((kind, related)), Some(parent)) => seq![
            RebindingView {
                source_id: node.id,
                parent_source_id: parent.id,
                class_name: node.class,
                name: node.name,
                kind,
                related_source_id: related,
            },
        ],
        _ => Seq::empty(),
    };
    assert(parents_first(own, bound));
    let after = bound.union(sources(own).to_set());
    if how is Some {
        assert(parent is Some);
        assert(sources(own)[0] == node.id);
        assert(sources(own).contains(node.id));
        assert(after.contains(node.id));
    }
    lemma_rebindings_of_ordered(
        context,
        node.children,
        node,
        parent,
        how is Some,
        unbound(context, node, unbound_above),
        after,
    );
    lemma_parents_first_concat(
        own,
        rebindings_of(context, node.children, node, parent, how is Some, unbound(context, node, unbound_above)),
        bound,
    );
}

proof fn lemma_rebindings_of_ordered(
    context: RebindingContext,
    list: Seq<NodeView>,
    parent: NodeView,
    grandparent: Option<NodeView>,
    above: bool,
    unbound_above: bool,
    bound: Set<Ref>,
)
    requires
        above ==> bound.contains(parent.id),
    ensures
        parents_first(rebindings_of(context, list, parent, grandparent, above, unbound_above), bound),
    decreases list, 0nat,
{
    if list.len() > 0 {
        let before = rebindings_of(context, list.drop_last(), parent, grandparent, above, unbound_above);
        lemma_rebindings_of_ordered(context, list.drop_last(), parent, grandparent, above, unbound_above, bound);
        let after = bound.union(sources(before).to_set());
        lemma_rebindings_ordered(context, list.last(), Some(parent), grandparent, above, unbound_above, after);
        lemma_parents_first_concat(
            before,
            rebindings(context, list.last(), Some(parent), grandparent, above, unbound_above),
            bound,
        );
    }
}

/// Rebindings come in an order in which each can be carried out below one that
/// was carried out before: a replaced descendant comes behind its parent.
pub proof fn law_rebindings_bind_parents_first(node: NodeView, mapped: Set<Ref>)
    ensures
        parents_first(rebindings(context_of(node, mapped), node, None, None, false, false), Set::empty()),
{
    lemma_rebindings_ordered(context_of(node, mapped), node, None, None, false, false, Set::empty());
}

} // verus!
