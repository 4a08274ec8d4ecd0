//! The difference between two realizations of a project, and what corrects a
//! change that was refused.

use crate::capture_identity::{identity_only, is_capture_identity_only_property};
use crate::hierarchy::{
    flat, flat_id_set, flat_ids, flat_list, flat_views, flatten_snapshot, ids, index_flat, indexes, lemma_position,
    position, FlatNode, FlatView,
};
use crate::live_policy::{location, mapped_equal, mapped_property_equal, Canonical};
use crate::place::{property_of, value_view};
use crate::reflection::Reflection;
use crate::snapshot::{
    additions_view, copy_raw, copy_snapshots, lemma_children, nodes, updates_view, AddedSnapshot, AdditionView, Changes,
    ChangesView, NodeView, Snapshot, UpdateView, UpdatedSnapshot,
};
use crate::text::texts;
use crate::text_map::{lemma_listed_keys, lemma_ordered_keys, ordered_keys, Plain, TextMap};
use crate::tree::{lemma_flat_around, lemma_sorted_refs, sort_refs, sorted_refs, updated_data, TreeNodeView};
use crate::variant::{are_values_equal, values_equal, Properties, Variant, VariantView};
use crate::{Ref, NO_REF};
use std::collections::{HashMap, HashSet};
use vstd::prelude::*;
use vstd::string::StringSliceAdditionalSpecFns;

verus! {

broadcast use vstd::std_specs::hash::group_hash_axioms;

/// Which properties of which instances are frames that differ by rounding only.
#[derive(Debug)]
pub struct SameFrames {
    pub properties: HashMap<u128, TextMap<bool>>,
}

impl SameFrames {
    pub open spec fn same(self, id: Ref, name: Seq<char>) -> bool {
        self.properties@.dom().contains(id) && self.properties@[id]@.dom().contains(name)
    }

    /// No frames that differ by rounding only.
    pub fn none() -> (frames: Self)
        ensures
            forall|id: Ref, name: Seq<char>| !#[trigger] frames.same(id, name),
    {
        SameFrames { properties: HashMap::new() }
    }

    fn contains(&self, id: Ref, name: &str) -> (same: bool)
        ensures
            same == self.same(id, name@),
    {
        match self.properties.get(&id) {
            Some(names) => names.contains_key(name),
            None => false,
        }
    }
}

/// A value that says where something stands and how it is turned.
pub open spec fn frame_value(value: Option<VariantView>) -> bool {
    value matches Some(VariantView::Opaque { kind, .. }) && kind == "CFrame"@
}

fn is_frame(value: Option<&Variant>) -> (frame: bool)
    ensures
        frame == frame_value(value_view(value)),
{
    match value {
        Some(value) => match value {
            Variant::Opaque { kind, .. } => kind.as_str().eq("CFrame"),
            _ => false,
        },
        None => false,
    }
}

/// Two values of a property mean the same.
pub open spec fn means_same(
    reflection: Reflection,
    frames: SameFrames,
    id: Ref,
    class: Seq<char>,
    name: Seq<char>,
    left: Option<VariantView>,
    right: Option<VariantView>,
) -> bool {
    if frame_value(left) && frame_value(right) {
        frames.same(id, name) || values_equal(left->0, right->0)
    } else {
        mapped_equal(reflection, class, name, left, right)
    }
}

/// Whether two values of a property mean the same.
pub fn property_values_semantically_equal(
    reflection: &Reflection,
    frames: &SameFrames,
    id: Ref,
    class: &str,
    name: &str,
    left: Option<&Variant>,
    right: Option<&Variant>,
) -> (same: bool)
    ensures
        same == means_same(*reflection, *frames, id, class@, name@, value_view(left), value_view(right)),
{
    if is_frame(left) && is_frame(right) {
        if frames.contains(id, name) {
            return true;
        }
        return match (left, right) {
            (Some(left), Some(right)) => are_values_equal(left, right),
            _ => false,
        };
    }
    mapped_property_equal(reflection, class, name, left, right)
}

// ---------------------------------------------------------------------------
// Removals

/// The topmost nodes that another hierarchy lacks.
pub open spec fn lacking(node: NodeView, there: Set<Ref>) -> Seq<Ref>
    decreases node,
{
    if !there.contains(node.id) {
        seq![node.id]
    } else {
        lacking_list(node.children, there)
    }
}

pub open spec fn lacking_list(list: Seq<NodeView>, there: Set<Ref>) -> Seq<Ref>
    decreases list,
{
    if list.len() == 0 {
        Seq::empty()
    } else {
        lacking_list(list.drop_last(), there) + lacking(list.last(), there)
    }
}

fn push_lacking(node: &Snapshot, there: &HashSet<u128>, out: &mut Vec<Ref>)
    ensures
        final(out)@ == old(out)@ + lacking(node.node(), there@),
    decreases node,
{
    if !there.contains(&node.id) {
        out.push(node.id);
        proof {
            assert(out@ =~= old(out)@ + lacking(node.node(), there@));
        }
        return;
    }
    let ghost start = out@;
    let ghost children = node.node().children;
    proof {
        lemma_children(*node);
        assert(children.take(0) =~= Seq::empty());
        assert(start + lacking_list(children.take(0), there@) =~= start);
    }
    let mut at: usize = 0;
    while at < node.children.len()
        invariant
            at <= node.children@.len(),
            children == node.node().children,
            children.len() == node.children@.len(),
            forall|k: int| 0 <= k < children.len() ==> #[trigger] children[k] == node.children@[k].node(),
            out@ == start + lacking_list(children.take(at as int), there@),
        decreases node.children@.len() - at,
    {
        push_lacking(&node.children[at], there, out);
        proof {
            let next = children.take(at + 1);
            assert(next.drop_last() =~= children.take(at as int));
            assert(next.last() == children[at as int]);
            assert(out@ =~= start + lacking_list(next, there@));
        }
        at = at + 1;
    }
    proof {
        assert(children.take(children.len() as int) =~= children);
    }
}

/// Identities without their repetitions.
pub open spec fn once(list: Seq<Ref>) -> Seq<Ref>
    decreases list.len(),
{
    if list.len() == 0 {
        Seq::empty()
    } else {
        let before = once(list.drop_last());
        if before.contains(list.last()) {
            before
        } else {
            before.push(list.last())
        }
    }
}

pub(crate) proof fn lemma_once(list: Seq<Ref>)
    ensures
        once(list).no_duplicates(),
        forall|id: Ref| #[trigger] once(list).contains(id) <==> list.contains(id),
    decreases list.len(),
{
    if list.len() > 0 {
        let rest = list.drop_last();
        let last = list.last();
        lemma_once(rest);
        let before = once(rest);
        let whole = once(list);
        assert forall|id: Ref| #[trigger] whole.contains(id) <==> list.contains(id) by {
            if list.contains(id) {
                let k = list.index_of(id);
                if k < rest.len() {
                    assert(rest[k] == id);
                    assert(before.contains(id));
                }
                if !before.contains(last) {
                    assert(whole[before.len() as int] == last);
                }
                if before.contains(id) {
                    assert(whole[before.index_of(id)] == id);
                }
            }
            if whole.contains(id) {
                let k = whole.index_of(id);
                if k < before.len() {
                    assert(before[k] == id);
                    assert(once(rest).contains(id));
                    assert(rest.contains(id));
                    assert(list[rest.index_of(id)] == id);
                } else {
                    assert(list[list.len() - 1] == id);
                }
            }
        }
        if !before.contains(last) {
            assert forall|i: int, j: int| 0 <= i < whole.len() && 0 <= j < whole.len() && i != j implies whole[i]
                != whole[j] by {
                if i < before.len() && j < before.len() {
                    assert(before[i] != before[j]);
                } else if i < before.len() {
                    assert(before.contains(whole[i]));
                } else {
                    assert(before.contains(whole[j]));
                }
            }
        }
    }
}

fn keep_once(list: &Vec<Ref>) -> (kept: Vec<Ref>)
    ensures
        kept@ == once(list@),
{
    let mut kept: Vec<Ref> = Vec::new();
    let mut seen: HashSet<u128> = HashSet::new();
    let mut at: usize = 0;
    proof {
        assert(list@.take(0) =~= Seq::empty());
        assert(kept@.to_set() =~= Set::empty());
    }
    while at < list.len()
        invariant
            at <= list@.len(),
            kept@ == once(list@.take(at as int)),
            seen@ == kept@.to_set(),
        decreases list@.len() - at,
    {
        let id: Ref = list[at];
        let ghost before = kept@;
        proof {
            assert(list@.take(at + 1).drop_last() =~= list@.take(at as int));
            assert(list@.take(at + 1).last() == id);
            assert(seen@.contains(id) == kept@.contains(id));
        }
        if !seen.contains(&id) {
            seen.insert(id);
            kept.push(id);
            proof {
                crate::hierarchy::lemma_taken_set(kept@, before.len() as int);
                assert(kept@.take(before.len() as int) =~= before);
                assert(kept@.take(before.len() as int + 1) =~= kept@);
                assert(seen@ =~= kept@.to_set());
            }
        }
        at = at + 1;
    }
    proof {
        assert(list@.take(list@.len() as int) =~= list@);
    }
    kept
}

// ---------------------------------------------------------------------------
// Additions and updates

/// The listed nodes up to a place, without those whose identity occurs again behind
/// them.
pub open spec fn latest_to(list: Seq<FlatView>, count: nat) -> Seq<FlatView>
    decreases count,
{
    if count == 0 {
        Seq::empty()
    } else {
        let before = latest_to(list, (count - 1) as nat);
        if position(list, list[count - 1].node.id) == Some(count - 1) {
            before.push(list[count - 1])
        } else {
            before
        }
    }
}

/// The listed nodes, the last one of each identity.
pub open spec fn latest(list: Seq<FlatView>) -> Seq<FlatView> {
    latest_to(list, list.len())
}

pub(crate) proof fn lemma_latest(list: Seq<FlatView>, count: nat)
    requires
        count <= list.len(),
        flat_ids(list).no_duplicates(),
    ensures
        latest_to(list, count) == list.take(count as int),
    decreases count,
{
    if count == 0 {
        assert(list.take(0) =~= Seq::empty());
    } else {
        lemma_latest(list, (count - 1) as nat);
        let id = list[count - 1].node.id;
        lemma_position(list, id);
        let at = position(list, id)->0;
        assert(flat_ids(list)[at] == id && flat_ids(list)[count - 1] == id);
        assert(list.take(count as int) =~= list.take(count - 1).push(list[count - 1]));
    }
}

fn keep_latest<'a>(list: &Vec<FlatNode<'a>>) -> (kept: Vec<FlatNode<'a>>)
    ensures
        flat_views(kept@) == latest(flat_views(list@)),
{
    let index: HashMap<u128, usize> = index_flat(list);
    let ghost all = flat_views(list@);
    let mut kept: Vec<FlatNode<'a>> = Vec::new();
    let mut at: usize = 0;
    proof {
        assert(flat_views(kept@) =~= Seq::empty());
    }
    while at < list.len()
        invariant
            at <= list@.len(),
            all == flat_views(list@),
            indexes(index@, all),
            flat_views(kept@) == latest_to(all, at as nat),
        decreases list@.len() - at,
    {
        let ghost before = flat_views(kept@);
        let id: Ref = list[at].snapshot.id;
        proof {
            assert(all[at as int] == list@[at as int]@);
            lemma_position(all, id);
            assert(index@.dom().contains(id) == (position(all, id) is Some));
        }
        let last: bool = match index.get(&id) {
            Some(place) => *place == at,
            None => false,
        };
        if last {
            kept.push(FlatNode { parent: list[at].parent, snapshot: list[at].snapshot });
            proof {
                assert(flat_views(kept@) =~= before.push(all[at as int]));
            }
        }
        at = at + 1;
    }
    kept
}

/// A node that is new, and whose parent is not.
pub open spec fn added(there: Set<Ref>, node: FlatView) -> bool {
    !there.contains(node.node.id) && (node.parent matches Some(parent) ==> there.contains(parent))
}

pub open spec fn addition_of(node: FlatView) -> AdditionView {
    AdditionView {
        parent: match node.parent {
            Some(parent) => parent,
            None => NO_REF,
        },
        node: node.node,
    }
}

/// The additions among the listed nodes.
pub open spec fn additions(there: Set<Ref>, list: Seq<FlatView>) -> Seq<AdditionView>
    decreases list.len(),
{
    if list.len() == 0 {
        Seq::empty()
    } else {
        let before = additions(there, list.drop_last());
        if added(there, list.last()) {
            before.push(addition_of(list.last()))
        } else {
            before
        }
    }
}

/// Whether a property changed in meaning.
pub open spec fn changed(
    reflection: Reflection,
    frames: SameFrames,
    before: NodeView,
    after: NodeView,
    name: Seq<char>,
) -> bool {
    (before.properties.dom().contains(name) || after.properties.dom().contains(name)) && !identity_only(name)
        && !means_same(
        reflection,
        frames,
        after.id,
        after.class,
        name,
        property_of(before.properties, name),
        property_of(after.properties, name),
    )
}

/// The properties that have a new value.
pub open spec fn set_properties(reflection: Reflection, frames: SameFrames, before: NodeView, after: NodeView) -> Map<
    Seq<char>,
    VariantView,
> {
    Map::new(
        |name: Seq<char>|
            after.properties.dom().contains(name) && changed(reflection, frames, before, after, name),
        |name: Seq<char>| after.properties[name],
    )
}

/// The properties that are gone, in order.
pub open spec fn gone_properties(
    reflection: Reflection,
    frames: SameFrames,
    before: NodeView,
    after: NodeView,
) -> Seq<Seq<char>> {
    ordered_keys(
        Set::new(
            |name: Seq<char>|
                !after.properties.dom().contains(name) && changed(reflection, frames, before, after, name),
        ),
    )
}

/// What turns a node into another of the same identity.
pub open spec fn update_of(reflection: Reflection, frames: SameFrames, before: FlatView, after: FlatView) -> UpdateView {
    let set = set_properties(reflection, frames, before.node, after.node);
    let renamed = before.node.name != after.node.name;
    UpdateView {
        id: after.node.id,
        parent: if before.parent != after.parent {
            after.parent
        } else {
            None
        },
        name: if renamed {
            Some(after.node.name)
        } else {
            None
        },
        raw_name: if renamed {
            after.node.raw_name
        } else {
            None
        },
        class: if before.node.class != after.node.class {
            Some(after.node.class)
        } else {
            None
        },
        properties: if set.dom() =~= Set::empty() {
            None
        } else {
            Some(set)
        },
        removed_properties: gone_properties(reflection, frames, before.node, after.node),
    }
}

/// The updates of the listed nodes.
pub open spec fn updates(
    reflection: Reflection,
    frames: SameFrames,
    earlier: Seq<FlatView>,
    list: Seq<FlatView>,
) -> Seq<UpdateView>
    decreases list.len(),
{
    if list.len() == 0 {
        Seq::empty()
    } else {
        let before = updates(reflection, frames, earlier, list.drop_last());
        match location(earlier, list.last().node.id) {
            Some(found) => {
                let update = update_of(reflection, frames, found, list.last());
                if update.is_empty() {
                    before
                } else {
                    before.push(update)
                }
            },
            None => before,
        }
    }
}

/// What turns one hierarchy into another. Of nodes with the same identity the last one
/// counts.
pub open spec fn difference(reflection: Reflection, frames: SameFrames, before: NodeView, after: NodeView) -> ChangesView {
    ChangesView {
        additions: additions(ids(before), latest(flat(after, None))),
        updates: updates(reflection, frames, flat(before, None), latest(flat(after, None))),
        removals: sorted_refs(once(lacking(before, ids(after)))),
    }
}

fn find_additions(there: &HashSet<u128>, list: &Vec<FlatNode>) -> (found: Vec<AddedSnapshot>)
    ensures
        additions_view(found@) == additions(there@, flat_views(list@)),
{
    let mut found: Vec<AddedSnapshot> = Vec::new();
    let ghost all = flat_views(list@);
    let mut at: usize = 0;
    proof {
        assert(all.take(0) =~= Seq::empty());
        assert(additions_view(found@) =~= additions(there@, all.take(0)));
    }
    while at < list.len()
        invariant
            at <= list@.len(),
            all == flat_views(list@),
            additions_view(found@) == additions(there@, all.take(at as int)),
        decreases list@.len() - at,
    {
        let ghost before = additions_view(found@);
        let node: &Snapshot = list[at].snapshot;
        proof {
            let next = all.take(at + 1);
            assert(next.drop_last() =~= all.take(at as int));
            assert(next.last() == list@[at as int]@);
            lemma_children(*node);
        }
        let placed: bool = match list[at].parent {
            Some(parent) => there.contains(&parent),
            None => true,
        };
        if !there.contains(&node.id) && placed {
            let parent: Ref = match list[at].parent {
                Some(parent) => parent,
                None => NO_REF,
            };
            let addition: AddedSnapshot = AddedSnapshot {
                id: node.id,
                parent,
                name: node.name.clone(),
                raw_name: copy_raw(&node.raw_name),
                class: node.class.clone(),
                properties: node.properties.copy(),
                children: copy_snapshots(&node.children),
            };
            proof {
                assert(addition@ =~= addition_of(all[at as int]));
            }
            found.push(addition);
            proof {
                assert(additions_view(found@) =~= before.push(addition_of(all[at as int])));
            }
        }
        at = at + 1;
    }
    proof {
        assert(all.take(list@.len() as int) =~= all);
    }
    found
}

fn is_changed(
    reflection: &Reflection,
    frames: &SameFrames,
    before: &Snapshot,
    after: &Snapshot,
    name: &str,
) -> (is: bool)
    ensures
        is == (!identity_only(name@) && !means_same(
            *reflection,
            *frames,
            after.id,
            after.class@,
            name@,
            property_of(before.properties.deep(), name@),
            property_of(after.properties.deep(), name@),
        )),
{
    !is_capture_identity_only_property(name) && !property_values_semantically_equal(
        reflection,
        frames,
        after.id,
        after.class.as_str(),
        name,
        crate::place::find_property(&before.properties, name),
        crate::place::find_property(&after.properties, name),
    )
}

fn find_set_properties(reflection: &Reflection, frames: &SameFrames, before: &Snapshot, after: &Snapshot) -> (set:
    Properties)
    ensures
        set.deep() == set_properties(*reflection, *frames, before.node(), after.node()),
{
    let mut set: Properties = TextMap::new();
    let len: usize = after.properties.len();
    let ghost keys = after.properties.keys();
    let ghost wanted = set_properties(*reflection, *frames, before.node(), after.node());
    let ghost all = after.properties.deep();
    proof {
        assert(all.dom() =~= after.properties@.dom());
        assert(keys.take(0).to_set() =~= Set::empty());
        assert(set.deep() =~= wanted.restrict(keys.take(0).to_set()));
    }
    let mut at: usize = 0;
    while at < len
        invariant
            at <= len,
            len == keys.len(),
            keys == after.properties.keys(),
            after.properties.listed(),
            all == after.properties.deep(),
            all.dom() == after.properties@.dom(),
            wanted == set_properties(*reflection, *frames, before.node(), after.node()),
            set.deep() == wanted.restrict(keys.take(at as int).to_set()),
        decreases len - at,
    {
        let ghost name = keys[at as int];
        let ghost done = set.deep();
        proof {
            assert(keys.contains(name));
            assert(keys.to_set().contains(name));
            assert(all.dom().contains(name));
            assert(all[name] == after.properties@[name]@);
            crate::hierarchy::lemma_taken_set(keys, at as int);
        }
        if is_changed(reflection, frames, before, after, after.properties.key_at(at).as_str()) {
            set.insert(after.properties.key_at(at).clone(), after.properties.value_at(at).copy());
            proof {
                assert(set.deep() =~= done.insert(name, all[name]));
            }
        }
        proof {
            assert(set.deep() =~= wanted.restrict(keys.take(at + 1).to_set()));
        }
        at = at + 1;
    }
    proof {
        assert(keys.take(len as int) =~= keys);
        assert(set.deep() =~= wanted);
    }
    set
}

fn find_gone_properties(reflection: &Reflection, frames: &SameFrames, before: &Snapshot, after: &Snapshot) -> (gone:
    Vec<String>)
    ensures
        texts(gone@) == gone_properties(*reflection, *frames, before.node(), after.node()),
{
    let mut gone: TextMap<bool> = TextMap::new();
    let len: usize = before.properties.len();
    let ghost keys = before.properties.keys();
    let ghost wanted = Set::new(
        |name: Seq<char>|
            !after.node().properties.dom().contains(name) && changed(
                *reflection,
                *frames,
                before.node(),
                after.node(),
                name,
            ),
    );
    proof {
        assert(before.properties.deep().dom() =~= before.properties@.dom());
        assert(after.properties.deep().dom() =~= after.properties@.dom());
        assert(keys.take(0).to_set() =~= Set::empty());
        assert(gone@.dom() =~= wanted.intersect(keys.take(0).to_set()));
    }
    let mut at: usize = 0;
    while at < len
        invariant
            at <= len,
            len == keys.len(),
            keys == before.properties.keys(),
            before.properties.listed(),
            before.properties.deep().dom() == before.properties@.dom(),
            after.properties.deep().dom() == after.properties@.dom(),
            wanted == Set::new(
                |name: Seq<char>|
                    !after.node().properties.dom().contains(name) && changed(
                        *reflection,
                        *frames,
                        before.node(),
                        after.node(),
                        name,
                    ),
            ),
            gone@.dom() == wanted.intersect(keys.take(at as int).to_set()),
        decreases len - at,
    {
        let ghost name = keys[at as int];
        proof {
            assert(keys.contains(name));
            assert(keys.to_set().contains(name));
            crate::hierarchy::lemma_taken_set(keys, at as int);
        }
        let key: &str = before.properties.key_at(at).as_str();
        let ghost done = gone@.dom();
        if !after.properties.contains_key(key) && is_changed(reflection, frames, before, after, key) {
            gone.insert(key.to_owned(), true);
            proof {
                assert(wanted.contains(name));
            }
        } else {
            proof {
                assert(!wanted.contains(name));
            }
        }
        proof {
            assert(gone@.dom() =~= wanted.intersect(keys.take(at + 1).to_set()));
        }
        at = at + 1;
    }
    proof {
        assert(keys.take(len as int) =~= keys);
        assert(gone@.dom() =~= wanted);
    }
    let mut names: Vec<String> = Vec::new();
    let count: usize = gone.len();
    let mut next: usize = 0;
    while next < count
        invariant
            next <= count,
            count == gone.keys().len(),
            gone.listed(),
            names@.len() == next,
            forall|k: int| 0 <= k < next ==> (#[trigger] names@[k])@ == gone.keys()[k],
        decreases count - next,
    {
        names.push(gone.key_at(next).clone());
        next = next + 1;
    }
    proof {
        lemma_listed_keys(gone);
        assert(texts(names@) =~= gone.keys());
    }
    names
}

fn find_update(reflection: &Reflection, frames: &SameFrames, before: &FlatNode, after: &FlatNode) -> (update:
    UpdatedSnapshot)
    ensures
        update@ == update_of(*reflection, *frames, before@, after@),
{
    let earlier: &Snapshot = before.snapshot;
    let later: &Snapshot = after.snapshot;
    let same_parent: bool = match (before.parent, after.parent) {
        (Some(a), Some(b)) => a == b,
        (None, None) => true,
        _ => false,
    };
    let renamed: bool = !earlier.name.as_str().eq(later.name.as_str());
    let set: Properties = find_set_properties(reflection, frames, earlier, later);
    let count: usize = set.len();
    proof {
        assert(set.deep().dom() =~= set@.dom());
        if count == 0 {
            assert(set.keys().to_set() =~= Set::empty());
        } else {
            assert(set.keys().contains(set.keys()[0]));
            assert(set.keys().to_set().contains(set.keys()[0]));
        }
    }
    let update: UpdatedSnapshot = UpdatedSnapshot {
        id: later.id,
        parent: if same_parent {
            None
        } else {
            after.parent
        },
        name: if renamed {
            Some(later.name.clone())
        } else {
            None
        },
        raw_name: if renamed {
            copy_raw(&later.raw_name)
        } else {
            None
        },
        class: if earlier.class.as_str().eq(later.class.as_str()) {
            None
        } else {
            Some(later.class.clone())
        },
        properties: if count == 0 {
            None
        } else {
            Some(set)
        },
        removed_properties: find_gone_properties(reflection, frames, earlier, later),
    };
    proof {
        assert(update@ =~= update_of(*reflection, *frames, before@, after@));
    }
    update
}

fn find_updates(reflection: &Reflection, frames: &SameFrames, earlier: &Canonical, list: &Vec<FlatNode>) -> (found:
    Vec<UpdatedSnapshot>)
    requires
        earlier.wf(),
    ensures
        updates_view(found@) == updates(*reflection, *frames, earlier.flat(), flat_views(list@)),
{
    let mut found: Vec<UpdatedSnapshot> = Vec::new();
    let ghost all = flat_views(list@);
    let mut at: usize = 0;
    proof {
        assert(all.take(0) =~= Seq::empty());
        assert(updates_view(found@) =~= updates(*reflection, *frames, earlier.flat(), all.take(0)));
    }
    while at < list.len()
        invariant
            at <= list@.len(),
            earlier.wf(),
            all == flat_views(list@),
            updates_view(found@) == updates(*reflection, *frames, earlier.flat(), all.take(at as int)),
        decreases list@.len() - at,
    {
        let ghost before = updates_view(found@);
        proof {
            let next = all.take(at + 1);
            assert(next.drop_last() =~= all.take(at as int));
            assert(next.last() == list@[at as int]@);
        }
        match earlier.find(list[at].snapshot.id) {
            Some(node) => {
                let update: UpdatedSnapshot = find_update(reflection, frames, node, &list[at]);
                let ghost view = update@;
                if !update.is_empty() {
                    found.push(update);
                    proof {
                        assert(updates_view(found@) =~= before.push(view));
                    }
                }
            },
            None => {},
        }
        at = at + 1;
    }
    proof {
        assert(all.take(list@.len() as int) =~= all);
    }
    found
}

/// The sparse changes that turn one hierarchy into another: the topmost new
/// nodes, the topmost lost ones, and what changed in meaning of the others.
pub fn diff_snapshots(reflection: &Reflection, frames: &SameFrames, before: &Snapshot, after: &Snapshot) -> (changes:
    Changes)
    ensures
        changes@ == difference(*reflection, *frames, before.node(), after.node()),
{
    let earlier: Vec<FlatNode> = flatten_snapshot(before);
    let later: Vec<FlatNode> = flatten_snapshot(after);
    let earlier_ids: HashSet<u128> = flat_id_set(&earlier);
    let later_ids: HashSet<u128> = flat_id_set(&later);
    let mut removed: Vec<Ref> = Vec::new();
    push_lacking(before, &later_ids, &mut removed);
    proof {
        assert(removed@ =~= lacking(before.node(), ids(after.node())));
    }
    let canonical: Canonical = Canonical::of(before);
    let kept: Vec<FlatNode> = keep_latest(&later);
    let gone: Vec<Ref> = keep_once(&removed);
    let changes: Changes = Changes {
        additions: find_additions(&earlier_ids, &kept),
        updates: find_updates(reflection, frames, &canonical, &kept),
        removals: sort_refs(&gone),
    };
    proof {
        assert(changes@ =~= difference(*reflection, *frames, before.node(), after.node()));
    }
    changes
}

// ---------------------------------------------------------------------------
// Laws

proof fn lemma_nothing_lacking(node: NodeView, there: Set<Ref>)
    requires
        forall|k: int|
            0 <= k < flat(node, None).len() ==> there.contains(#[trigger] flat(node, None)[k].node.id),
    ensures
        lacking(node, there) == Seq::<Ref>::empty(),
    decreases node, 1int,
{
    let list = flat(node, None);
    assert(list[0].node == node);
    let below = flat_list(node.children, Some(node.id));
    assert forall|k: int| 0 <= k < below.len() implies there.contains(#[trigger] below[k].node.id) by {
        assert(list[k + 1] == below[k]);
    }
    lemma_nothing_lacking_below(node.children, Some(node.id), there);
}

proof fn lemma_nothing_lacking_below(list: Seq<NodeView>, parent: Option<Ref>, there: Set<Ref>)
    requires
        forall|k: int|
            0 <= k < flat_list(list, parent).len() ==> there.contains(#[trigger] flat_list(list, parent)[k].node.id),
    ensures
        lacking_list(list, there) == Seq::<Ref>::empty(),
    decreases list, 0int,
{
    if list.len() > 0 {
        let all = flat_list(list, parent);
        let before = flat_list(list.drop_last(), parent);
        let last = flat(list.last(), parent);
        assert(all == before + last);
        assert forall|k: int| 0 <= k < before.len() implies there.contains(#[trigger] before[k].node.id) by {
            assert(all[k] == before[k]);
        }
        lemma_nothing_lacking_below(list.drop_last(), parent, there);
        let alone = flat(list.last(), None);
        assert forall|k: int| 0 <= k < alone.len() implies there.contains(#[trigger] alone[k].node.id) by {
            assert(last.len() == alone.len());
            assert(last[k].node == alone[k].node);
            assert(all[before.len() + k] == last[k]);
        }
        lemma_nothing_lacking(list.last(), there);
        assert(lacking_list(list, there) =~= Seq::empty());
    }
}

/// A value means the same as itself: every value does but one with a word in it that is
/// not a number.
pub open spec fn equals_itself(
    reflection: Reflection,
    frames: SameFrames,
    node: NodeView,
    name: Seq<char>,
    value: Option<VariantView>,
) -> bool {
    means_same(reflection, frames, node.id, node.class, name, value, value)
}

/// Every property of a node means the same as itself.
pub open spec fn all_equal_themselves(reflection: Reflection, frames: SameFrames, node: NodeView) -> bool {
    forall|name: Seq<char>| #[trigger]
        node.properties.dom().contains(name) ==> equals_itself(
            reflection,
            frames,
            node,
            name,
            Some(node.properties[name]),
        )
}

proof fn lemma_update_of_itself(reflection: Reflection, frames: SameFrames, node: FlatView)
    requires
        all_equal_themselves(reflection, frames, node.node),
    ensures
        update_of(reflection, frames, node, node).is_empty(),
{
    assert forall|name: Seq<char>| !#[trigger] changed(reflection, frames, node.node, node.node, name) by {
        let value = property_of(node.node.properties, name);
        if node.node.properties.dom().contains(name) {
            assert(equals_itself(reflection, frames, node.node, name, value));
        }
    }
    let set = set_properties(reflection, frames, node.node, node.node);
    assert(set.dom() =~= Set::empty());
    let gone = Set::new(
        |name: Seq<char>|
            !node.node.properties.dom().contains(name) && changed(reflection, frames, node.node, node.node, name),
    );
    let none = Seq::<Seq<char>>::empty();
    assert(gone =~= Set::empty());
    assert(none.to_set() =~= Set::empty());
    assert(crate::text_map::keys_ordered(none) && none.to_set() == gone);
    crate::text_map::lemma_ordered_lists(ordered_keys(gone), none);
}

/// A place whose identities differ from each other, and whose numbers are numbers, does
/// not differ from itself.
pub proof fn law_nothing_differs_from_itself(reflection: Reflection, frames: SameFrames, node: NodeView)
    requires
        flat_ids(flat(node, None)).no_duplicates(),
        forall|k: int|
            0 <= k < flat(node, None).len() ==> all_equal_themselves(
                reflection,
                frames,
                (#[trigger] flat(node, None)[k]).node,
            ),
    ensures
        difference(reflection, frames, node, node) == (ChangesView {
            additions: Seq::empty(),
            updates: Seq::empty(),
            removals: Seq::empty(),
        }),
{
    let list = flat(node, None);
    let there = ids(node);
    assert forall|k: int| 0 <= k < list.len() implies there.contains(#[trigger] list[k].node.id) by {
        assert(flat_ids(list)[k] == list[k].node.id);
        assert(flat_ids(list).contains(list[k].node.id));
    }
    lemma_nothing_lacking(node, there);
    lemma_latest(list, list.len());
    lemma_no_additions(there, list);
    lemma_no_updates(reflection, frames, list, list.len() as int);
    assert(list.take(list.len() as int) =~= list);
    assert(sorted_refs(Seq::<Ref>::empty()) =~= Seq::empty());
}

proof fn lemma_no_additions(there: Set<Ref>, list: Seq<FlatView>)
    requires
        forall|k: int| 0 <= k < list.len() ==> there.contains(#[trigger] list[k].node.id),
    ensures
        additions(there, list) == Seq::<AdditionView>::empty(),
    decreases list.len(),
{
    if list.len() > 0 {
        assert(there.contains(list[list.len() - 1].node.id));
        assert forall|k: int| 0 <= k < list.drop_last().len() implies there.contains(
            #[trigger] list.drop_last()[k].node.id,
        ) by {
            assert(list.drop_last()[k] == list[k]);
        }
        lemma_no_additions(there, list.drop_last());
    }
}

proof fn lemma_no_updates(reflection: Reflection, frames: SameFrames, list: Seq<FlatView>, count: int)
    requires
        0 <= count <= list.len(),
        flat_ids(list).no_duplicates(),
        forall|k: int| 0 <= k < list.len() ==> all_equal_themselves(reflection, frames, (#[trigger] list[k]).node),
    ensures
        updates(reflection, frames, list, list.take(count)) == Seq::<UpdateView>::empty(),
    decreases count,
{
    if count > 0 {
        assert(list.take(count).drop_last() =~= list.take(count - 1));
        lemma_no_updates(reflection, frames, list, count - 1);
        let last = list[count - 1];
        assert(list.take(count).last() == last);
        lemma_position(list, last.node.id);
        let at = position(list, last.node.id)->0;
        assert(flat_ids(list)[at] == list[at].node.id);
        assert(flat_ids(list)[count - 1] == last.node.id);
        assert(at == count - 1);
        lemma_update_of_itself(reflection, frames, last);
    }
}

// ---------------------------------------------------------------------------
// Nothing is left out

/// Identities at and below a node.
spec fn listed(node: NodeView, parent: Option<Ref>, id: Ref) -> bool {
    flat_ids(flat(node, parent)).contains(id)
}

/// An addition that brings an instance.
pub open spec fn brings(addition: AdditionView, id: Ref) -> bool {
    ids(addition.node).contains(id)
}

/// A node of a hierarchy with an identity, at or below which another stands.
pub open spec fn takes(node: NodeView, root: Ref, id: Ref) -> bool {
    exists|at: int|
        0 <= at < flat(node, None).len() && (#[trigger] flat(node, None)[at]).node.id == root && ids(
            flat(node, None)[at].node,
        ).contains(id)
}

proof fn lemma_listed(node: NodeView, parent: Option<Ref>, id: Ref)
    ensures
        listed(node, parent, id) == ids(node).contains(id),
        listed(node, parent, node.id),
        id != node.id && listed(node, parent, id) ==> flat_ids(flat_list(node.children, Some(node.id))).contains(id),
{
    let below = flat_list(node.children, Some(node.id));
    assert(flat_ids(flat(node, parent)) =~= seq![node.id] + flat_ids(below));
    assert(flat_ids(flat(node, None)) =~= seq![node.id] + flat_ids(below));
    assert(flat_ids(flat(node, parent))[0] == node.id);
    if id != node.id && listed(node, parent, id) {
        let k = flat_ids(flat(node, parent)).index_of(id);
        assert(flat_ids(below)[k - 1] == id);
    }
}

proof fn lemma_listed_below(list: Seq<NodeView>, parent: Option<Ref>, id: Ref) -> (at: int)
    requires
        flat_ids(flat_list(list, parent)).contains(id),
    ensures
        0 <= at < list.len(),
        listed(list[at], parent, id),
    decreases list.len(),
{
    let before = flat_list(list.drop_last(), parent);
    let last = flat(list.last(), parent);
    assert(flat_ids(flat_list(list, parent)) =~= flat_ids(before) + flat_ids(last));
    let k = flat_ids(flat_list(list, parent)).index_of(id);
    if k < before.len() {
        assert(flat_ids(before)[k] == id);
        let at = lemma_listed_below(list.drop_last(), parent, id);
        assert(list.drop_last()[at] == list[at]);
        at
    } else {
        assert(flat_ids(last)[k - before.len()] == id);
        list.len() - 1
    }
}

proof fn lemma_additions_append(there: Set<Ref>, a: Seq<FlatView>, b: Seq<FlatView>)
    ensures
        additions(there, a + b) == additions(there, a) + additions(there, b),
    decreases b.len(),
{
    if b.len() == 0 {
        assert(a + b =~= a);
        assert(additions(there, a) + additions(there, b) =~= additions(there, a));
    } else {
        lemma_additions_append(there, a, b.drop_last());
        assert((a + b).drop_last() =~= a + b.drop_last());
        assert((a + b).last() == b.last());
        assert(additions(there, a + b) =~= additions(there, a) + additions(there, b));
    }
}

proof fn lemma_brought(there: Set<Ref>, node: NodeView, parent: Option<Ref>, id: Ref) -> (at: int)
    requires
        parent matches Some(parent) ==> there.contains(parent),
        listed(node, parent, id),
        !there.contains(id),
    ensures
        0 <= at < additions(there, flat(node, parent)).len(),
        brings(additions(there, flat(node, parent))[at], id),
    decreases node,
{
    let head = seq![FlatView { parent, node }];
    let below = flat_list(node.children, Some(node.id));
    lemma_listed(node, parent, id);
    lemma_additions_append(there, head, below);
    assert(flat(node, parent) =~= head + below);
    assert(head.drop_last() =~= Seq::empty());
    assert(head.last() == (FlatView { parent, node }));
    assert(additions(there, head.drop_last()) =~= Seq::empty());
    if !there.contains(node.id) {
        assert(additions(there, head) =~= seq![addition_of(head.last())]);
        0
    } else {
        assert(additions(there, head) =~= Seq::empty());
        let c = lemma_listed_below(node.children, Some(node.id), id);
        let child = node.children[c];
        let at = lemma_brought(there, child, Some(node.id), id);
        let left = flat_list(node.children.take(c), Some(node.id));
        let own = flat(child, Some(node.id));
        let right = flat_list(node.children.skip(c + 1), Some(node.id));
        lemma_flat_around(node.children, c, Some(node.id));
        lemma_additions_append(there, left + own, right);
        lemma_additions_append(there, left, own);
        let place = additions(there, left).len() + at;
        assert(additions(there, below)[place] == additions(there, own)[at]);
        assert(additions(there, flat(node, parent)) =~= additions(there, below));
        place as int
    }
}

/// A node at some place of a flat list holds another.
spec fn covers(list: Seq<FlatView>, root: Ref, id: Ref) -> bool {
    exists|at: int| 0 <= at < list.len() && (#[trigger] list[at]).node.id == root && ids(list[at].node).contains(id)
}

proof fn lemma_taken(there: Set<Ref>, node: NodeView, parent: Option<Ref>, id: Ref) -> (root: Ref)
    requires
        listed(node, parent, id),
        !there.contains(id),
    ensures
        lacking(node, there).contains(root),
        covers(flat(node, parent), root, id),
    decreases node,
{
    let below = flat_list(node.children, Some(node.id));
    lemma_listed(node, parent, id);
    assert(flat(node, parent)[0].node == node);
    if !there.contains(node.id) {
        assert(lacking(node, there)[0] == node.id);
        node.id
    } else {
        let c = lemma_listed_below(node.children, Some(node.id), id);
        let child = node.children[c];
        let root = lemma_taken(there, child, Some(node.id), id);
        lemma_lacking_child(node.children, there, c, root);
        lemma_flat_around(node.children, c, Some(node.id));
        let left = flat_list(node.children.take(c), Some(node.id));
        let own = flat(child, Some(node.id));
        let k = choose|k: int| 0 <= k < own.len() && (#[trigger] own[k]).node.id == root && ids(own[k].node).contains(id);
        assert(below[left.len() + k] == own[k]);
        assert(flat(node, parent)[1 + left.len() + k] == own[k]);
        root
    }
}

proof fn lemma_lacking_child(list: Seq<NodeView>, there: Set<Ref>, at: int, root: Ref)
    requires
        0 <= at < list.len(),
        lacking(list[at], there).contains(root),
    ensures
        lacking_list(list, there).contains(root),
    decreases list.len(),
{
    let before = lacking_list(list.drop_last(), there);
    let last = lacking(list.last(), there);
    assert(lacking_list(list, there) == before + last);
    if at < list.len() - 1 {
        assert(list.drop_last()[at] == list[at]);
        lemma_lacking_child(list.drop_last(), there, at, root);
        assert((before + last)[before.index_of(root)] == root);
    } else {
        assert((before + last)[before.len() + last.index_of(root)] == root);
    }
}

/// The difference to a place whose identities differ from each other accounts for every
/// instance: one that is new comes with
/// an addition, and one that is gone stands at or below a removed instance.
pub proof fn law_differences_account_for_every_instance(
    reflection: Reflection,
    frames: SameFrames,
    before: NodeView,
    after: NodeView,
    id: Ref,
)
    requires
        flat_ids(flat(after, None)).no_duplicates(),
    ensures
        ({
            let changes = difference(reflection, frames, before, after);
            &&& ids(after).contains(id) && !ids(before).contains(id) ==> exists|at: int|
                0 <= at < changes.additions.len() && brings(#[trigger] changes.additions[at], id)
            &&& ids(before).contains(id) && !ids(after).contains(id) ==> exists|root: Ref|
                changes.removals.contains(root) && #[trigger] takes(before, root, id)
        }),
{
    let changes = difference(reflection, frames, before, after);
    let later = flat(after, None);
    lemma_latest(later, later.len());
    assert(later.take(later.len() as int) =~= later);
    if ids(after).contains(id) && !ids(before).contains(id) {
        let at = lemma_brought(ids(before), after, None, id);
        assert(brings(changes.additions[at], id));
    }
    if ids(before).contains(id) && !ids(after).contains(id) {
        let root = lemma_taken(ids(after), before, None, id);
        lemma_once(lacking(before, ids(after)));
        lemma_sorted_refs(once(lacking(before, ids(after))));
        assert(changes.removals.contains(root));
        let list = flat(before, None);
        let k = choose|k: int| 0 <= k < list.len() && (#[trigger] list[k]).node.id == root && ids(list[k].node).contains(id);
        assert(flat(before, None)[k].node.id == root);
        assert(takes(before, root, id));
    }
}

/// An update brings what changed: with it, every property of the earlier instance means
/// what it means in the later one, and name, class and parent are those of the later one.
/// Properties that only tell identities apart are left alone, and so is the name under
/// which a raw name is kept; a value that does not equal itself means nothing the same.
pub proof fn law_updates_bring_what_changed(
    reflection: Reflection,
    frames: SameFrames,
    before: FlatView,
    after: FlatView,
    data: TreeNodeView,
    name: Seq<char>,
)
    requires
        before.node.properties.dom().finite(),
        data.properties == before.node.properties,
        data.name == before.node.name,
        data.class == before.node.class,
        after.parent is Some,
        !identity_only(name),
        name != "__CarbonRawName"@,
        equals_itself(reflection, frames, after.node, name, property_of(after.node.properties, name)),
    ensures
        ({
            let update = update_of(reflection, frames, before, after);
            let updated = updated_data(data, update);
            &&& means_same(
                reflection,
                frames,
                after.node.id,
                after.node.class,
                name,
                property_of(updated.properties, name),
                property_of(after.node.properties, name),
            )
            &&& updated.name == after.node.name
            &&& updated.class == after.node.class
            &&& update.id == after.node.id
            &&& before.parent != after.parent ==> update.parent == after.parent
        }),
{
    let update = update_of(reflection, frames, before, after);
    let updated = updated_data(data, update);
    let set = set_properties(reflection, frames, before.node, after.node);
    let gone = Set::new(
        |name: Seq<char>|
            !after.node.properties.dom().contains(name) && changed(reflection, frames, before.node, after.node, name),
    );
    assert(gone.subset_of(before.node.properties.dom()));
    vstd::set_lib::lemma_set_subset_finite(before.node.properties.dom(), gone);
    lemma_ordered_keys(gone);
    assert(update.removed_properties.to_set() == gone);
    let value = property_of(after.node.properties, name);
    let earlier = property_of(before.node.properties, name);
    if changed(reflection, frames, before.node, after.node, name) {
        if after.node.properties.dom().contains(name) {
            assert(set.dom().contains(name));
            assert(!gone.contains(name));
            assert(property_of(updated.properties, name) == value);
        } else {
            assert(gone.contains(name));
            assert(property_of(updated.properties, name) == value);
        }
    } else {
        assert(!set.dom().contains(name));
        assert(!gone.contains(name));
        assert(property_of(updated.properties, name) == earlier);
    }
}

} // verus!
