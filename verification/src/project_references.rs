//! References between what belongs to the file system and what belongs to the
//! manifest, and the identities that they rest on.

use crate::hierarchy::{flat, flat_views, flatten_snapshot, position, FlatNode, FlatView};
use crate::live_policy::distinct_texts;
use crate::snapshot::{
    additions_view, lemma_children, nodes, updates_view, AddedSnapshot, AdditionView, Changes, ChangesView, NodeView,
    Snapshot, UpdateView, UpdatedSnapshot,
};
use crate::text::{join, joined, ref_chars, ref_text, separated, texts};
use crate::text_map::{lemma_listed_keys, ordered_keys};
use crate::variant::{Properties, Variant, VariantView};
use crate::{Ref, NO_REF};
use std::collections::{HashMap, HashSet};
use vstd::prelude::*;

verus! {

broadcast use vstd::std_specs::hash::group_hash_axioms;

/// The instance that a value points to.
pub open spec fn target_of(value: VariantView) -> Option<Ref> {
    match value {
        VariantView::Ref(target) => if target == NO_REF {
            None
        } else {
            Some(target)
        },
        VariantView::Object(target) => if target == NO_REF {
            None
        } else {
            Some(target)
        },
        _ => None,
    }
}

/// The instance that a value points to.
pub fn reference_target(value: &Variant) -> (target: Option<Ref>)
    ensures
        target == target_of(value@),
{
    match value {
        Variant::Ref(target) => {
            if *target == NO_REF {
                None
            } else {
                Some(*target)
            }
        },
        Variant::Object(target) => {
            if *target == NO_REF {
                None
            } else {
                Some(*target)
            }
        },
        _ => None,
    }
}

// ---------------------------------------------------------------------------
// Paths by identity

/// Paths by identity.
pub type Paths = Map<Ref, Seq<char>>;

/// The path of a child.
pub open spec fn child_path(path: Seq<char>, name: Seq<char>) -> Seq<char> {
    path + "."@ + name
}

/// The paths with those of a node and everything below it.
pub open spec fn with_paths(paths: Paths, node: NodeView, path: Seq<char>) -> Paths
    decreases node,
{
    with_child_paths(paths.insert(node.id, path), node.children, path)
}

pub open spec fn with_child_paths(paths: Paths, list: Seq<NodeView>, path: Seq<char>) -> Paths
    decreases list,
{
    if list.len() == 0 {
        paths
    } else {
        with_paths(
            with_child_paths(paths, list.drop_last(), path),
            list.last(),
            child_path(path, list.last().name),
        )
    }
}

/// What a table of paths stands for.
pub open spec fn paths_view(table: Map<u128, String>) -> Paths {
    table.map_values(|path: String| path@)
}

fn put_path(table: &mut HashMap<u128, String>, id: Ref, path: &str)
    ensures
        paths_view(final(table)@) == paths_view(old(table)@).insert(id, path@),
{
    table.insert(id, path.to_owned());
    proof {
        assert(paths_view(table@) =~= paths_view(old(table)@).insert(id, path@));
    }
}

fn find_path<'a>(table: &'a HashMap<u128, String>, id: Ref) -> (path: Option<&'a String>)
    ensures
        match path {
            Some(path) => paths_view(table@).dom().contains(id) && paths_view(table@)[id] == path@,
            None => !paths_view(table@).dom().contains(id),
        },
{
    proof {
        assert(paths_view(table@).dom() =~= table@.dom());
    }
    table.get(&id)
}

fn path_below(path: &str, name: &str) -> (below: String)
    ensures
        below@ == child_path(path@, name@),
{
    let mut below: String = path.to_owned();
    below.append(".");
    below.append(name);
    below
}

fn put_paths(table: &mut HashMap<u128, String>, node: &Snapshot, path: &str)
    ensures
        paths_view(final(table)@) == with_paths(paths_view(old(table)@), node.node(), path@),
    decreases node,
{
    put_path(table, node.id, path);
    let ghost start = paths_view(table@);
    let ghost children = node.node().children;
    proof {
        lemma_children(*node);
        assert(children.take(0) =~= Seq::empty());
    }
    let mut at: usize = 0;
    while at < node.children.len()
        invariant
            at <= node.children@.len(),
            children == node.node().children,
            children.len() == node.children@.len(),
            forall|k: int| 0 <= k < children.len() ==> #[trigger] children[k] == node.children@[k].node(),
            paths_view(table@) == with_child_paths(start, children.take(at as int), path@),
        decreases node.children@.len() - at,
    {
        let below: String = path_below(path, node.children[at].name.as_str());
        put_paths(table, &node.children[at], below.as_str());
        proof {
            let next = children.take(at + 1);
            assert(next.drop_last() =~= children.take(at as int));
            assert(next.last() == children[at as int]);
        }
        at = at + 1;
    }
    proof {
        assert(children.take(children.len() as int) =~= children);
    }
}

// ---------------------------------------------------------------------------
// Blockers

/// The words for a reference from the file system into the manifest.
pub open spec fn blocker(owner: Seq<char>, property: Seq<char>, target: Seq<char>) -> Seq<char> {
    "filesystem-owned reference at "@ + owner + "."@ + property + " targets manifest-owned "@ + target
}

/// The references among the listed properties that lead from the file system
/// into the manifest.
pub open spec fn property_blockers(
    paths: Paths,
    mapped: Set<Ref>,
    owner: Ref,
    properties: Map<Seq<char>, VariantView>,
    names: Seq<Seq<char>>,
) -> Seq<Seq<char>>
    decreases names.len(),
{
    if names.len() == 0 {
        Seq::empty()
    } else {
        let before = property_blockers(paths, mapped, owner, properties, names.drop_last());
        match target_of(properties[names.last()]) {
            Some(target) => if paths.dom().contains(owner) && paths.dom().contains(target) && mapped.contains(owner)
                && !mapped.contains(target) {
                before.push(blocker(paths[owner], names.last(), paths[target]))
            } else {
                before
            },
            None => before,
        }
    }
}

/// The references of an instance that lead from the file system into the
/// manifest.
pub open spec fn own_blockers(
    paths: Paths,
    mapped: Set<Ref>,
    owner: Ref,
    properties: Map<Seq<char>, VariantView>,
) -> Seq<Seq<char>> {
    property_blockers(paths, mapped, owner, properties, ordered_keys(properties.dom()))
}

/// The references of a node and everything below it that lead from the file
/// system into the manifest.
pub open spec fn node_blockers(paths: Paths, mapped: Set<Ref>, node: NodeView) -> Seq<Seq<char>>
    decreases node,
{
    own_blockers(paths, mapped, node.id, node.properties) + list_blockers(paths, mapped, node.children)
}

pub open spec fn list_blockers(paths: Paths, mapped: Set<Ref>, list: Seq<NodeView>) -> Seq<Seq<char>>
    decreases list,
{
    if list.len() == 0 {
        Seq::empty()
    } else {
        list_blockers(paths, mapped, list.drop_last()) + node_blockers(paths, mapped, list.last())
    }
}

fn push_own_blockers(
    table: &HashMap<u128, String>,
    mapped: &HashSet<u128>,
    owner: Ref,
    properties: &Properties,
    out: &mut Vec<String>,
)
    ensures
        texts(final(out)@) == texts(old(out)@) + own_blockers(
            paths_view(table@),
            mapped@,
            owner,
            properties.deep(),
        ),
{
    let ghost paths = paths_view(table@);
    let ghost start = texts(out@);
    let ghost keys = properties.keys();
    let len: usize = properties.len();
    proof {
        lemma_listed_keys(*properties);
        assert(properties.deep().dom() =~= properties@.dom());
        assert(keys.take(0) =~= Seq::empty());
        assert(start + property_blockers(paths, mapped@, owner, properties.deep(), keys.take(0)) =~= start);
    }
    let mut at: usize = 0;
    while at < len
        invariant
            at <= len,
            len == keys.len(),
            keys == properties.keys(),
            properties.listed(),
            paths == paths_view(table@),
            texts(out@) == start + property_blockers(
                paths,
                mapped@,
                owner,
                properties.deep(),
                keys.take(at as int),
            ),
        decreases len - at,
    {
        let ghost before = texts(out@);
        let ghost done = property_blockers(paths, mapped@, owner, properties.deep(), keys.take(at as int));
        proof {
            assert(keys.contains(keys[at as int]));
            assert(keys.to_set().contains(keys[at as int]));
            assert(properties.deep()[keys[at as int]] == properties@[keys[at as int]]@);
            assert(keys.take(at + 1).drop_last() =~= keys.take(at as int));
        }
        match reference_target(properties.value_at(at)) {
            Some(target) => {
                if mapped.contains(&owner) && !mapped.contains(&target) {
                    match (find_path(table, owner), find_path(table, target)) {
                        (Some(owner_path), Some(target_path)) => {
                            let mut text: String = "filesystem-owned reference at ".to_owned();
                            text.append(owner_path.as_str());
                            text.append(".");
                            text.append(properties.key_at(at).as_str());
                            text.append(" targets manifest-owned ");
                            text.append(target_path.as_str());
                            let ghost words = text@;
                            out.push(text);
                            proof {
                                assert(texts(out@) =~= before.push(words));
                                assert((start + done).push(words) =~= start + done.push(words));
                            }
                        },
                        _ => {},
                    }
                }
            },
            None => {},
        }
        at = at + 1;
    }
    proof {
        assert(keys.take(len as int) =~= keys);
    }
}

fn push_node_blockers(table: &HashMap<u128, String>, mapped: &HashSet<u128>, node: &Snapshot, out: &mut Vec<String>)
    ensures
        texts(final(out)@) == texts(old(out)@) + node_blockers(paths_view(table@), mapped@, node.node()),
    decreases node,
{
    let ghost first = texts(out@);
    push_own_blockers(table, mapped, node.id, &node.properties, out);
    let ghost paths = paths_view(table@);
    let ghost start = texts(out@);
    let ghost children = node.node().children;
    proof {
        lemma_children(*node);
        assert(children.take(0) =~= Seq::empty());
        assert(start + list_blockers(paths, mapped@, children.take(0)) =~= start);
    }
    let mut at: usize = 0;
    while at < node.children.len()
        invariant
            at <= node.children@.len(),
            children == node.node().children,
            children.len() == node.children@.len(),
            forall|k: int| 0 <= k < children.len() ==> #[trigger] children[k] == node.children@[k].node(),
            paths == paths_view(table@),
            texts(out@) == start + list_blockers(paths, mapped@, children.take(at as int)),
        decreases node.children@.len() - at,
    {
        push_node_blockers(table, mapped, &node.children[at], out);
        proof {
            let next = children.take(at + 1);
            assert(next.drop_last() =~= children.take(at as int));
            assert(next.last() == children[at as int]);
            assert(texts(out@) =~= start + list_blockers(paths, mapped@, next));
        }
        at = at + 1;
    }
    proof {
        assert(children.take(children.len() as int) =~= children);
        assert(texts(out@) =~= first + node_blockers(paths, mapped@, node.node()));
    }
}

/// References that lead from the file system into the manifest.
#[derive(Debug)]
pub struct CrossDomainReferences {
    pub blockers: Vec<String>,
}

impl CrossDomainReferences {
    pub fn message(&self) -> (text: String)
        ensures
            text@ == "filesystem-owned instances may not reference manifest-owned instances:\n"@ + separated(
                texts(self.blockers@),
                "\n"@,
            ),
    {
        joined(
            "filesystem-owned instances may not reference manifest-owned instances:\n",
            join(&self.blockers, "\n").as_str(),
        )
    }
}

/// The outcome of a check that found some blockers: each once, in order.
pub open spec fn checked(found: Seq<Seq<char>>, outcome: Result<(), CrossDomainReferences>) -> bool {
    match outcome {
        Ok(()) => found.len() == 0,
        Err(error) => found.len() > 0 && texts(error.blockers@) == ordered_keys(found.to_set()),
    }
}

fn conclude(blockers: &Vec<String>) -> (outcome: Result<(), CrossDomainReferences>)
    ensures
        checked(texts(blockers@), outcome),
{
    proof {
        assert(texts(blockers@).len() == blockers@.len());
    }
    if blockers.len() == 0 {
        Ok(())
    } else {
        Err(CrossDomainReferences { blockers: distinct_texts(blockers) })
    }
}

/// Refuses a hierarchy in which something that belongs to the file system refers
/// to something that belongs to the manifest.
pub fn validate_no_cross_domain_references(snapshot: &Snapshot, mapped_refs: &HashSet<u128>) -> (outcome: Result<
    (),
    CrossDomainReferences,
>)
    ensures
        checked(
            node_blockers(
                with_paths(Map::empty(), snapshot.node(), "game"@),
                mapped_refs@,
                snapshot.node(),
            ),
            outcome,
        ),
{
    let mut table: HashMap<u128, String> = HashMap::new();
    proof {
        assert(paths_view(table@) =~= Map::empty());
    }
    put_paths(&mut table, snapshot, "game");
    let mut blockers: Vec<String> = Vec::new();
    proof {
        assert(texts(blockers@) =~= Seq::empty());
    }
    push_node_blockers(&table, mapped_refs, snapshot, &mut blockers);
    proof {
        assert(texts(blockers@) =~= node_blockers(paths_view(table@), mapped_refs@, snapshot.node()));
    }
    conclude(&blockers)
}

/// The path of the parent of an addition.
pub open spec fn parent_path(paths: Paths, parent: Ref) -> Seq<char> {
    if paths.dom().contains(parent) {
        paths[parent]
    } else {
        "<unknown:"@ + ref_chars(parent) + ">"@
    }
}

/// The paths with those of additions.
pub open spec fn with_addition_paths(paths: Paths, list: Seq<AdditionView>) -> Paths
    decreases list.len(),
{
    if list.len() == 0 {
        paths
    } else {
        let before = with_addition_paths(paths, list.drop_last());
        let addition = list.last();
        with_paths(
            before,
            addition.node,
            child_path(parent_path(before, addition.parent), addition.node.name),
        )
    }
}

/// The references of additions that lead from the file system into the manifest.
pub open spec fn addition_blockers(paths: Paths, mapped: Set<Ref>, list: Seq<AdditionView>) -> Seq<Seq<char>>
    decreases list.len(),
{
    if list.len() == 0 {
        Seq::empty()
    } else {
        addition_blockers(paths, mapped, list.drop_last()) + node_blockers(paths, mapped, list.last().node)
    }
}

/// The references that updates set and that lead from the file system into the
/// manifest.
pub open spec fn update_blockers(paths: Paths, mapped: Set<Ref>, list: Seq<UpdateView>) -> Seq<Seq<char>>
    decreases list.len(),
{
    if list.len() == 0 {
        Seq::empty()
    } else {
        update_blockers(paths, mapped, list.drop_last()) + match list.last().properties {
            Some(properties) => own_blockers(paths, mapped, list.last().id, properties),
            None => Seq::empty(),
        }
    }
}

/// The references of changes that lead from the file system into the manifest.
pub open spec fn change_blockers(canonical: NodeView, changes: ChangesView, mapped: Set<Ref>) -> Seq<Seq<char>> {
    let paths = with_addition_paths(with_paths(Map::empty(), canonical, "game"@), changes.additions);
    addition_blockers(paths, mapped, changes.additions) + update_blockers(paths, mapped, changes.updates)
}

fn put_children_paths(table: &mut HashMap<u128, String>, children: &Vec<Snapshot>, path: &str)
    ensures
        paths_view(final(table)@) == with_child_paths(paths_view(old(table)@), nodes(children@), path@),
{
    let ghost start = paths_view(table@);
    let ghost list = nodes(children@);
    proof {
        assert(list.take(0) =~= Seq::empty());
    }
    let mut at: usize = 0;
    while at < children.len()
        invariant
            at <= children@.len(),
            list == nodes(children@),
            paths_view(table@) == with_child_paths(start, list.take(at as int), path@),
        decreases children@.len() - at,
    {
        let below: String = path_below(path, children[at].name.as_str());
        put_paths(table, &children[at], below.as_str());
        proof {
            let next = list.take(at + 1);
            assert(next.drop_last() =~= list.take(at as int));
            assert(next.last() == children@[at as int].node());
        }
        at = at + 1;
    }
    proof {
        assert(list.take(list.len() as int) =~= list);
    }
}

fn put_addition_paths(table: &mut HashMap<u128, String>, list: &Vec<AddedSnapshot>)
    ensures
        paths_view(final(table)@) == with_addition_paths(paths_view(old(table)@), additions_view(list@)),
{
    let ghost start = paths_view(table@);
    let ghost all = additions_view(list@);
    proof {
        assert(all.take(0) =~= Seq::empty());
    }
    let mut at: usize = 0;
    while at < list.len()
        invariant
            at <= list@.len(),
            all == additions_view(list@),
            paths_view(table@) == with_addition_paths(start, all.take(at as int)),
        decreases list@.len() - at,
    {
        let addition: &AddedSnapshot = &list[at];
        let above: String = match find_path(table, addition.parent) {
            Some(path) => path.clone(),
            None => {
                let mut path: String = "<unknown:".to_owned();
                path.append(ref_text(addition.parent).as_str());
                path.append(">");
                path
            },
        };
        let path: String = path_below(above.as_str(), addition.name.as_str());
        put_path(table, addition.id, path.as_str());
        put_children_paths(table, &addition.children, path.as_str());
        proof {
            let next = all.take(at + 1);
            assert(next.drop_last() =~= all.take(at as int));
            assert(next.last() == addition@);
        }
        at = at + 1;
    }
    proof {
        assert(all.take(all.len() as int) =~= all);
    }
}

fn push_list_blockers(
    table: &HashMap<u128, String>,
    mapped: &HashSet<u128>,
    children: &Vec<Snapshot>,
    out: &mut Vec<String>,
)
    ensures
        texts(final(out)@) == texts(old(out)@) + list_blockers(paths_view(table@), mapped@, nodes(children@)),
{
    let ghost start = texts(out@);
    let ghost paths = paths_view(table@);
    let ghost list = nodes(children@);
    proof {
        assert(list.take(0) =~= Seq::empty());
        assert(start + list_blockers(paths, mapped@, list.take(0)) =~= start);
    }
    let mut at: usize = 0;
    while at < children.len()
        invariant
            at <= children@.len(),
            list == nodes(children@),
            paths == paths_view(table@),
            texts(out@) == start + list_blockers(paths, mapped@, list.take(at as int)),
        decreases children@.len() - at,
    {
        push_node_blockers(table, mapped, &children[at], out);
        proof {
            let next = list.take(at + 1);
            assert(next.drop_last() =~= list.take(at as int));
            assert(next.last() == children@[at as int].node());
            assert(texts(out@) =~= start + list_blockers(paths, mapped@, next));
        }
        at = at + 1;
    }
    proof {
        assert(list.take(list.len() as int) =~= list);
    }
}

fn push_addition_blockers(
    table: &HashMap<u128, String>,
    mapped: &HashSet<u128>,
    list: &Vec<AddedSnapshot>,
    out: &mut Vec<String>,
)
    ensures
        texts(final(out)@) == texts(old(out)@) + addition_blockers(
            paths_view(table@),
            mapped@,
            additions_view(list@),
        ),
{
    let ghost start = texts(out@);
    let ghost paths = paths_view(table@);
    let ghost all = additions_view(list@);
    proof {
        assert(all.take(0) =~= Seq::empty());
        assert(start + addition_blockers(paths, mapped@, all.take(0)) =~= start);
    }
    let mut at: usize = 0;
    while at < list.len()
        invariant
            at <= list@.len(),
            all == additions_view(list@),
            paths == paths_view(table@),
            texts(out@) == start + addition_blockers(paths, mapped@, all.take(at as int)),
        decreases list@.len() - at,
    {
        let addition: &AddedSnapshot = &list[at];
        push_own_blockers(table, mapped, addition.id, &addition.properties, out);
        push_list_blockers(table, mapped, &addition.children, out);
        proof {
            let next = all.take(at + 1);
            assert(next.drop_last() =~= all.take(at as int));
            assert(next.last() == addition@);
            assert(texts(out@) =~= start + addition_blockers(paths, mapped@, next));
        }
        at = at + 1;
    }
    proof {
        assert(all.take(all.len() as int) =~= all);
    }
}

fn push_update_blockers(
    table: &HashMap<u128, String>,
    mapped: &HashSet<u128>,
    list: &Vec<UpdatedSnapshot>,
    out: &mut Vec<String>,
)
    ensures
        texts(final(out)@) == texts(old(out)@) + update_blockers(
            paths_view(table@),
            mapped@,
            updates_view(list@),
        ),
{
    let ghost start = texts(out@);
    let ghost paths = paths_view(table@);
    let ghost all = updates_view(list@);
    proof {
        assert(all.take(0) =~= Seq::empty());
        assert(start + update_blockers(paths, mapped@, all.take(0)) =~= start);
    }
    let mut at: usize = 0;
    while at < list.len()
        invariant
            at <= list@.len(),
            all == updates_view(list@),
            paths == paths_view(table@),
            texts(out@) == start + update_blockers(paths, mapped@, all.take(at as int)),
        decreases list@.len() - at,
    {
        match &list[at].properties {
            Some(properties) => {
                push_own_blockers(table, mapped, list[at].id, properties, out);
            },
            None => {},
        }
        proof {
            let next = all.take(at + 1);
            assert(next.drop_last() =~= all.take(at as int));
            assert(next.last() == list@[at as int]@);
            assert(texts(out@) =~= start + update_blockers(paths, mapped@, next));
        }
        at = at + 1;
    }
    proof {
        assert(all.take(all.len() as int) =~= all);
    }
}

/// Refuses changes after which something that belongs to the file system would
/// refer to something that belongs to the manifest. References the other way are
/// in order.
pub fn validate_capture_cross_domain_references(
    canonical: &Snapshot,
    changes: &Changes,
    mapped_refs: &HashSet<u128>,
) -> (outcome: Result<(), CrossDomainReferences>)
    ensures
        checked(change_blockers(canonical.node(), changes@, mapped_refs@), outcome),
{
    let mut table: HashMap<u128, String> = HashMap::new();
    proof {
        assert(paths_view(table@) =~= Map::empty());
    }
    put_paths(&mut table, canonical, "game");
    put_addition_paths(&mut table, &changes.additions);
    let mut blockers: Vec<String> = Vec::new();
    proof {
        assert(texts(blockers@) =~= Seq::empty());
    }
    push_addition_blockers(&table, mapped_refs, &changes.additions, &mut blockers);
    push_update_blockers(&table, mapped_refs, &changes.updates, &mut blockers);
    proof {
        assert(texts(blockers@) =~= change_blockers(canonical.node(), changes@, mapped_refs@));
    }
    conclude(&blockers)
}

// ---------------------------------------------------------------------------
// Identities and references of a composed hierarchy

/// The first node whose identity occurred before, with the node that had it.
pub open spec fn first_duplicate(list: Seq<FlatView>, from: int) -> Option<(int, int)>
    decreases list.len() - from,
{
    if from < 0 || from >= list.len() {
        None
    } else {
        match position(list.take(from), list[from].node.id) {
            Some(earlier) => Some((earlier, from)),
            None => first_duplicate(list, from + 1),
        }
    }
}

/// Two nodes of a composed hierarchy with one identity.
#[derive(Debug)]
pub struct DuplicateIdentity {
    pub id: Ref,
    pub previous: String,
    pub location: String,
}

/// A node by its class and name.
pub open spec fn node_words(node: NodeView) -> Seq<char> {
    node.class + " '"@ + node.name + "'"@
}

impl DuplicateIdentity {
    pub fn message(&self) -> (text: String)
        ensures
            text@ == "duplicate composed identity "@ + ref_chars(self.id) + " at "@ + self.previous@ + " and "@
                + self.location@,
    {
        let mut text: String = "duplicate composed identity ".to_owned();
        text.append(ref_text(self.id).as_str());
        text.append(" at ");
        text.append(self.previous.as_str());
        text.append(" and ");
        text.append(self.location.as_str());
        text
    }
}

fn words_of(node: &Snapshot) -> (words: String)
    ensures
        words@ == node_words(node.node()),
{
    let mut words: String = node.class.clone();
    words.append(" '");
    words.append(node.name.as_str());
    words.append("'");
    words
}

/// Refuses a hierarchy in which an identity occurs twice.
pub fn validate_unique_snapshot_ids(snapshot: &Snapshot) -> (outcome: Result<(), DuplicateIdentity>)
    ensures
        match first_duplicate(flat(snapshot.node(), None), 0) {
            None => outcome is Ok,
            Some((earlier, later)) => {
                let list = flat(snapshot.node(), None);
                outcome matches Err(error) && error.id == list[later].node.id && error.previous@ == node_words(
                    list[earlier].node,
                ) && error.location@ == node_words(list[later].node)
            },
        },
{
    let list: Vec<FlatNode> = flatten_snapshot(snapshot);
    let ghost all = flat_views(list@);
    let mut seen: HashMap<u128, usize> = HashMap::new();
    let mut at: usize = 0;
    while at < list.len()
        invariant
            at <= list@.len(),
            all == flat_views(list@),
            all == flat(snapshot.node(), None),
            crate::hierarchy::indexes(seen@, all.take(at as int)),
            first_duplicate(all, 0) == first_duplicate(all, at as int),
        decreases list@.len() - at,
    {
        let id: Ref = list[at].snapshot.id;
        proof {
            assert(all[at as int] == list@[at as int]@);
            crate::hierarchy::lemma_position(all.take(at as int), id);
            let _ = seen@.dom().contains(id);
        }
        match seen.get(&id) {
            Some(earlier) => {
                proof {
                    assert(all.take(at as int)[*earlier as int] == all[*earlier as int]);
                    assert(all[*earlier as int] == list@[*earlier as int]@);
                }
                return Err(
                    DuplicateIdentity {
                        id,
                        previous: words_of(list[*earlier].snapshot),
                        location: words_of(list[at].snapshot),
                    },
                );
            },
            None => {},
        }
        let ghost before = seen@;
        seen.insert(id, at);
        proof {
            assert forall|other: Ref| #[trigger]
                seen@.dom().contains(other) == (position(all.take(at + 1), other) is Some) && (
            seen@.dom().contains(other) ==> position(all.take(at + 1), other) == Some(seen@[other] as int)) by {
                crate::hierarchy::lemma_position_take(all, at as int, other);
                let _ = before.dom().contains(other);
            }
        }
        at = at + 1;
    }
    Ok(())
}

/// A reference to an instance that is not there.
#[derive(Debug)]
pub struct DanglingReference {
    pub name: String,
    pub property: String,
    pub target: Ref,
}

impl DanglingReference {
    pub fn message(&self) -> (text: String)
        ensures
            text@ == "dangling composed reference "@ + self.name@ + "."@ + self.property@ + " -> "@ + ref_chars(
                self.target,
            )
                + "; restore the mapped source identity or modify the relevant manifest reference"@,
    {
        let mut text: String = "dangling composed reference ".to_owned();
        text.append(self.name.as_str());
        text.append(".");
        text.append(self.property.as_str());
        text.append(" -> ");
        text.append(ref_text(self.target).as_str());
        text.append("; restore the mapped source identity or modify the relevant manifest reference");
        text
    }
}

/// A reference that leads nowhere.
pub open spec fn dangles(ids: Set<Ref>, value: VariantView) -> bool {
    value matches VariantView::Ref(target) && target != NO_REF && !ids.contains(target)
}

/// The first of the listed properties that leads nowhere.
pub open spec fn first_dangling(
    ids: Set<Ref>,
    properties: Map<Seq<char>, VariantView>,
    names: Seq<Seq<char>>,
    from: int,
) -> Option<Seq<char>>
    decreases names.len() - from,
{
    if from < 0 || from >= names.len() {
        None
    } else if dangles(ids, properties[names[from]]) {
        Some(names[from])
    } else {
        first_dangling(ids, properties, names, from + 1)
    }
}

/// The first node with a reference that leads nowhere, and the property.
pub open spec fn first_dangling_node(ids: Set<Ref>, list: Seq<FlatView>, from: int) -> Option<(int, Seq<char>)>
    decreases list.len() - from,
{
    if from < 0 || from >= list.len() {
        None
    } else {
        let properties = list[from].node.properties;
        match first_dangling(ids, properties, ordered_keys(properties.dom()), 0) {
            Some(name) => Some((from, name)),
            None => first_dangling_node(ids, list, from + 1),
        }
    }
}

fn find_dangling(ids: &HashSet<u128>, properties: &Properties) -> (found: Option<(String, Ref)>)
    ensures
        match first_dangling(ids@, properties.deep(), ordered_keys(properties.deep().dom()), 0) {
            Some(name) => found matches Some((property, target)) && property@ == name && properties.deep()[name]
                == VariantView::Ref(target),
            None => found is None,
        },
{
    let len: usize = properties.len();
    let ghost keys = properties.keys();
    proof {
        lemma_listed_keys(*properties);
        assert(properties.deep().dom() =~= properties@.dom());
    }
    let mut at: usize = 0;
    while at < len
        invariant
            at <= len,
            len == keys.len(),
            keys == properties.keys(),
            properties.listed(),
            keys == ordered_keys(properties.deep().dom()),
            first_dangling(ids@, properties.deep(), keys, 0) == first_dangling(
                ids@,
                properties.deep(),
                keys,
                at as int,
            ),
        decreases len - at,
    {
        proof {
            assert(keys.contains(keys[at as int]));
            assert(keys.to_set().contains(keys[at as int]));
            assert(properties.deep()[keys[at as int]] == properties@[keys[at as int]]@);
        }
        match properties.value_at(at) {
            Variant::Ref(target) => {
                if *target != NO_REF && !ids.contains(target) {
                    return Some((properties.key_at(at).clone(), *target));
                }
            },
            _ => {},
        }
        at = at + 1;
    }
    None
}

/// Refuses a hierarchy with a reference to an instance that is not in it.
pub fn validate_snapshot_references(snapshot: &Snapshot) -> (outcome: Result<(), DanglingReference>)
    ensures
        match first_dangling_node(
            crate::hierarchy::ids(snapshot.node()),
            flat(snapshot.node(), None),
            0,
        ) {
            None => outcome is Ok,
            Some((at, property)) => {
                let node = flat(snapshot.node(), None)[at].node;
                outcome matches Err(error) && error.name@ == node.name && error.property@ == property
                    && node.properties[property] == VariantView::Ref(error.target)
            },
        },
{
    let list: Vec<FlatNode> = flatten_snapshot(snapshot);
    let ids: HashSet<u128> = crate::hierarchy::flat_id_set(&list);
    let ghost all = flat_views(list@);
    let mut at: usize = 0;
    while at < list.len()
        invariant
            at <= list@.len(),
            all == flat_views(list@),
            all == flat(snapshot.node(), None),
            ids@ == crate::hierarchy::ids(snapshot.node()),
            first_dangling_node(ids@, all, 0) == first_dangling_node(ids@, all, at as int),
        decreases list@.len() - at,
    {
        let node: &Snapshot = list[at].snapshot;
        proof {
            assert(all[at as int] == list@[at as int]@);
        }
        match find_dangling(&ids, &node.properties) {
            Some((property, target)) => {
                return Err(DanglingReference { name: node.name.clone(), property, target });
            },
            None => {},
        }
        at = at + 1;
    }
    Ok(())
}

} // verus!
