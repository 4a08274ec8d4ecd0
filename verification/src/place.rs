//! A place file as the comparison of two places sees it: its instances in the
//! order of a walk level by level.

use crate::hashing::{blake3_digest, blake3_hash, digest_bytes, push_digest, push_text, Digest};
use crate::managed_hierarchy::{le_bytes, push_le};
use crate::place_values::{
    braced_uuid, forward_default, has_managed_worktree_contract, is_braced_uuid, is_forward_instance_default,
    is_unique_property, unique_property, worktree_contract,
};
use crate::reflection::Reflection;
use crate::snapshot::{lemma_children, nodes, NodeView, Snapshot};
use crate::text::text_bytes;
use crate::text_map::{Plain, TextMap};
use crate::variant::{are_values_equal, values_equal, bool_value, Properties, Variant, VariantView};
use crate::Ref;
use std::collections::{HashMap, HashSet};
use vstd::prelude::*;
use vstd::string::StringSliceAdditionalSpecFns;

verus! {

broadcast use vstd::std_specs::hash::group_hash_axioms;

/// How a text is written in quotes, with escapes.
pub uninterp spec fn quoted_text(text: Seq<char>) -> Seq<char>;

/// The `Debug` form of `str`: the text in quotes, with escapes. It is a function
/// of the text alone.
#[verifier::external_body]
pub(crate) fn quoted(text: &str) -> (quoted: String)
    ensures
        quoted@ == quoted_text(text@),
{
    format!("{:?}", text)
}

/// One instance of a place.
#[derive(Debug)]
pub struct PlaceNode {
    pub referent: Ref,
    /// Where the parent stands. The root has none.
    pub parent: Option<usize>,
    /// Where the children stand.
    pub children: Vec<usize>,
    pub class: String,
    pub name: String,
    pub properties: Properties,
    /// A digest of the way from the root.
    pub locator: Digest,
    /// Where the ancestor right below the root stands.
    pub root_child: usize,
}

/// The instances of a place, the root first, every parent before its children.
#[derive(Debug)]
pub struct PlaceStructure {
    pub path: String,
    pub nodes: Vec<PlaceNode>,
    /// Where an instance stands.
    pub by_ref: HashMap<u128, usize>,
    pub metadata: TextMap<String>,
    /// The attribute that carries the identity of an instance.
    pub identity_attribute: String,
    /// The place is the worktree of a session.
    pub managed_worktree: bool,
    /// Which instances Studio made for its own use.
    pub studio_runtime_roots: Vec<bool>,
    /// The lightings whose clock agrees with their time of day.
    pub clock_agrees: HashSet<u128>,
}

// ---------------------------------------------------------------------------
// Shape

/// The locator of the root.
pub open spec fn root_locator() -> Digest {
    blake3_hash(text_bytes("carbon-place-diff-root-v1"@))
}

/// The locator of an instance by the locator of its parent and its place among
/// the siblings of the same class and name.
pub open spec fn child_locator(parent: Digest, class: Seq<char>, name: Seq<char>, occurrence: nat) -> Digest {
    blake3_hash(
        text_bytes("carbon-place-diff-locator-v1\0"@) + digest_bytes(parent) + text_bytes(class) + seq![0u8]
            + text_bytes(name) + le_bytes(occurrence, 4),
    )
}

/// The class and the name of an instance.
pub type NodeKey = (Seq<char>, Seq<char>);

pub open spec fn key_at(all: Seq<PlaceNode>, at: int) -> NodeKey {
    (all[at].class@, all[at].name@)
}

/// The classes and names of the listed instances.
pub open spec fn keys_at(all: Seq<PlaceNode>, list: Seq<usize>) -> Seq<NodeKey> {
    list.map_values(|at: usize| key_at(all, at as int))
}

/// How often a class and name occur.
pub open spec fn occurrences(keys: Seq<NodeKey>, key: NodeKey) -> nat
    decreases keys.len(),
{
    if keys.len() == 0 {
        0
    } else {
        occurrences(keys.drop_last(), key) + if keys.last() == key {
            1nat
        } else {
            0nat
        }
    }
}

/// An instance agrees with its parent and its children.
pub open spec fn placed(all: Seq<PlaceNode>, at: int) -> bool {
    &&& match all[at].parent {
        None => at == 0 && all[at].locator == root_locator() && all[at].root_child == 0,
        Some(parent) => 0 < at && parent < at && all[at].root_child == (if parent == 0 {
            at
        } else {
            all[parent as int].root_child as int
        }),
    }
    &&& all[at].root_child <= at
    &&& forall|k: int|
        0 <= k < all[at].children@.len() ==> #[trigger] is_child(all, at, k, all[at].children@[k] as int)
    &&& forall|j: int, k: int| #![trigger all[at].children@[j], all[at].children@[k]]
        0 <= j < k < all[at].children@.len() ==> all[at].children@[j] < all[at].children@[k]
}

/// The `k`-th child of the instance at `at` stands at `child`.
pub open spec fn is_child(all: Seq<PlaceNode>, at: int, k: int, child: int) -> bool {
    &&& at < child < all.len()
    &&& all[child].parent == Some(at as usize)
    &&& all[child].locator == child_locator(
        all[at].locator,
        all[child].class@,
        all[child].name@,
        occurrences(keys_at(all, all[at].children@.take(k)), key_at(all, child)),
    )
}

/// Every instance but the root is among the children of its parent.
pub open spec fn listed_by_parent(all: Seq<PlaceNode>) -> bool {
    forall|at: int|
        0 < at < all.len() ==> (#[trigger] all[at]).parent is Some && all[all[at].parent->0 as int].children@.contains(
            at as usize,
        )
}

pub open spec fn shaped(all: Seq<PlaceNode>) -> bool {
    &&& 0 < all.len() <= usize::MAX
    &&& forall|at: int| 0 <= at < all.len() ==> #[trigger] placed(all, at)
    &&& listed_by_parent(all)
}

/// The instance at `at` and everything below it are those of a snapshot.
pub open spec fn stands_for(all: Seq<PlaceNode>, at: int, node: NodeView) -> bool
    decreases node,
{
    &&& 0 <= at < all.len()
    &&& all[at].referent == node.id
    &&& all[at].class@ == node.class
    &&& all[at].name@ == node.name
    &&& all[at].properties.deep() == node.properties
    &&& all[at].children@.len() == node.children.len()
    &&& forall|k: int|
        0 <= k < node.children.len() ==> stands_for(all, all[at].children@[k] as int, #[trigger] node.children[k])
}

/// The size of a subtree.
spec fn weight(node: NodeView) -> nat
    decreases node,
{
    1 + weights(node.children)
}

spec fn weights(list: Seq<NodeView>) -> nat
    decreases list,
{
    if list.len() == 0 {
        0
    } else {
        weights(list.drop_last()) + weight(list.last())
    }
}

proof fn lemma_weights_concat(a: Seq<NodeView>, b: Seq<NodeView>)
    ensures
        weights(a + b) == weights(a) + weights(b),
    decreases b.len(),
{
    if b.len() == 0 {
        assert(a + b =~= a);
    } else {
        assert((a + b).drop_last() =~= a + b.drop_last());
        lemma_weights_concat(a, b.drop_last());
    }
}

proof fn lemma_weights_first(list: Seq<NodeView>)
    requires
        list.len() > 0,
    ensures
        weights(list) == weight(list[0]) + weights(list.skip(1)),
{
    assert(list =~= list.take(1) + list.skip(1));
    lemma_weights_concat(list.take(1), list.skip(1));
    assert(list.take(1).drop_last() =~= Seq::empty());
    assert(weights(list.take(1)) == weights(Seq::empty()) + weight(list[0]));
}

/// A count of classes and names.
struct KeyCounts {
    counts: TextMap<TextMap<u64>>,
}

impl KeyCounts {
    spec fn count(self, key: NodeKey) -> u64 {
        if self.counts@.dom().contains(key.0) && self.counts@[key.0]@.dom().contains(key.1) {
            self.counts@[key.0]@[key.1]
        } else {
            0
        }
    }

    /// The count of a class and name, which then grows by one.
    fn bump(&mut self, class: &str, name: &str) -> (before: u64)
        ensures
            before == old(self).count((class@, name@)),
            forall|key: NodeKey| #[trigger]
                final(self).count(key) == if key == (class@, name@) {
                    if before == u64::MAX {
                        before as int
                    } else {
                        before + 1
                    }
                } else {
                    old(self).count(key) as int
                },
    {
        let mut names: TextMap<u64> = match self.counts.remove(class) {
            Some(names) => names,
            None => TextMap::new(),
        };
        let before: u64 = match names.get(name) {
            Some(count) => *count,
            None => 0,
        };
        let after: u64 = before.saturating_add(1);
        names.insert(name.to_owned(), after);
        self.counts.insert(class.to_owned(), names);
        before
    }
}

/// The classes and names of snapshots.
spec fn snapshot_keys(list: Seq<Snapshot>) -> Seq<NodeKey> {
    list.map_values(|snapshot: Snapshot| (snapshot.class@, snapshot.name@))
}

/// An instance is the one of a snapshot, without its children yet.
spec fn made_of(node: PlaceNode, source: Snapshot) -> bool {
    &&& node.referent == source.id
    &&& node.class@ == source.class@
    &&& node.name@ == source.name@
    &&& node.properties.deep() == source.properties.deep()
}

/// The instance at `at` is the `k`-th child of the one at `cursor`.
spec fn child_made(all: Seq<PlaceNode>, at: int, cursor: int, source: Snapshot, k: int) -> bool {
    &&& made_of(all[at], source.children@[k])
    &&& all[at].parent == Some(cursor as usize)
    &&& all[at].children@.len() == 0
    &&& all[at].root_child == (if cursor == 0 {
        at
    } else {
        all[cursor].root_child as int
    })
    &&& all[at].locator == child_locator(
        all[cursor].locator,
        all[at].class@,
        all[at].name@,
        occurrences(snapshot_keys(source.children@).take(k), key_at(all, at)),
    )
}

fn occurrence_locator(parent: Digest, class: &str, name: &str, occurrence: u64) -> (locator: Digest)
    ensures
        locator == child_locator(parent, class@, name@, occurrence as nat),
{
    let mut text: Vec<u8> = Vec::new();
    push_text(&mut text, "carbon-place-diff-locator-v1\0");
    push_digest(&mut text, parent);
    push_text(&mut text, class);
    text.push(0);
    push_text(&mut text, name);
    push_le(&mut text, occurrence, 4);
    proof {
        assert(text@ =~= text_bytes("carbon-place-diff-locator-v1\0"@) + digest_bytes(parent) + text_bytes(class@)
            + seq![0u8] + text_bytes(name@) + le_bytes(occurrence as nat, 4));
    }
    blake3_digest(text.as_slice())
}

/// Appends the children of the instance at `cursor`, which is made of `source`.
fn push_children<'a>(
    source: &'a Snapshot,
    cursor: usize,
    all: &mut Vec<PlaceNode>,
    sources: &mut Vec<&'a Snapshot>,
) -> (children: Vec<usize>)
    requires
        cursor < old(all)@.len(),
        old(all)@.len() == old(sources)@.len(),
    ensures
        final(all)@.len() == old(all)@.len() + source.children@.len(),
        final(all)@.take(old(all)@.len() as int) == old(all)@,
        final(sources)@.len() == final(all)@.len(),
        final(sources)@.take(old(sources)@.len() as int) == old(sources)@,
        children@.len() == source.children@.len(),
        forall|k: int|
            0 <= k < children@.len() ==> #[trigger] children@[k] == old(all)@.len() + k && *final(sources)@[children@[k] as int] == source.children@[k] && child_made(
                final(all)@,
                children@[k] as int,
                cursor as int,
                *source,
                k,
            ),
{
    let ghost keys = snapshot_keys(source.children@);
    let ghost first = all@;
    let ghost first_sources = sources@;
    let mut counts: KeyCounts = KeyCounts { counts: TextMap::new() };
    let mut children: Vec<usize> = Vec::new();
    let mut k: usize = 0;
    proof {
        assert(all@.take(first.len() as int) =~= first);
        assert(sources@.take(first.len() as int) =~= first_sources);
        assert(keys.take(0) =~= Seq::empty());
    }
    while k < source.children.len()
        invariant
            k <= source.children@.len(),
            cursor < first.len(),
            first.len() == first_sources.len(),
            keys == snapshot_keys(source.children@),
            all@.len() == first.len() + k,
            all@.take(first.len() as int) == first,
            sources@.len() == all@.len(),
            sources@.take(first.len() as int) == first_sources,
            children@.len() == k,
            forall|key: NodeKey| #[trigger] counts.count(key) == occurrences(keys.take(k as int), key),
            forall|j: int|
                0 <= j < k ==> #[trigger] children@[j] == first.len() + j && *sources@[children@[j] as int]
                    == source.children@[j] && child_made(all@, children@[j] as int, cursor as int, *source, j),
        decreases source.children@.len() - k,
    {
        let child: &'a Snapshot = &source.children[k];
        let ghost before = all@;
        let ghost before_sources = sources@;
        let ghost listed = children@;
        proof {
            lemma_few(keys.take(k as int), (child.class@, child.name@));
            let next = keys.take(k + 1);
            assert(next.drop_last() =~= keys.take(k as int));
            assert(next.last() == (child.class@, child.name@));
        }
        let occurrence: u64 = counts.bump(child.class.as_str(), child.name.as_str());
        let parent_locator: Digest = all[cursor].locator;
        let at: usize = all.len();
        let root_child: usize = if cursor == 0 {
            at
        } else {
            all[cursor].root_child
        };
        let locator: Digest = occurrence_locator(
            parent_locator,
            child.class.as_str(),
            child.name.as_str(),
            occurrence,
        );
        all.push(
            PlaceNode {
                referent: child.id,
                parent: Some(cursor),
                children: Vec::new(),
                class: child.class.clone(),
                name: child.name.clone(),
                properties: child.properties.copy(),
                locator,
                root_child,
            },
        );
        sources.push(child);
        children.push(at);
        proof {
            assert(all@.take(first.len() as int) =~= first) by {
                assert forall|j: int| 0 <= j < first.len() implies all@[j] == first[j] by {
                    assert(before.take(first.len() as int)[j] == first[j]);
                }
            }
            assert(sources@.take(first.len() as int) =~= first_sources) by {
                assert forall|j: int| 0 <= j < first.len() implies sources@[j] == first_sources[j] by {
                    assert(before_sources.take(first.len() as int)[j] == first_sources[j]);
                }
            }
            assert(all@[cursor as int] == before[cursor as int]);
            assert forall|j: int| 0 <= j < k + 1 implies #[trigger] children@[j] == first.len() + j && *sources@[children@[j] as int]
                == source.children@[j] && child_made(all@, children@[j] as int, cursor as int, *source, j) by {
                if j < k {
                    assert(listed[j] == first.len() + j);
                    assert(children@[j] == listed[j]);
                    assert(all@[first.len() + j] == before[first.len() + j]);
                    assert(sources@[first.len() + j] == before_sources[first.len() + j]);
                    assert(child_made(before, first.len() + j, cursor as int, *source, j));
                }
            }
        }
        k = k + 1;
    }
    children
}

proof fn lemma_few(keys: Seq<NodeKey>, key: NodeKey)
    ensures
        occurrences(keys, key) <= keys.len(),
    decreases keys.len(),
{
    if keys.len() > 0 {
        lemma_few(keys.drop_last(), key);
    }
}

/// The instance at `at` has all its children.
spec fn children_made(all: Seq<PlaceNode>, sources: Seq<&Snapshot>, at: int) -> bool {
    &&& all[at].children@.len() == sources[at].children@.len()
    &&& forall|k: int|
        0 <= k < all[at].children@.len() ==> #[trigger] is_child(all, at, k, all[at].children@[k] as int)
            && *sources[all[at].children@[k] as int] == sources[at].children@[k]
    &&& forall|j: int, k: int| #![trigger all[at].children@[j], all[at].children@[k]]
        0 <= j < k < all[at].children@.len() ==> all[at].children@[j] < all[at].children@[k]
}

/// The instance at `at` agrees with its parent.
spec fn hung(all: Seq<PlaceNode>, at: int) -> bool {
    &&& match all[at].parent {
        None => at == 0 && all[at].locator == root_locator() && all[at].root_child == 0,
        Some(parent) => 0 < at && parent < at && all[at].root_child == (if parent == 0 {
            at
        } else {
            all[parent as int].root_child as int
        }) && all[parent as int].children@.contains(at as usize),
    }
    &&& all[at].root_child <= at
}

proof fn lemma_stands_for(all: Seq<PlaceNode>, sources: Seq<&Snapshot>, at: int)
    requires
        all.len() == sources.len(),
        0 <= at < all.len(),
        forall|k: int| 0 <= k < all.len() ==> #[trigger] made_of(all[k], *sources[k]),
        forall|k: int| 0 <= k < all.len() ==> #[trigger] children_made(all, sources, k),
    ensures
        stands_for(all, at, sources[at].node()),
    decreases all.len() - at,
{
    let node = sources[at].node();
    lemma_children(*sources[at]);
    assert(made_of(all[at], *sources[at]));
    assert(children_made(all, sources, at));
    assert forall|k: int| 0 <= k < node.children.len() implies stands_for(
        all,
        all[at].children@[k] as int,
        #[trigger] node.children[k],
    ) by {
        let child = all[at].children@[k] as int;
        assert(is_child(all, at, k, child));
        lemma_stands_for(all, sources, child);
    }
}

/// Lays the instances of a snapshot out level by level.
fn lay_out(root: &Snapshot) -> (all: Vec<PlaceNode>)
    ensures
        shaped(all@),
        stands_for(all@, 0, root.node()),
{
    let mut text: Vec<u8> = Vec::new();
    push_text(&mut text, "carbon-place-diff-root-v1");
    proof {
        assert(text@ =~= text_bytes("carbon-place-diff-root-v1"@));
    }
    let mut all: Vec<PlaceNode> = Vec::new();
    all.push(
        PlaceNode {
            referent: root.id,
            parent: None,
            children: Vec::new(),
            class: root.class.clone(),
            name: root.name.clone(),
            properties: root.properties.copy(),
            locator: blake3_digest(text.as_slice()),
            root_child: 0,
        },
    );
    let mut sources: Vec<&Snapshot> = Vec::new();
    sources.push(root);
    let mut cursor: usize = 0;
    while cursor < all.len()
        invariant
            cursor <= all@.len(),
            0 < all@.len() <= usize::MAX,
            all@.len() == sources@.len(),
            *sources@[0] == *root,
            forall|k: int| 0 <= k < all@.len() ==> #[trigger] made_of(all@[k], *sources@[k]),
            forall|k: int| 0 <= k < all@.len() ==> #[trigger] hung(all@, k),
            forall|k: int| 0 <= k < cursor ==> #[trigger] children_made(all@, sources@, k),
            forall|k: int| cursor <= k < all@.len() ==> (#[trigger] all@[k]).children@.len() == 0,
        decreases weights(views(sources@.skip(cursor as int))),
    {
        let ghost before = all@;
        let ghost before_sources = sources@;
        let source: &Snapshot = sources[cursor];
        let children: Vec<usize> = push_children(source, cursor, &mut all, &mut sources);
        let ghost grown = all@;
        let ghost listed = children@;
        let total: usize = all.len();
        proof {
            assert forall|k: int| 0 <= k < before.len() implies #[trigger] grown[k] == before[k] && sources@[k]
                == before_sources[k] by {
                assert(grown.take(before.len() as int)[k] == before[k]);
                assert(sources@.take(before.len() as int)[k] == before_sources[k]);
            }
        }
        let node: &mut PlaceNode = &mut all[cursor];
        node.children = children;
        proof {
            let now = all@;
            assert(now[cursor as int].children@ == listed);
            assert forall|k: int| 0 <= k < grown.len() && k != cursor implies #[trigger] now[k] == grown[k] by {}
            lemma_step(before, before_sources, grown, now, sources@, cursor as int);
            let rest = before_sources.skip(cursor as int);
            let new = sources@.skip(before.len() as int);
            lemma_children(*source);
            assert(views(rest)[0] == source.node());
            lemma_weights_first(views(rest));
            assert(views(rest).skip(1) =~= views(before_sources.skip(cursor + 1)));
            assert(new.len() == source.children@.len());
            assert forall|k: int| 0 <= k < new.len() implies views(new)[k] == source.node().children[k] by {
                assert(listed[k] == before.len() + k);
            }
            assert(views(new) =~= source.node().children);
            assert(views(sources@.skip(cursor + 1)) =~= views(before_sources.skip(cursor + 1)) + views(new)) by {
                assert forall|k: int| 0 <= k < sources@.len() - cursor - 1 implies #[trigger] views(
                    sources@.skip(cursor + 1),
                )[k] == (views(before_sources.skip(cursor + 1)) + views(new))[k] by {
                    if k + cursor + 1 < before.len() {
                        assert(grown[k + cursor + 1] == before[k + cursor + 1]);
                    }
                }
            }
            lemma_weights_concat(views(before_sources.skip(cursor + 1)), views(new));
        }
        cursor = cursor + 1;
    }
    proof {
        lemma_stands_for(all@, sources@, 0);
        assert forall|at: int| 0 <= at < all@.len() implies #[trigger] placed(all@, at) by {
            assert(hung(all@, at));
            assert(children_made(all@, sources@, at));
        }
        assert forall|at: int| 0 < at < all@.len() implies (#[trigger] all@[at]).parent is Some
            && all@[all@[at].parent->0 as int].children@.contains(at as usize) by {
            assert(hung(all@, at));
        }
    }
    all
}

spec fn views(list: Seq<&Snapshot>) -> Seq<NodeView> {
    list.map_values(|snapshot: &Snapshot| snapshot.node())
}

proof fn lemma_step(
    before: Seq<PlaceNode>,
    before_sources: Seq<&Snapshot>,
    grown: Seq<PlaceNode>,
    now: Seq<PlaceNode>,
    sources: Seq<&Snapshot>,
    cursor: int,
)
    requires
        0 <= cursor < before.len() <= grown.len() == now.len() == sources.len(),
        before.len() == before_sources.len(),
        grown.len() <= usize::MAX,
        grown.len() == before.len() + before_sources[cursor].children@.len(),
        forall|k: int|
            0 <= k < before.len() ==> #[trigger] grown[k] == before[k] && sources[k] == before_sources[k],
        forall|k: int| 0 <= k < grown.len() && k != cursor ==> #[trigger] now[k] == grown[k],
        now[cursor] == (PlaceNode { children: now[cursor].children, ..grown[cursor] }),
        now[cursor].children@.len() == before_sources[cursor].children@.len(),
        forall|k: int|
            0 <= k < now[cursor].children@.len() ==> #[trigger] now[cursor].children@[k] == before.len() + k
                && *sources[now[cursor].children@[k] as int] == before_sources[cursor].children@[k] && child_made(
                grown,
                now[cursor].children@[k] as int,
                cursor,
                *before_sources[cursor],
                k,
            ),
        forall|k: int| 0 <= k < before.len() ==> #[trigger] made_of(before[k], *before_sources[k]),
        forall|k: int| 0 <= k < before.len() ==> #[trigger] hung(before, k),
        forall|k: int| 0 <= k < cursor ==> #[trigger] children_made(before, before_sources, k),
        forall|k: int| cursor <= k < before.len() ==> (#[trigger] before[k]).children@.len() == 0,
    ensures
        forall|k: int| 0 <= k < now.len() ==> #[trigger] made_of(now[k], *sources[k]),
        forall|k: int| 0 <= k < now.len() ==> #[trigger] hung(now, k),
        forall|k: int| 0 <= k < cursor + 1 ==> #[trigger] children_made(now, sources, k),
        forall|k: int| cursor + 1 <= k < now.len() ==> (#[trigger] now[k]).children@.len() == 0,
{
    let listed = now[cursor].children@;
    assert forall|k: int| before.len() <= k < now.len() implies #[trigger] child_made(
        grown,
        k,
        cursor,
        *before_sources[cursor],
        k - before.len(),
    ) && *sources[k] == before_sources[cursor].children@[k - before.len()] by {
        assert(listed[k - before.len()] == k);
    }
    assert forall|k: int| 0 <= k < now.len() implies #[trigger] made_of(now[k], *sources[k]) by {
        if k < before.len() {
            assert(grown[k] == before[k]);
            assert(made_of(before[k], *before_sources[k]));
        } else {
            assert(child_made(grown, k, cursor, *before_sources[cursor], k - before.len()));
        }
    }
    assert forall|k: int| 0 <= k < now.len() implies #[trigger] hung(now, k) by {
        if k < before.len() {
            assert(grown[k] == before[k]);
            assert(hung(before, k));
            if before[k].parent is Some {
                let parent = before[k].parent->0 as int;
                assert(grown[parent] == before[parent]);
                assert(before[parent].children@.contains(k as usize));
                assert(parent != cursor);
            }
        } else {
            assert(child_made(grown, k, cursor, *before_sources[cursor], k - before.len()));
            assert(grown[cursor] == before[cursor]);
            assert(hung(before, cursor));
            assert(listed[k - before.len()] == k);
            assert(listed.contains(k as usize));
        }
    }
    assert forall|k: int| 0 <= k < cursor + 1 implies #[trigger] children_made(now, sources, k) by {
        assert(grown[k] == before[k]);
        let own = now[k].children@;
        if k < cursor {
            assert(children_made(before, before_sources, k));
            assert forall|j: int| 0 <= j < own.len() implies #[trigger] is_child(now, k, j, own[j] as int)
                && *sources[own[j] as int] == sources[k].children@[j] by {
                assert(is_child(before, k, j, own[j] as int));
                assert(grown[own[j] as int] == before[own[j] as int]);
                assert(keys_at(now, own.take(j)) =~= keys_at(before, own.take(j))) by {
                    assert forall|i: int| 0 <= i < j implies key_at(now, #[trigger] own[i] as int) == key_at(
                        before,
                        own[i] as int,
                    ) by {
                        assert(is_child(before, k, i, own[i] as int));
                        assert(grown[own[i] as int] == before[own[i] as int]);
                    }
                }
            }
        } else {
            assert forall|j: int| 0 <= j < own.len() implies #[trigger] is_child(now, k, j, own[j] as int)
                && *sources[own[j] as int] == sources[k].children@[j] by {
                assert(own[j] == before.len() + j);
                assert(child_made(grown, own[j] as int, cursor, *before_sources[cursor], j));
                assert(keys_at(now, own.take(j)) =~= snapshot_keys(before_sources[cursor].children@).take(j)) by {
                    assert forall|i: int| 0 <= i < j implies key_at(now, #[trigger] own[i] as int)
                        == snapshot_keys(before_sources[cursor].children@)[i] by {
                        assert(own[i] == before.len() + i);
                        assert(child_made(grown, own[i] as int, cursor, *before_sources[cursor], i));
                    }
                }
            }
            assert forall|i: int, j: int| 0 <= i < j < own.len() implies own[i] < own[j] by {
                assert(own[i] == before.len() + i);
                assert(own[j] == before.len() + j);
            }
        }
    }
    assert forall|k: int| cursor + 1 <= k < now.len() implies (#[trigger] now[k]).children@.len() == 0 by {
        if k < before.len() {
            assert(grown[k] == before[k]);
        } else {
            assert(child_made(grown, k, cursor, *before_sources[cursor], k - before.len()));
        }
    }
}


// ---------------------------------------------------------------------------
// Instances that Studio made for its own use

/// What a candidate for an instance of Studio looks like.
#[derive(Clone, Copy, Debug, PartialEq, Eq, Structural)]
pub enum StudioRuntimeCandidateKind {
    FilteredSelection,
    InsertionHash,
}

/// Instances that look like those that Studio makes for its own use.
pub open spec fn candidate_kind(all: Seq<PlaceNode>, at: int) -> Option<StudioRuntimeCandidateKind> {
    let node = all[at];
    if at == node.root_child && node.class@ == "Instance"@ && node.name@ == "FilteredSelection"@
        && node.children@.len() == 0 {
        Some(StudioRuntimeCandidateKind::FilteredSelection)
    } else if node.class@ == "StringValue"@ && node.name@ == "InsertionHash"@ && node.children@.len() == 0 && (
    node.parent matches Some(parent) && all[parent as int].class@ == "InsertService"@) {
        Some(StudioRuntimeCandidateKind::InsertionHash)
    } else {
        None
    }
}

/// The name that a candidate has.
pub open spec fn candidate_name(kind: StudioRuntimeCandidateKind) -> Seq<char> {
    match kind {
        StudioRuntimeCandidateKind::FilteredSelection => "FilteredSelection"@,
        StudioRuntimeCandidateKind::InsertionHash => "InsertionHash"@,
    }
}

/// A property that an instance of Studio has too.
pub open spec fn candidate_property(
    reflection: Reflection,
    kind: StudioRuntimeCandidateKind,
    name: Seq<char>,
    value: VariantView,
) -> bool {
    ||| name == "Archivable"@
    ||| unique_property(name, value)
    ||| name == "Name"@ && value == VariantView::String(candidate_name(kind))
    ||| kind == StudioRuntimeCandidateKind::InsertionHash && name == "Value"@ && (value matches VariantView::String(
        text,
    ) && braced_uuid(text))
    ||| (reflection.default_of("Instance"@, name) matches Some(default) && values_equal(default, value))
    ||| forward_default(name, value)
}

/// An instance that carries an identity of the manifest.
pub open spec fn carries_identity(properties: Map<Seq<char>, VariantView>, attribute: Seq<char>) -> bool {
    properties.dom().contains("Attributes"@) && !unique_property("Attributes"@, properties["Attributes"@]) && (
    properties["Attributes"@] matches VariantView::Attributes(attributes) && attributes.dom().contains(attribute))
}

/// An instance that Studio made for its own use.
pub open spec fn runtime_root(
    all: Seq<PlaceNode>,
    attribute: Seq<char>,
    managed: bool,
    reflection: Reflection,
    at: int,
) -> bool {
    let properties = all[at].properties.deep();
    match candidate_kind(all, at) {
        None => false,
        Some(kind) => {
            &&& !carries_identity(properties, attribute)
            &&& forall|name: Seq<char>| #[trigger]
                properties.dom().contains(name) ==> candidate_property(reflection, kind, name, properties[name])
            &&& match kind {
                StudioRuntimeCandidateKind::FilteredSelection => managed || (properties.dom().contains("Archivable"@)
                    && properties["Archivable"@] == bool_value(false)),
                StudioRuntimeCandidateKind::InsertionHash => managed,
            }
        },
    }
}

fn is_candidate_property(
    reflection: &Reflection,
    kind: StudioRuntimeCandidateKind,
    name: &str,
    value: &Variant,
) -> (fits: bool)
    ensures
        fits == candidate_property(*reflection, kind, name@, value@),
{
    let text: Option<&String> = match value {
        Variant::String(text) => Some(text),
        _ => None,
    };
    let named: bool = match (kind, text) {
        (StudioRuntimeCandidateKind::FilteredSelection, Some(text)) => text.as_str().eq("FilteredSelection"),
        (StudioRuntimeCandidateKind::InsertionHash, Some(text)) => text.as_str().eq("InsertionHash"),
        _ => false,
    };
    let hash: bool = match (kind, text) {
        (StudioRuntimeCandidateKind::InsertionHash, Some(text)) => is_braced_uuid(text.as_str()),
        _ => false,
    };
    let engine: bool = match reflection.reflection_default("Instance", name) {
        Some(default) => are_values_equal(default, value),
        None => false,
    };
    name.eq("Archivable") || is_unique_property(name, value) || (name.eq("Name") && named) || (name.eq("Value")
        && hash) || engine || is_forward_instance_default(name, value)
}

fn all_candidate_properties(reflection: &Reflection, kind: StudioRuntimeCandidateKind, properties: &Properties) -> (fit:
    bool)
    ensures
        fit == forall|name: Seq<char>| #[trigger]
            properties.deep().dom().contains(name) ==> candidate_property(
                *reflection,
                kind,
                name,
                properties.deep()[name],
            ),
{
    let len: usize = properties.len();
    proof {
        assert(properties.deep().dom() =~= properties@.dom());
    }
    let mut at: usize = 0;
    while at < len
        invariant
            at <= len,
            len == properties.keys().len(),
            properties.listed(),
            properties.deep().dom() == properties@.dom(),
            forall|k: int|
                0 <= k < at ==> candidate_property(
                    *reflection,
                    kind,
                    #[trigger] properties.keys()[k],
                    properties.deep()[properties.keys()[k]],
                ),
        decreases len - at,
    {
        let fits: bool = is_candidate_property(
            reflection,
            kind,
            properties.key_at(at).as_str(),
            properties.value_at(at),
        );
        proof {
            let name = properties.keys()[at as int];
            assert(properties.keys().contains(name));
            assert(properties.keys().to_set().contains(name));
            assert(properties.deep().dom().contains(name));
            assert(properties.deep()[name] == properties@[name]@);
        }
        if !fits {
            return false;
        }
        at = at + 1;
    }
    proof {
        assert forall|name: Seq<char>| #[trigger] properties.deep().dom().contains(name) implies candidate_property(
            *reflection,
            kind,
            name,
            properties.deep()[name],
        ) by {
            assert(properties.keys().to_set().contains(name));
            let k = properties.keys().index_of(name);
            assert(properties.keys()[k] == name);
        }
    }
    true
}

/// The value of a property, where it is there.
pub open spec fn property_of(properties: Map<Seq<char>, VariantView>, name: Seq<char>) -> Option<VariantView> {
    if properties.dom().contains(name) {
        Some(properties[name])
    } else {
        None
    }
}

/// What an optional value stands for.
pub open spec fn value_view(value: Option<&Variant>) -> Option<VariantView> {
    match value {
        Some(value) => Some(value@),
        None => None,
    }
}

/// The value of a property, where it is there.
pub fn find_property<'a>(properties: &'a Properties, name: &str) -> (value: Option<&'a Variant>)
    ensures
        value_view(value) == property_of(properties.deep(), name@),
{
    proof {
        assert(properties.deep().dom() =~= properties@.dom());
    }
    properties.get(name)
}

fn is_runtime_root(
    all: &Vec<PlaceNode>,
    attribute: &str,
    managed: bool,
    reflection: &Reflection,
    at: usize,
) -> (runtime: bool)
    requires
        shaped(all@),
        at < all@.len(),
    ensures
        runtime == runtime_root(all@, attribute@, managed, *reflection, at as int),
{
    proof {
        assert(placed(all@, at as int));
    }
    let node: &PlaceNode = &all[at];
    let inserted: bool = match node.parent {
        Some(parent) => all[parent].class.as_str().eq("InsertService"),
        None => false,
    };
    let kind: StudioRuntimeCandidateKind = if at == node.root_child && node.class.as_str().eq("Instance")
        && node.name.as_str().eq("FilteredSelection") && node.children.len() == 0 {
        StudioRuntimeCandidateKind::FilteredSelection
    } else if node.class.as_str().eq("StringValue") && node.name.as_str().eq("InsertionHash") && node.children.len()
        == 0 && inserted {
        StudioRuntimeCandidateKind::InsertionHash
    } else {
        return false;
    };
    let identity: bool = match find_property(&node.properties, "Attributes") {
        Some(value) => {
            let carried: bool = match value {
                Variant::Attributes(attributes) => {
                    proof {
                        assert(attributes.deep().dom() =~= attributes@.dom());
                    }
                    attributes.contains_key(attribute)
                },
                _ => false,
            };
            !is_unique_property("Attributes", value) && carried
        },
        None => false,
    };
    let archived: bool = match find_property(&node.properties, "Archivable") {
        Some(value) => value.same(&Variant::boolean(false)),
        None => false,
    };
    let proven: bool = match kind {
        StudioRuntimeCandidateKind::FilteredSelection => managed || archived,
        StudioRuntimeCandidateKind::InsertionHash => managed,
    };
    !identity && proven && all_candidate_properties(reflection, kind, &node.properties)
}

/// Attributes of an instance that are those of a managed worktree.
pub open spec fn holds_contract(properties: Map<Seq<char>, VariantView>) -> bool {
    exists|name: Seq<char>| #[trigger]
        properties.dom().contains(name) && (properties[name] matches VariantView::Attributes(attributes)
            && worktree_contract(attributes))
}

/// The place is the worktree of a session.
pub open spec fn managed_place(all: Seq<PlaceNode>) -> bool {
    exists|at: int|
        0 <= at < all.len() && (#[trigger] all[at]).class@ == "Workspace"@ && holds_contract(
            all[at].properties.deep(),
        )
}

fn has_contract(properties: &Properties) -> (holds: bool)
    ensures
        holds == holds_contract(properties.deep()),
{
    let len: usize = properties.len();
    proof {
        assert(properties.deep().dom() =~= properties@.dom());
    }
    let mut at: usize = 0;
    while at < len
        invariant
            at <= len,
            len == properties.keys().len(),
            properties.listed(),
            properties.deep().dom() == properties@.dom(),
            forall|k: int|
                0 <= k < at ==> !(properties.deep()[#[trigger] properties.keys()[k]] matches VariantView::Attributes(
                    attributes,
                ) && worktree_contract(attributes)),
        decreases len - at,
    {
        proof {
            let name = properties.keys()[at as int];
            assert(properties.keys().contains(name));
            assert(properties.keys().to_set().contains(name));
            assert(properties.deep().dom().contains(name));
            assert(properties.deep()[name] == properties@[name]@);
        }
        match properties.value_at(at) {
            Variant::Attributes(attributes) => {
                if has_managed_worktree_contract(attributes) {
                    return true;
                }
            },
            _ => {},
        }
        at = at + 1;
    }
    proof {
        if holds_contract(properties.deep()) {
            let name = choose|name: Seq<char>| #[trigger]
                properties.deep().dom().contains(name) && (properties.deep()[name] matches VariantView::Attributes(
                    attributes,
                ) && worktree_contract(attributes));
            assert(properties.keys().to_set().contains(name));
            let k = properties.keys().index_of(name);
            assert(properties.keys()[k] == name);
        }
    }
    false
}

fn is_managed_place(all: &Vec<PlaceNode>) -> (managed: bool)
    ensures
        managed == managed_place(all@),
{
    let mut at: usize = 0;
    while at < all.len()
        invariant
            at <= all@.len(),
            forall|k: int|
                0 <= k < at ==> !((#[trigger] all@[k]).class@ == "Workspace"@ && holds_contract(
                    all@[k].properties.deep(),
                )),
        decreases all@.len() - at,
    {
        if all[at].class.as_str().eq("Workspace") && has_contract(&all[at].properties) {
            return true;
        }
        at = at + 1;
    }
    false
}

// ---------------------------------------------------------------------------
// The structure of a place

/// Where an instance with a referent stands. Of several the last counts.
pub open spec fn ref_place(all: Seq<PlaceNode>, id: Ref) -> Option<int>
    decreases all.len(),
{
    if all.len() == 0 {
        None
    } else if all.last().referent == id {
        Some(all.len() - 1)
    } else {
        ref_place(all.drop_last(), id)
    }
}

/// The table says where the instances stand.
pub open spec fn finds(by_ref: Map<u128, usize>, all: Seq<PlaceNode>) -> bool {
    forall|id: Ref|
        match #[trigger] ref_place(all, id) {
            Some(at) => by_ref.dom().contains(id) && by_ref[id] == at && 0 <= at < all.len(),
            None => !by_ref.dom().contains(id),
        }
}

impl PlaceStructure {
    pub open spec fn wf(self) -> bool {
        &&& shaped(self.nodes@)
        &&& finds(self.by_ref@, self.nodes@)
        &&& self.managed_worktree == managed_place(self.nodes@)
        &&& self.studio_runtime_roots@.len() == self.nodes@.len()
    }

    /// The marks of the instances that Studio made follow from what they look
    /// like.
    pub open spec fn marked(self, reflection: Reflection) -> bool {
        forall|at: int|
            0 <= at < self.nodes@.len() ==> #[trigger] self.studio_runtime_roots@[at] == runtime_root(
                self.nodes@,
                self.identity_attribute@,
                self.managed_worktree,
                reflection,
                at,
            )
    }

    /// Reads the structure of a place out of its instances.
    pub fn load(
        path: String,
        root: &Snapshot,
        metadata: TextMap<String>,
        identity_attribute: String,
        clock_agrees: HashSet<u128>,
        reflection: &Reflection,
    ) -> (place: PlaceStructure)
        ensures
            place.wf(),
            place.marked(*reflection),
            stands_for(place.nodes@, 0, root.node()),
            place.path == path,
            place.metadata == metadata,
            place.identity_attribute == identity_attribute,
            place.clock_agrees == clock_agrees,
    {
        let nodes: Vec<PlaceNode> = lay_out(root);
        let mut by_ref: HashMap<u128, usize> = HashMap::new();
        let mut at: usize = 0;
        while at < nodes.len()
            invariant
                at <= nodes@.len(),
                finds(by_ref@, nodes@.take(at as int)),
            decreases nodes@.len() - at,
        {
            let ghost before = by_ref@;
            by_ref.insert(nodes[at].referent, at);
            proof {
                let next = nodes@.take(at + 1);
                assert(next.drop_last() =~= nodes@.take(at as int));
                assert forall|id: Ref|
                    match #[trigger] ref_place(next, id) {
                        Some(place) => by_ref@.dom().contains(id) && by_ref@[id] == place && 0 <= place < next.len(),
                        None => !by_ref@.dom().contains(id),
                    } by {
                    let _ = ref_place(nodes@.take(at as int), id);
                    assert(next.last() == nodes@[at as int]);
                }
            }
            at = at + 1;
        }
        proof {
            assert(nodes@.take(nodes@.len() as int) =~= nodes@);
        }
        let managed_worktree: bool = is_managed_place(&nodes);
        let mut studio_runtime_roots: Vec<bool> = Vec::new();
        let mut next: usize = 0;
        while next < nodes.len()
            invariant
                next <= nodes@.len(),
                shaped(nodes@),
                studio_runtime_roots@.len() == next,
                forall|k: int|
                    0 <= k < next ==> #[trigger] studio_runtime_roots@[k] == runtime_root(
                        nodes@,
                        identity_attribute@,
                        managed_worktree,
                        *reflection,
                        k,
                    ),
            decreases nodes@.len() - next,
        {
            studio_runtime_roots.push(
                is_runtime_root(&nodes, identity_attribute.as_str(), managed_worktree, reflection, next),
            );
            next = next + 1;
        }
        PlaceStructure {
            path,
            nodes,
            by_ref,
            metadata,
            identity_attribute,
            managed_worktree,
            studio_runtime_roots,
            clock_agrees,
        }
    }
}

// ---------------------------------------------------------------------------
// Paths, sizes and ancestors

/// The path of an instance as a reader sees it.
pub open spec fn path_of(all: Seq<PlaceNode>, at: int) -> Seq<char>
    decreases at,
{
    match all[at].parent {
        Some(parent) => if parent < at {
            path_of(all, parent as int) + "/"@ + all[at].class@ + "["@ + quoted_text(all[at].name@) + "]"@
        } else {
            "game"@
        },
        None => "game"@,
    }
}

/// The number of instances at and below an instance.
pub open spec fn size_of(all: Seq<PlaceNode>, at: int) -> nat
    decreases all.len() - at, 1nat, 0nat,
    when 0 <= at < all.len()
{
    1 + sizes_of(all, at, all[at].children@)
}

pub open spec fn sizes_of(all: Seq<PlaceNode>, above: int, list: Seq<usize>) -> nat
    decreases all.len() - above, 0nat, list.len(),
    when 0 <= above < all.len()
{
    if list.len() == 0 {
        0
    } else if above < list.last() < all.len() {
        sizes_of(all, above, list.drop_last()) + size_of(all, list.last() as int)
    } else {
        0
    }
}

/// A number as far as the machine can hold it.
pub open spec fn held(number: nat) -> usize {
    if number <= usize::MAX {
        number as usize
    } else {
        usize::MAX
    }
}

/// An instance or one of its ancestors was made by Studio for its own use.
pub open spec fn runtime_above(roots: Seq<bool>, all: Seq<PlaceNode>, at: int) -> bool
    decreases at,
{
    roots[at] || match all[at].parent {
        Some(parent) => parent < at && runtime_above(roots, all, parent as int),
        None => false,
    }
}

/// The services that hold nothing that a game sees.
pub open spec fn studio_service(class: Seq<char>) -> bool {
    ||| class == "CoreGui"@
    ||| class == "MemStorageService"@
    ||| class == "PluginConnectionService"@
    ||| class == "PluginGuiService"@
    ||| class == "VisualizationModeService"@
}

impl PlaceStructure {
    /// An instance is part of the runtime of Studio.
    pub open spec fn runtime(self, at: int) -> bool {
        let root = self.nodes@[self.nodes@[at].root_child as int];
        ||| root.name@ == root.class@ && studio_service(root.class@)
        ||| runtime_above(self.studio_runtime_roots@, self.nodes@, at)
    }

    /// The path of an instance as a reader sees it.
    pub fn display_path(&self, index: usize) -> (path: String)
        requires
            self.wf(),
            index < self.nodes@.len(),
        ensures
            path@ == path_of(self.nodes@, index as int),
        decreases index,
    {
        proof {
            assert(placed(self.nodes@, index as int));
        }
        match self.nodes[index].parent {
            None => "game".to_owned(),
            Some(parent) => {
                let mut path: String = self.display_path(parent);
                path.append("/");
                path.append(self.nodes[index].class.as_str());
                path.append("[");
                path.append(quoted(self.nodes[index].name.as_str()).as_str());
                path.append("]");
                path
            },
        }
    }

    /// The number of instances at and below an instance.
    pub fn subtree_size(&self, root: usize) -> (size: usize)
        requires
            self.wf(),
            root < self.nodes@.len(),
        ensures
            size == held(size_of(self.nodes@, root as int)),
        decreases self.nodes@.len() - root,
    {
        let mut size: usize = 1;
        let ghost all = self.nodes@;
        let ghost list = all[root as int].children@;
        let mut k: usize = 0;
        proof {
            assert(list.take(0) =~= Seq::empty());
        }
        while k < self.nodes[root].children.len()
            invariant
                self.wf(),
                all == self.nodes@,
                root < all.len(),
                list == all[root as int].children@,
                k <= list.len(),
                size == held(1 + sizes_of(all, root as int, list.take(k as int))),
            decreases list.len() - k,
        {
            proof {
                assert(placed(all, root as int));
                assert(is_child(all, root as int, k as int, list[k as int] as int));
                assert(list.take(k + 1).drop_last() =~= list.take(k as int));
            }
            let below: usize = self.subtree_size(self.nodes[root].children[k]);
            size = size.saturating_add(below);
            k = k + 1;
        }
        proof {
            assert(list.take(list.len() as int) =~= list);
        }
        size
    }

    fn is_runtime_above(&self, at: usize) -> (runtime: bool)
        requires
            self.wf(),
            at < self.nodes@.len(),
        ensures
            runtime == runtime_above(self.studio_runtime_roots@, self.nodes@, at as int),
        decreases at,
    {
        if self.studio_runtime_roots[at] {
            return true;
        }
        proof {
            assert(placed(self.nodes@, at as int));
        }
        match self.nodes[at].parent {
            Some(parent) => self.is_runtime_above(parent),
            None => false,
        }
    }

    /// Whether an instance is part of the runtime of Studio.
    pub fn is_studio_runtime_subtree(&self, index: usize) -> (runtime: bool)
        requires
            self.wf(),
            index < self.nodes@.len(),
        ensures
            runtime == self.runtime(index as int),
    {
        proof {
            assert(placed(self.nodes@, index as int));
        }
        let root: &PlaceNode = &self.nodes[self.nodes[index].root_child];
        let class: &str = root.class.as_str();
        if root.name.as_str().eq(class) && (class.eq("CoreGui") || class.eq("MemStorageService") || class.eq(
            "PluginConnectionService",
        ) || class.eq("PluginGuiService") || class.eq("VisualizationModeService")) {
            return true;
        }
        self.is_runtime_above(index)
    }

    /// Where an instance stands.
    pub open spec fn place_of(self, id: Ref) -> Option<int> {
        ref_place(self.nodes@, id)
    }

    pub(crate) fn find(&self, id: Ref) -> (place: Option<usize>)
        requires
            self.wf(),
        ensures
            match self.place_of(id) {
                Some(at) => place matches Some(found) && found == at && at < self.nodes@.len(),
                None => place is None,
            },
    {
        match self.by_ref.get(&id) {
            Some(at) => Some(*at),
            None => None,
        }
    }
}

} // verus!
