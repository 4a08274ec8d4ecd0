//! Matching the nodes of a capture to the nodes of the previous manifest.
//!
//! A capture names its nodes by random identities. A node keeps the identity of
//! a removed one where structural evidence selects exactly one; every other node
//! gets an identity that was never used.

use crate::capture_laws::{changes_follow, lemma_outcome_follows};
use crate::hashing::{blake3_digest, blake3_hash, digest_bytes, push_digest, push_text, Digest};
use crate::hierarchy::{
    flat, flat_id_set, flat_ids, flat_list, flat_views, flatten_into, flatten_snapshot, ids, index_flat, indexes,
    lemma_position, lemma_positions, lemma_taken_set, position, positions, FlatNode,
};
use crate::manifest_identity::{be_bytes, push_be, IdentityError, ManifestIdentityAllocator};
use crate::snapshot::{
    additions_view, lemma_children, nodes, same_raw, AddedSnapshot, AdditionView, Changes, ChangesView, NodeView,
    Snapshot, UpdateView, UpdatedSnapshot,
};
use crate::text::{decimal, decimal_text, joined, push_bytes, text_bytes, texts};
use crate::text_map::{lemma_listed_keys, ordered_keys, TextMap};
use crate::variant::{AttributeValue, AttributeView, Properties, Variant, VariantView};
use crate::Ref;
use std::collections::{HashMap, HashSet};
use vstd::prelude::*;
use vstd::string::StringSliceAdditionalSpecFns;

verus! {

broadcast use vstd::std_specs::hash::group_hash_axioms;

// ---------------------------------------------------------------------------
// The text of a node that its digest is taken of

/// A byte string after its length.
pub open spec fn framed(bytes: Seq<u8>) -> Seq<u8> {
    be_bytes(bytes.len(), 8) + bytes
}

pub(crate) fn push_framed(out: &mut Vec<u8>, bytes: &[u8])
    ensures
        final(out)@ == old(out)@ + framed(bytes@),
{
    push_be(out, bytes.len() as u128, 8);
    push_bytes(out, bytes);
    proof {
        assert(out@ =~= old(out)@ + framed(bytes@));
    }
}

/// An attribute value as bytes.
pub open spec fn attribute_text(value: AttributeView) -> Seq<u8> {
    match value {
        AttributeView::String(text) => framed(text_bytes("String"@)) + framed(text_bytes(text)),
        AttributeView::BinaryString(bytes) => framed(text_bytes("BinaryString"@)) + framed(bytes),
        AttributeView::Opaque { kind, bytes } => framed(text_bytes(kind)) + framed(bytes),
    }
}

fn push_attribute(out: &mut Vec<u8>, value: &AttributeValue)
    ensures
        final(out)@ == old(out)@ + attribute_text(value@),
{
    match value {
        AttributeValue::String(text) => {
            push_framed(out, "String".as_bytes());
            push_framed(out, text.as_str().as_bytes());
        },
        AttributeValue::BinaryString(bytes) => {
            push_framed(out, "BinaryString".as_bytes());
            push_framed(out, bytes.as_slice());
        },
        AttributeValue::Opaque { kind, bytes } => {
            push_framed(out, kind.as_str().as_bytes());
            push_framed(out, bytes.as_slice());
        },
    }
    proof {
        assert(out@ =~= old(out)@ + attribute_text(value@));
    }
}

/// The attributes of the listed names as bytes.
pub open spec fn attributes_text(values: Map<Seq<char>, AttributeView>, names: Seq<Seq<char>>) -> Seq<u8>
    decreases names.len(),
{
    if names.len() == 0 {
        Seq::empty()
    } else {
        attributes_text(values, names.drop_last()) + framed(text_bytes(names.last())) + attribute_text(
            values[names.last()],
        )
    }
}

pub(crate) fn push_attributes(out: &mut Vec<u8>, values: &TextMap<AttributeValue>)
    ensures
        final(out)@ == old(out)@ + attributes_text(values.deep(), ordered_keys(values.deep().dom())),
{
    let len: usize = values.len();
    let ghost names = values.keys();
    proof {
        lemma_listed_keys(*values);
        assert(values.deep().dom() =~= values@.dom());
        assert(names.take(0) =~= Seq::empty());
        assert(out@ =~= old(out)@ + attributes_text(values.deep(), names.take(0)));
    }
    let mut at: usize = 0;
    while at < len
        invariant
            at <= len,
            len == names.len(),
            names == values.keys(),
            values.listed(),
            values.deep().dom() == values@.dom(),
            out@ == old(out)@ + attributes_text(values.deep(), names.take(at as int)),
        decreases len - at,
    {
        push_framed(out, values.key_at(at).as_str().as_bytes());
        push_attribute(out, values.value_at(at));
        proof {
            let next = names.take(at + 1);
            assert(next.drop_last() =~= names.take(at as int));
            assert(names.contains(names[at as int]));
            assert(values.deep()[names[at as int]] == values@[names[at as int]]@);
            assert(out@ =~= old(out)@ + attributes_text(values.deep(), next));
        }
        at = at + 1;
    }
    proof {
        assert(names.take(len as int) =~= names);
    }
}

/// Texts as bytes.
pub open spec fn list_text(list: Seq<Seq<char>>) -> Seq<u8>
    decreases list.len(),
{
    if list.len() == 0 {
        Seq::empty()
    } else {
        list_text(list.drop_last()) + framed(text_bytes(list.last()))
    }
}

pub(crate) fn push_list(out: &mut Vec<u8>, list: &Vec<String>)
    ensures
        final(out)@ == old(out)@ + list_text(texts(list@)),
{
    let ghost all = texts(list@);
    let mut at: usize = 0;
    proof {
        assert(all.take(0) =~= Seq::empty());
        assert(out@ =~= old(out)@ + list_text(all.take(0)));
    }
    while at < list.len()
        invariant
            at <= list@.len(),
            all == texts(list@),
            out@ == old(out)@ + list_text(all.take(at as int)),
        decreases list@.len() - at,
    {
        push_framed(out, list[at].as_str().as_bytes());
        proof {
            let next = all.take(at + 1);
            assert(next.drop_last() =~= all.take(at as int));
            assert(next.last() == list@[at as int]@);
            assert(out@ =~= old(out)@ + list_text(next));
        }
        at = at + 1;
    }
    proof {
        assert(all.take(list@.len() as int) =~= all);
    }
}

/// A property value as bytes. References are alike, whatever they point to.
pub open spec fn value_text(value: VariantView) -> Seq<u8> {
    match value {
        VariantView::Ref(_) => text_bytes("instance-reference"@),
        VariantView::Object(target) => framed(text_bytes("Object"@)) + be_bytes(target as nat, 16),
        VariantView::String(text) => framed(text_bytes("String"@)) + framed(text_bytes(text)),
        VariantView::BinaryString(bytes) => framed(text_bytes("BinaryString"@)) + framed(bytes),
        VariantView::Attributes(values) => framed(text_bytes("Attributes"@)) + attributes_text(
            values,
            ordered_keys(values.dom()),
        ),
        VariantView::Tags(tags) => framed(text_bytes("Tags"@)) + list_text(tags),
        VariantView::Opaque { kind, bytes } => framed(text_bytes(kind)) + framed(bytes),
    }
}

pub(crate) fn push_value(out: &mut Vec<u8>, value: &Variant)
    ensures
        final(out)@ == old(out)@ + value_text(value@),
{
    match value {
        Variant::Ref(_) => {
            push_text(out, "instance-reference");
        },
        Variant::Object(target) => {
            push_framed(out, "Object".as_bytes());
            push_be(out, *target, 16);
        },
        Variant::String(text) => {
            push_framed(out, "String".as_bytes());
            push_framed(out, text.as_str().as_bytes());
        },
        Variant::BinaryString(bytes) => {
            push_framed(out, "BinaryString".as_bytes());
            push_framed(out, bytes.as_slice());
        },
        Variant::Attributes(values) => {
            push_framed(out, "Attributes".as_bytes());
            push_attributes(out, values);
        },
        Variant::Tags(tags) => {
            push_framed(out, "Tags".as_bytes());
            push_list(out, tags);
        },
        Variant::Opaque { kind, bytes } => {
            push_framed(out, kind.as_str().as_bytes());
            push_framed(out, bytes.as_slice());
        },
    }
    proof {
        assert(out@ =~= old(out)@ + value_text(value@));
    }
}

/// Properties that say where or when a node was made, not what it is.
pub open spec fn identity_only(property: Seq<char>) -> bool {
    property == "Name"@ || property == "Parent"@ || property == "HistoryId"@ || property == "UniqueId"@
}

/// Whether a property says where or when a node was made, not what it is.
pub fn is_capture_identity_only_property(property: &str) -> (only: bool)
    ensures
        only == identity_only(property@),
{
    property.eq("Name") || property.eq("Parent") || property.eq("HistoryId") || property.eq("UniqueId")
}

/// The properties of the listed names as bytes.
pub open spec fn properties_text(values: Map<Seq<char>, VariantView>, names: Seq<Seq<char>>) -> Seq<u8>
    decreases names.len(),
{
    if names.len() == 0 {
        Seq::empty()
    } else {
        let before = properties_text(values, names.drop_last());
        if identity_only(names.last()) {
            before
        } else {
            before + text_bytes(names.last()) + value_text(values[names.last()])
        }
    }
}

fn push_properties(out: &mut Vec<u8>, values: &Properties)
    ensures
        final(out)@ == old(out)@ + properties_text(values.deep(), ordered_keys(values.deep().dom())),
{
    let len: usize = values.len();
    let ghost names = values.keys();
    proof {
        lemma_listed_keys(*values);
        assert(values.deep().dom() =~= values@.dom());
        assert(names.take(0) =~= Seq::empty());
        assert(out@ =~= old(out)@ + properties_text(values.deep(), names.take(0)));
    }
    let mut at: usize = 0;
    while at < len
        invariant
            at <= len,
            len == names.len(),
            names == values.keys(),
            values.listed(),
            values.deep().dom() == values@.dom(),
            out@ == old(out)@ + properties_text(values.deep(), names.take(at as int)),
        decreases len - at,
    {
        if !is_capture_identity_only_property(values.key_at(at).as_str()) {
            push_text(out, values.key_at(at).as_str());
            push_value(out, values.value_at(at));
        }
        proof {
            let next = names.take(at + 1);
            assert(next.drop_last() =~= names.take(at as int));
            assert(names.contains(names[at as int]));
            assert(values.deep()[names[at as int]] == values@[names[at as int]]@);
            assert(out@ =~= old(out)@ + properties_text(values.deep(), next));
        }
        at = at + 1;
    }
    proof {
        assert(names.take(len as int) =~= names);
    }
}

// ---------------------------------------------------------------------------
// Digests in order

pub open spec fn digest_before(left: Digest, right: Digest) -> bool {
    left.0 < right.0 || (left.0 == right.0 && left.1 < right.1)
}

/// An ordered list with one digest more, after those that do not exceed it.
pub open spec fn with_digest(list: Seq<Digest>, digest: Digest) -> Seq<Digest>
    decreases list.len(),
{
    if list.len() == 0 || !digest_before(digest, list.last()) {
        list.push(digest)
    } else {
        with_digest(list.drop_last(), digest).push(list.last())
    }
}

/// The digests in order.
pub open spec fn in_order(list: Seq<Digest>) -> Seq<Digest>
    decreases list.len(),
{
    if list.len() == 0 {
        Seq::empty()
    } else {
        with_digest(in_order(list.drop_last()), list.last())
    }
}

fn insert_digest(list: &mut Vec<Digest>, digest: Digest)
    ensures
        final(list)@ == with_digest(old(list)@, digest),
{
    let mut place: usize = list.len();
    proof {
        assert(list@.take(place as int) =~= list@);
        assert(with_digest(list@, digest) + list@.skip(place as int) =~= with_digest(list@, digest));
    }
    while place > 0 && (digest.0 < list[place - 1].0 || (digest.0 == list[place - 1].0 && digest.1 < list[place
        - 1].1))
        invariant
            place <= list@.len(),
            list@ == old(list)@,
            with_digest(list@, digest) == with_digest(list@.take(place as int), digest) + list@.skip(place as int),
        decreases place,
    {
        proof {
            let taken = list@.take(place as int);
            assert(taken.drop_last() =~= list@.take(place - 1));
            assert(taken.last() == list@[place - 1]);
            assert(with_digest(taken, digest) + list@.skip(place as int) =~= with_digest(
                list@.take(place - 1),
                digest,
            ) + list@.skip(place - 1));
        }
        place = place - 1;
    }
    proof {
        let taken = list@.take(place as int);
        assert(with_digest(taken, digest) == taken.push(digest));
        assert(taken.push(digest) + list@.skip(place as int) =~= list@.insert(place as int, digest));
    }
    list.insert(place, digest);
}

/// Digests one after the other.
pub open spec fn digests_text(list: Seq<Digest>) -> Seq<u8>
    decreases list.len(),
{
    if list.len() == 0 {
        Seq::empty()
    } else {
        digests_text(list.drop_last()) + digest_bytes(list.last())
    }
}

fn push_digests(out: &mut Vec<u8>, list: &Vec<Digest>)
    ensures
        final(out)@ == old(out)@ + digests_text(list@),
{
    let mut at: usize = 0;
    proof {
        assert(list@.take(0) =~= Seq::empty());
        assert(out@ =~= old(out)@ + digests_text(list@.take(0)));
    }
    while at < list.len()
        invariant
            at <= list@.len(),
            out@ == old(out)@ + digests_text(list@.take(at as int)),
        decreases list@.len() - at,
    {
        push_digest(out, list[at]);
        proof {
            assert(list@.take(at + 1).drop_last() =~= list@.take(at as int));
            assert(out@ =~= old(out)@ + digests_text(list@.take(at + 1)));
        }
        at = at + 1;
    }
    proof {
        assert(list@.take(list@.len() as int) =~= list@);
    }
}

/// What the digest of a node is taken of: its class, its properties and the
/// digests of its children, whose order does not matter.
pub open spec fn node_text(node: NodeView, children: Seq<Digest>) -> Seq<u8> {
    text_bytes(node.class) + properties_text(node.properties, ordered_keys(node.properties.dom()))
        + digests_text(in_order(children))
}

/// The digest of a node, and the known digests with those below it. A node
/// whose identity has a digest keeps it.
pub open spec fn node_digest(node: NodeView, known: Map<Ref, Digest>) -> (Digest, Map<Ref, Digest>)
    decreases node,
{
    if known.dom().contains(node.id) {
        (known[node.id], known)
    } else {
        let below = list_digests(node.children, known);
        let digest = blake3_hash(node_text(node, below.0));
        (digest, below.1.insert(node.id, digest))
    }
}

/// The digests of siblings, and the known digests with theirs.
pub open spec fn list_digests(list: Seq<NodeView>, known: Map<Ref, Digest>) -> (Seq<Digest>, Map<Ref, Digest>)
    decreases list,
{
    if list.len() == 0 {
        (Seq::empty(), known)
    } else {
        let before = list_digests(list.drop_last(), known);
        let last = node_digest(list.last(), before.1);
        (before.0.push(last.0), last.1)
    }
}

fn normalized_digest(snapshot: &Snapshot, known: &mut HashMap<u128, Digest>) -> (digest: Digest)
    ensures
        (digest, final(known)@) == node_digest(snapshot.node(), old(known)@),
    decreases snapshot,
{
    match known.get(&snapshot.id) {
        Some(digest) => {
            return *digest;
        },
        None => {},
    }
    let ghost children = snapshot.node().children;
    let ghost mut listed: Seq<Digest> = Seq::empty();
    let mut sorted: Vec<Digest> = Vec::new();
    let mut at: usize = 0;
    proof {
        lemma_children(*snapshot);
        assert(children.take(0) =~= Seq::empty());
    }
    while at < snapshot.children.len()
        invariant
            at <= snapshot.children@.len(),
            children == snapshot.node().children,
            children.len() == snapshot.children@.len(),
            forall|k: int| 0 <= k < children.len() ==> #[trigger] children[k] == snapshot.children@[k].node(),
            (listed, known@) == list_digests(children.take(at as int), old(known)@),
            sorted@ == in_order(listed),
        decreases snapshot.children@.len() - at,
    {
        let digest: Digest = normalized_digest(&snapshot.children[at], known);
        insert_digest(&mut sorted, digest);
        proof {
            let next = children.take(at + 1);
            assert(next.drop_last() =~= children.take(at as int));
            assert(next.last() == children[at as int]);
            assert(listed.push(digest).drop_last() =~= listed);
            listed = listed.push(digest);
        }
        at = at + 1;
    }
    proof {
        assert(children.take(children.len() as int) =~= children);
    }
    let mut text: Vec<u8> = Vec::new();
    push_text(&mut text, snapshot.class.as_str());
    push_properties(&mut text, &snapshot.properties);
    push_digests(&mut text, &sorted);
    proof {
        assert(text@ =~= node_text(snapshot.node(), listed));
    }
    let digest: Digest = blake3_digest(text.as_slice());
    known.insert(snapshot.id, digest);
    digest
}

// ---------------------------------------------------------------------------
// Choosing the prior node

/// Why a capture cannot be matched.
#[derive(Debug)]
pub enum ReconcileError {
    NewDigestMissing,
    PriorDigestMissing,
    Ambiguous { location: String, candidates: usize },
    Identity(IdentityError),
}

/// Why the nodes of a capture have no matching.
#[verifier::ext_equal]
pub enum Blocker {
    NewDigestMissing,
    PriorDigestMissing,
    Ambiguous { location: Seq<char>, candidates: nat },
}

impl ReconcileError {
    /// Whether the error reports a blocker.
    pub open spec fn reports(self, blocker: Blocker) -> bool {
        match blocker {
            Blocker::NewDigestMissing => self is NewDigestMissing,
            Blocker::PriorDigestMissing => self is PriorDigestMissing,
            Blocker::Ambiguous { location, candidates } => self matches ReconcileError::Ambiguous {
                location: place,
                candidates: count,
            } && place@ == location && count == candidates,
        }
    }

    pub open spec fn text(self) -> Seq<char> {
        match self {
            ReconcileError::NewDigestMissing => "new capture identity digest is missing"@,
            ReconcileError::PriorDigestMissing => "prior capture identity digest is missing"@,
            ReconcileError::Ambiguous { location, candidates } => "identity-ambiguity blocker at "@ + location@
                + ": "@ + decimal(candidates as nat) + " prior instances could be the same object"@,
            ReconcileError::Identity(error) => error.text(),
        }
    }

    /// The text shown to a user.
    pub fn message(&self) -> (text: String)
        ensures
            text@ == self.text(),
    {
        match self {
            ReconcileError::NewDigestMissing => "new capture identity digest is missing".to_owned(),
            ReconcileError::PriorDigestMissing => "prior capture identity digest is missing".to_owned(),
            ReconcileError::Ambiguous { location, candidates } => {
                let mut text: String = joined("identity-ambiguity blocker at ", location.as_str());
                text.append(": ");
                let count: String = decimal_text(*candidates as u64);
                text.append(count.as_str());
                text.append(" prior instances could be the same object");
                text
            },
            ReconcileError::Identity(error) => error.message().to_owned(),
        }
    }
}

/// The positions as numbers without bounds.
spec fn as_ints(list: Seq<usize>) -> Seq<int> {
    list.map_values(|at: usize| at as int)
}

/// What borrowed snapshots stand for.
pub open spec fn borrowed_nodes(list: Seq<&Snapshot>) -> Seq<NodeView> {
    list.map_values(|snapshot: &Snapshot| snapshot.node())
}

/// A free node of the class.
pub open spec fn of_class(list: Seq<NodeView>, taken: Set<Ref>, class: Seq<char>) -> spec_fn(int) -> bool {
    |at: int| !taken.contains(list[at].id) && list[at].class == class
}

/// A free node of the class with the digest.
pub open spec fn of_digest(
    list: Seq<NodeView>,
    taken: Set<Ref>,
    class: Seq<char>,
    known: Map<Ref, Digest>,
    digest: Digest,
) -> spec_fn(int) -> bool {
    |at: int|
        !taken.contains(list[at].id) && list[at].class == class && known.dom().contains(list[at].id)
            && known[list[at].id] == digest
}

/// The free nodes with the same content or, where there are none, the free
/// nodes of the same class.
pub open spec fn candidates(
    list: Seq<NodeView>,
    taken: Set<Ref>,
    class: Seq<char>,
    known: Map<Ref, Digest>,
    digest: Digest,
) -> Seq<int> {
    let exact = positions(list.len(), of_digest(list, taken, class, known, digest));
    if exact.len() == 0 {
        positions(list.len(), of_class(list, taken, class))
    } else {
        exact
    }
}

/// A candidate with the name of the new node.
pub open spec fn of_name(list: Seq<NodeView>, among: Seq<int>, new: NodeView) -> spec_fn(int) -> bool {
    |k: int| list[among[k]].name == new.name && list[among[k]].raw_name == new.raw_name
}

/// The prior node that evidence selects: the only candidate, or the only one
/// with the same name. Otherwise the number of candidates.
pub open spec fn selected(
    list: Seq<NodeView>,
    taken: Set<Ref>,
    new: NodeView,
    known: Map<Ref, Digest>,
    digest: Digest,
) -> Result<Option<int>, nat> {
    let among = candidates(list, taken, new.class, known, digest);
    let named = positions(among.len(), of_name(list, among, new));
    if among.len() == 0 {
        Ok(None)
    } else if among.len() == 1 {
        Ok(Some(among[0]))
    } else if named.len() == 1 {
        Ok(Some(among[named[0]]))
    } else {
        Err(among.len())
    }
}

fn choose_prior(
    list: &Vec<&Snapshot>,
    taken: &HashSet<u128>,
    new: &Snapshot,
    known: &HashMap<u128, Digest>,
    digest: Digest,
) -> (choice: Result<Option<usize>, usize>)
    ensures
        match selected(borrowed_nodes(list@), taken@, new.node(), known@, digest) {
            Ok(Some(at)) => choice matches Ok(Some(found)) && found == at && 0 <= at < list@.len(),
            Ok(None) => choice matches Ok(None),
            Err(count) => choice matches Err(found) && found == count,
        },
{
    let ghost views = borrowed_nodes(list@);
    let ghost by_class = of_class(views, taken@, new.node().class);
    let ghost by_digest = of_digest(views, taken@, new.node().class, known@, digest);
    let mut exact: Vec<usize> = Vec::new();
    let mut alike: Vec<usize> = Vec::new();
    let mut at: usize = 0;
    proof {
        assert(as_ints(exact@) =~= Seq::empty());
    }
    while at < list.len()
        invariant
            at <= list@.len(),
            views == borrowed_nodes(list@),
            by_class == of_class(views, taken@, new.node().class),
            by_digest == of_digest(views, taken@, new.node().class, known@, digest),
            as_ints(exact@) == positions(at as nat, by_digest),
            as_ints(alike@) == positions(at as nat, by_class),
        decreases list@.len() - at,
    {
        let candidate: &Snapshot = list[at];
        proof {
            assert(views[at as int] == candidate.node());
        }
        let ghost exact_before = exact@;
        let ghost alike_before = alike@;
        if !taken.contains(&candidate.id) && candidate.class.as_str().eq(new.class.as_str()) {
            alike.push(at);
            proof {
                assert(as_ints(alike@) =~= as_ints(alike_before).push(at as int));
            }
            match known.get(&candidate.id) {
                Some(found) => {
                    if found.0 == digest.0 && found.1 == digest.1 {
                        exact.push(at);
                        proof {
                            assert(as_ints(exact@) =~= as_ints(exact_before).push(at as int));
                        }
                    }
                },
                None => {},
            }
        }
        at = at + 1;
    }
    proof {
        lemma_positions(views.len(), by_class);
        lemma_positions(views.len(), by_digest);
    }
    let among: Vec<usize> = if exact.len() == 0 {
        alike
    } else {
        exact
    };
    let ghost wanted = candidates(views, taken@, new.node().class, known@, digest);
    proof {
        assert(as_ints(among@) == wanted);
        assert forall|k: int| 0 <= k < among@.len() implies #[trigger] among@[k] < list@.len() by {
            assert(wanted[k] == among@[k]);
        }
    }
    if among.len() == 0 {
        return Ok(None);
    }
    if among.len() == 1 {
        proof {
            assert(wanted[0] == among@[0]);
        }
        return Ok(Some(among[0]));
    }
    let ghost by_name = of_name(views, wanted, new.node());
    let mut named: Vec<usize> = Vec::new();
    let mut k: usize = 0;
    proof {
        assert(as_ints(named@) =~= Seq::empty());
    }
    while k < among.len()
        invariant
            k <= among@.len(),
            views == borrowed_nodes(list@),
            as_ints(among@) == wanted,
            by_name == of_name(views, wanted, new.node()),
            forall|i: int| 0 <= i < among@.len() ==> #[trigger] among@[i] < list@.len(),
            as_ints(named@) == positions(k as nat, by_name),
        decreases among@.len() - k,
    {
        let candidate: &Snapshot = list[among[k]];
        proof {
            assert(wanted[k as int] == among@[k as int]);
            assert(views[wanted[k as int]] == candidate.node());
        }
        let ghost named_before = named@;
        if candidate.name.as_str().eq(new.name.as_str()) && same_raw(&candidate.raw_name, &new.raw_name) {
            named.push(k);
            proof {
                assert(as_ints(named@) =~= as_ints(named_before).push(k as int));
            }
        }
        k = k + 1;
    }
    proof {
        lemma_positions(wanted.len(), by_name);
    }
    if named.len() == 1 {
        proof {
            assert(positions(wanted.len(), by_name)[0] == named@[0]);
            assert(wanted[named@[0] as int] == among@[named@[0] as int]);
        }
        return Ok(Some(among[named[0]]));
    }
    Err(among.len())
}

fn borrow_all<'a>(list: &'a Vec<Snapshot>) -> (borrowed: Vec<&'a Snapshot>)
    ensures
        borrowed_nodes(borrowed@) == nodes(list@),
        borrowed@.len() == list@.len(),
        forall|k: int| 0 <= k < list@.len() ==> *(#[trigger] borrowed@[k]) == list@[k],
{
    let mut borrowed: Vec<&'a Snapshot> = Vec::new();
    let mut at: usize = 0;
    while at < list.len()
        invariant
            at <= list@.len(),
            borrowed@.len() == at,
            forall|k: int| 0 <= k < at ==> *(#[trigger] borrowed@[k]) == list@[k],
        decreases list@.len() - at,
    {
        borrowed.push(&list[at]);
        at = at + 1;
    }
    proof {
        assert(borrowed_nodes(borrowed@) =~= nodes(list@));
    }
    borrowed
}

// ---------------------------------------------------------------------------
// Matching

/// Digests of the prior and of the captured nodes.
#[verifier::ext_equal]
pub struct Evidence {
    pub old: Map<Ref, Digest>,
    pub new: Map<Ref, Digest>,
}

/// Where a child of a node stands.
pub open spec fn below(location: Seq<char>, name: Seq<char>) -> Seq<char> {
    location + "."@ + name
}

/// The matching after a captured node and what is below it have been matched
/// to a prior node and what is below that.
pub open spec fn matched_node(
    old: NodeView,
    new: NodeView,
    location: Seq<char>,
    matching: Map<Ref, Ref>,
    evidence: Evidence,
) -> Result<Map<Ref, Ref>, Blocker>
    decreases new, 0nat,
{
    match matched_children(old, new.children, location, matching.insert(new.id, old.id), evidence) {
        Ok(matched) => Ok(matched.0),
        Err(blocker) => Err(blocker),
    }
}

/// The matching after the captured children, and the prior children that they
/// took.
pub open spec fn matched_children(
    old: NodeView,
    list: Seq<NodeView>,
    location: Seq<char>,
    matching: Map<Ref, Ref>,
    evidence: Evidence,
) -> Result<(Map<Ref, Ref>, Set<Ref>), Blocker>
    decreases list, 1nat,
{
    if list.len() == 0 {
        Ok((matching, Set::empty()))
    } else {
        match matched_children(old, list.drop_last(), location, matching, evidence) {
            Err(blocker) => Err(blocker),
            Ok(before) => {
                let child = list.last();
                let place = below(location, child.name);
                if !evidence.new.dom().contains(child.id) {
                    Err(Blocker::NewDigestMissing)
                } else {
                    match selected(old.children, before.1, child, evidence.old, evidence.new[child.id]) {
                        Err(count) => Err(Blocker::Ambiguous { location: place, candidates: count }),
                        Ok(None) => Ok(before),
                        Ok(Some(at)) => match matched_node(
                            old.children[at],
                            child,
                            place,
                            before.0,
                            evidence,
                        ) {
                            Err(blocker) => Err(blocker),
                            Ok(after) => Ok((after, before.1.insert(old.children[at].id))),
                        },
                    }
                }
            },
        }
    }
}

fn pair(
    prior_node: &Snapshot,
    new: &Snapshot,
    location: &str,
    remap: &mut HashMap<u128, u128>,
    old_digests: &HashMap<u128, Digest>,
    new_digests: &HashMap<u128, Digest>,
) -> (paired: Result<(), ReconcileError>)
    ensures
        match matched_node(
            prior_node.node(),
            new.node(),
            location@,
            old(remap)@,
            (Evidence { old: old_digests@, new: new_digests@ }),
        ) {
            Ok(matching) => paired is Ok && final(remap)@ == matching,
            Err(blocker) => paired matches Err(error) && error.reports(blocker),
        },
    decreases new,
{
    let ghost evidence = Evidence { old: old_digests@, new: new_digests@ };
    remap.insert(new.id, prior_node.id);
    let ghost start = remap@;
    let mut used: HashSet<u128> = HashSet::new();
    let prior: Vec<&Snapshot> = borrow_all(&prior_node.children);
    let ghost children = new.node().children;
    proof {
        lemma_children(*new);
        lemma_children(*prior_node);
        assert(children.take(0) =~= Seq::empty());
    }
    let mut at: usize = 0;
    while at < new.children.len()
        invariant
            at <= new.children@.len(),
            start == old(remap)@.insert(new.id, prior_node.id),
            evidence == (Evidence { old: old_digests@, new: new_digests@ }),
            children == new.node().children,
            children.len() == new.children@.len(),
            forall|k: int| 0 <= k < children.len() ==> #[trigger] children[k] == new.children@[k].node(),
            borrowed_nodes(prior@) == prior_node.node().children,
            prior@.len() == prior_node.node().children.len(),
            matched_children(prior_node.node(), children.take(at as int), location@, start, evidence) == Ok::<
                (Map<Ref, Ref>, Set<Ref>),
                Blocker,
            >((remap@, used@)),
        decreases new.children@.len() - at,
    {
        let child: &Snapshot = &new.children[at];
        proof {
            let next = children.take(at + 1);
            assert(next.drop_last() =~= children.take(at as int));
            assert(next.last() == child.node());
            lemma_blocked_prefix(prior_node.node(), children, at + 1, location@, start, evidence);
        }
        let mut place: String = joined(location, ".");
        place.append(child.name.as_str());
        proof {
            assert(place@ =~= below(location@, child.node().name));
        }
        let digest: Digest = match new_digests.get(&child.id) {
            Some(digest) => *digest,
            None => {
                return Err(ReconcileError::NewDigestMissing);
            },
        };
        match choose_prior(&prior, &used, child, old_digests, digest) {
            Err(count) => {
                return Err(ReconcileError::Ambiguous { location: place, candidates: count });
            },
            Ok(None) => {},
            Ok(Some(chosen)) => {
                proof {
                    assert(prior_node.node().children[chosen as int] == prior@[chosen as int].node());
                }
                match pair(prior[chosen], child, place.as_str(), remap, old_digests, new_digests) {
                    Err(error) => {
                        return Err(error);
                    },
                    Ok(_) => {},
                }
                used.insert(prior[chosen].id);
            },
        }
        at = at + 1;
    }
    proof {
        assert(children.take(children.len() as int) =~= children);
    }
    Ok(())
}

/// A blocker among the first children blocks all of them.
proof fn lemma_blocked_prefix(
    old: NodeView,
    list: Seq<NodeView>,
    at: int,
    location: Seq<char>,
    matching: Map<Ref, Ref>,
    evidence: Evidence,
)
    requires
        0 <= at <= list.len(),
    ensures
        matched_children(old, list.take(at), location, matching, evidence) is Err ==> matched_children(
            old,
            list,
            location,
            matching,
            evidence,
        ) == matched_children(old, list.take(at), location, matching, evidence),
    decreases list.len(),
{
    if at == list.len() {
        assert(list.take(at) =~= list);
    } else {
        lemma_blocked_prefix(old, list.drop_last(), at, location, matching, evidence);
        assert(list.drop_last().take(at) =~= list.take(at));
    }
}

/// The nodes that additions add.
pub open spec fn added_nodes(additions: Seq<AdditionView>) -> Seq<NodeView> {
    additions.map_values(|addition: AdditionView| addition.node)
}

/// The identities of the nodes that additions add, and of those below them.
pub open spec fn added_ids(additions: Seq<AdditionView>) -> Seq<Ref> {
    flat_ids(flat_list(added_nodes(additions), None))
}

/// The removed nodes that a hierarchy holds.
pub open spec fn removed_nodes(canonical: NodeView, removals: Seq<Ref>) -> Seq<NodeView>
    decreases removals.len(),
{
    if removals.len() == 0 {
        Seq::empty()
    } else {
        let before = removed_nodes(canonical, removals.drop_last());
        match position(flat(canonical, None), removals.last()) {
            Some(at) => before.push(flat(canonical, None)[at].node),
            None => before,
        }
    }
}

/// The matching after captured roots, and the removed nodes that they took.
pub open spec fn matched_roots(removed: Seq<NodeView>, list: Seq<NodeView>, evidence: Evidence) -> Result<
    (Map<Ref, Ref>, Set<Ref>),
    Blocker,
>
    decreases list.len(),
{
    if list.len() == 0 {
        Ok((Map::empty(), Set::empty()))
    } else {
        match matched_roots(removed, list.drop_last(), evidence) {
            Err(blocker) => Err(blocker),
            Ok(before) => {
                let new = list.last();
                if !evidence.new.dom().contains(new.id) {
                    Err(Blocker::NewDigestMissing)
                } else {
                    match selected(removed, before.1, new, evidence.old, evidence.new[new.id]) {
                        Err(count) => Err(Blocker::Ambiguous { location: new.name, candidates: count }),
                        Ok(None) => Ok(before),
                        Ok(Some(at)) => match matched_node(removed[at], new, new.name, before.0, evidence) {
                            Err(blocker) => Err(blocker),
                            Ok(after) => Ok((after, before.1.insert(removed[at].id))),
                        },
                    }
                }
            },
        }
    }
}

/// The digests of the prior hierarchy and of the added nodes.
pub open spec fn evidence_of(canonical: NodeView, changes: ChangesView) -> Evidence {
    Evidence {
        old: node_digest(canonical, Map::empty()).1,
        new: list_digests(added_nodes(changes.additions), Map::empty()).1,
    }
}

/// The captured nodes that keep a prior identity, with that identity.
pub open spec fn matching_of(canonical: NodeView, changes: ChangesView) -> Result<Map<Ref, Ref>, Blocker> {
    let removed = removed_nodes(canonical, changes.removals);
    let evidence = evidence_of(canonical, changes);
    if exists|k: int| 0 <= k < removed.len() && !evidence.old.dom().contains((#[trigger] removed[k]).id) {
        Err(Blocker::PriorDigestMissing)
    } else {
        match matched_roots(removed, added_nodes(changes.additions), evidence) {
            Ok(matched) => Ok(matched.0),
            Err(blocker) => Err(blocker),
        }
    }
}

proof fn lemma_blocked_roots(removed: Seq<NodeView>, list: Seq<NodeView>, at: int, evidence: Evidence)
    requires
        0 <= at <= list.len(),
    ensures
        matched_roots(removed, list.take(at), evidence) is Err ==> matched_roots(removed, list, evidence)
            == matched_roots(removed, list.take(at), evidence),
    decreases list.len(),
{
    if at == list.len() {
        assert(list.take(at) =~= list);
    } else {
        lemma_blocked_roots(removed, list.drop_last(), at, evidence);
        assert(list.drop_last().take(at) =~= list.take(at));
    }
}

/// Copies of the added nodes.
fn added_roots(additions: &Vec<AddedSnapshot>) -> (roots: Vec<Snapshot>)
    ensures
        nodes(roots@) == added_nodes(additions_view(additions@)),
        roots@.len() == additions@.len(),
{
    let mut roots: Vec<Snapshot> = Vec::new();
    let mut at: usize = 0;
    while at < additions.len()
        invariant
            at <= additions@.len(),
            roots@.len() == at,
            forall|k: int| 0 <= k < at ==> (#[trigger] roots@[k]).node() == additions@[k]@.node,
        decreases additions@.len() - at,
    {
        roots.push(additions[at].snapshot());
        at = at + 1;
    }
    proof {
        assert(nodes(roots@) =~= added_nodes(additions_view(additions@)));
    }
    roots
}

/// The removed nodes of a hierarchy.
fn find_removed<'a>(canonical: &'a Snapshot, removals: &Vec<Ref>) -> (removed: Vec<&'a Snapshot>)
    ensures
        borrowed_nodes(removed@) == removed_nodes(canonical.node(), removals@),
{
    let list: Vec<FlatNode<'a>> = flatten_snapshot(canonical);
    let index: HashMap<u128, usize> = index_flat(&list);
    let mut removed: Vec<&'a Snapshot> = Vec::new();
    let mut at: usize = 0;
    let ghost all = flat(canonical.node(), None);
    proof {
        assert(removals@.take(0) =~= Seq::empty());
        assert(borrowed_nodes(removed@) =~= Seq::empty());
    }
    while at < removals.len()
        invariant
            at <= removals@.len(),
            all == flat(canonical.node(), None),
            flat_views(list@) == all,
            list@.len() == all.len(),
            indexes(index@, all),
            borrowed_nodes(removed@) == removed_nodes(canonical.node(), removals@.take(at as int)),
        decreases removals@.len() - at,
    {
        let ghost before = removed@;
        let id: Ref = removals[at];
        proof {
            assert(removals@.take(at + 1).drop_last() =~= removals@.take(at as int));
            assert(index@.dom().contains(id) == (position(all, id) is Some));
            lemma_position(all, id);
        }
        match index.get(&id) {
            Some(place) => {
                removed.push(list[*place].snapshot);
                proof {
                    assert(all[*place as int] == list@[*place as int]@);
                    assert(borrowed_nodes(removed@) =~= borrowed_nodes(before).push(
                        all[*place as int].node,
                    ));
                }
            },
            None => {},
        }
        at = at + 1;
    }
    proof {
        assert(removals@.take(removals@.len() as int) =~= removals@);
    }
    removed
}

/// The matching of a capture to the previous manifest.
fn match_capture(canonical: &Snapshot, changes: &Changes, roots: &Vec<Snapshot>) -> (matching: Result<
    HashMap<u128, u128>,
    ReconcileError,
>)
    requires
        nodes(roots@) == added_nodes(changes@.additions),
        roots@.len() == changes@.additions.len(),
    ensures
        match matching_of(canonical.node(), changes@) {
            Ok(expected) => matching matches Ok(found) && found@ == expected,
            Err(blocker) => matching matches Err(error) && error.reports(blocker),
        },
{
    let removed: Vec<&Snapshot> = find_removed(canonical, &changes.removals);
    let mut old_digests: HashMap<u128, Digest> = HashMap::new();
    normalized_digest(canonical, &mut old_digests);
    let mut new_digests: HashMap<u128, Digest> = HashMap::new();
    let ghost added = added_nodes(changes@.additions);
    let mut at: usize = 0;
    proof {
        assert(added.take(0) =~= Seq::empty());
        assert(new_digests@ =~= Map::empty());
        assert(old_digests@ == node_digest(canonical.node(), Map::empty()).1);
    }
    while at < roots.len()
        invariant
            at <= roots@.len(),
            nodes(roots@) == added,
            roots@.len() == added.len(),
            new_digests@ == list_digests(added.take(at as int), Map::empty()).1,
        decreases roots@.len() - at,
    {
        proof {
            assert(added.take(at + 1).drop_last() =~= added.take(at as int));
            assert(added[at as int] == roots@[at as int].node());
        }
        normalized_digest(&roots[at], &mut new_digests);
        at = at + 1;
    }
    proof {
        assert(added.take(added.len() as int) =~= added);
    }
    let ghost evidence = evidence_of(canonical.node(), changes@);
    let ghost prior = removed_nodes(canonical.node(), changes@.removals);
    let mut k: usize = 0;
    while k < removed.len()
        invariant
            k <= removed@.len(),
            borrowed_nodes(removed@) == prior,
            prior == removed_nodes(canonical.node(), changes@.removals),
            evidence == evidence_of(canonical.node(), changes@),
            old_digests@ == evidence.old,
            forall|i: int| 0 <= i < k ==> evidence.old.dom().contains((#[trigger] prior[i]).id),
        decreases removed@.len() - k,
    {
        proof {
            assert(prior[k as int] == removed@[k as int].node());
        }
        if !old_digests.contains_key(&removed[k].id) {
            return Err(ReconcileError::PriorDigestMissing);
        }
        k = k + 1;
    }
    let mut remap: HashMap<u128, u128> = HashMap::new();
    let mut claimed: HashSet<u128> = HashSet::new();
    let mut root: usize = 0;
    proof {
        assert(remap@ =~= Map::empty());
        assert(added.take(0) =~= Seq::empty());
    }
    while root < roots.len()
        invariant
            root <= roots@.len(),
            nodes(roots@) == added,
            roots@.len() == added.len(),
            added == added_nodes(changes@.additions),
            borrowed_nodes(removed@) == prior,
            removed@.len() == prior.len(),
            prior == removed_nodes(canonical.node(), changes@.removals),
            evidence == evidence_of(canonical.node(), changes@),
            evidence == (Evidence { old: old_digests@, new: new_digests@ }),
            forall|i: int| 0 <= i < prior.len() ==> evidence.old.dom().contains((#[trigger] prior[i]).id),
            matched_roots(prior, added.take(root as int), evidence) == Ok::<
                (Map<Ref, Ref>, Set<Ref>),
                Blocker,
            >((remap@, claimed@)),
        decreases roots@.len() - root,
    {
        let new: &Snapshot = &roots[root];
        proof {
            let next = added.take(root + 1);
            assert(next.drop_last() =~= added.take(root as int));
            assert(next.last() == added[root as int]);
            assert(added[root as int] == roots@[root as int].node());
            lemma_blocked_roots(prior, added, root + 1, evidence);
        }
        let digest: Digest = match new_digests.get(&new.id) {
            Some(digest) => *digest,
            None => {
                return Err(ReconcileError::NewDigestMissing);
            },
        };
        match choose_prior(&removed, &claimed, new, &old_digests, digest) {
            Err(count) => {
                return Err(ReconcileError::Ambiguous { location: new.name.clone(), candidates: count });
            },
            Ok(None) => {},
            Ok(Some(chosen)) => {
                proof {
                    assert(prior[chosen as int] == removed@[chosen as int].node());
                }
                match pair(
                    removed[chosen],
                    new,
                    new.name.as_str(),
                    &mut remap,
                    &old_digests,
                    &new_digests,
                ) {
                    Err(error) => {
                        return Err(error);
                    },
                    Ok(_) => {},
                }
                claimed.insert(removed[chosen].id);
            },
        }
        root = root + 1;
    }
    proof {
        assert(added.take(added.len() as int) =~= added);
    }
    Ok(remap)
}

// ---------------------------------------------------------------------------
// Fresh identities

/// A map that keeps a matching and gives every other of the identities a fresh
/// one: no two the same, and none among the prior ones.
pub open spec fn completes(
    matching: Map<Ref, Ref>,
    added: Seq<Ref>,
    prior: Set<Ref>,
    complete: Map<Ref, Ref>,
) -> bool {
    &&& complete.dom() == matching.dom().union(added.to_set())
    &&& forall|id: Ref| #[trigger] matching.dom().contains(id) ==> complete[id] == matching[id]
    &&& forall|id: Ref|
        added.contains(id) && !matching.dom().contains(id) ==> #[trigger] complete[id] != 0
            && !prior.contains(complete[id])
    &&& forall|a: Ref, b: Ref|
        added.contains(a) && added.contains(b) && !matching.dom().contains(a) && !matching.dom().contains(b)
            && a != b ==> #[trigger] complete[a] != #[trigger] complete[b]
}

/// The place of the first identity of a list that is not in use, or the length of
/// the list where all of them are.
pub open spec fn unused_place(list: Seq<Ref>, used: Set<Ref>) -> nat
    decreases list.len(),
{
    if list.len() == 0 || !used.contains(list[0]) {
        0
    } else {
        1 + unused_place(list.skip(1), used)
    }
}

proof fn lemma_unused_place(list: Seq<Ref>, used: Set<Ref>, at: int)
    requires
        0 <= at <= list.len(),
        forall|k: int| 0 <= k < at ==> used.contains(#[trigger] list[k]),
        at < list.len() ==> !used.contains(list[at]),
    ensures
        unused_place(list, used) == at,
    decreases at,
{
    if at > 0 {
        let rest = list.skip(1);
        assert(used.contains(list[0]));
        assert forall|k: int| 0 <= k < at - 1 implies used.contains(#[trigger] rest[k]) by {
            assert(rest[k] == list[k + 1]);
        }
        lemma_unused_place(rest, used, at - 1);
    }
}

/// A matching with identities for the other nodes, each the first of a list that
/// is not in use and comes after those given before. Nothing where the list is too
/// short.
pub open spec fn completed(matching: Map<Ref, Ref>, added: Seq<Ref>, used: Set<Ref>, list: Seq<Ref>) -> Option<
    Map<Ref, Ref>,
>
    decreases added.len(),
{
    if added.len() == 0 {
        Some(matching)
    } else if matching.dom().contains(added[0]) {
        completed(matching, added.skip(1), used, list)
    } else {
        let at = unused_place(list, used) as int;
        if at < list.len() {
            completed(
                matching.insert(added[0], list[at]),
                added.skip(1),
                used.insert(list[at]),
                list.skip(at + 1),
            )
        } else {
            None
        }
    }
}

/// A matching of all nodes is complete.
proof fn lemma_all_matched(matching: Map<Ref, Ref>, added: Seq<Ref>, used: Set<Ref>, list: Seq<Ref>)
    requires
        forall|k: int| 0 <= k < added.len() ==> matching.dom().contains(#[trigger] added[k]),
    ensures
        completed(matching, added, used, list) == Some(matching),
    decreases added.len(),
{
    if added.len() > 0 {
        let rest = added.skip(1);
        assert(matching.dom().contains(added[0]));
        assert forall|k: int| 0 <= k < rest.len() implies matching.dom().contains(#[trigger] rest[k]) by {
            assert(rest[k] == added[k + 1]);
        }
        lemma_all_matched(matching, rest, used, list);
    }
}

/// The identities of a set that an allocator has not issued.
spec fn unissued(allocator: ManifestIdentityAllocator, set: Set<u128>) -> Set<u128> {
    set.filter(|id: u128| !allocator.issued(id))
}

/// Draws identities until one is outside a set: the first of those at hand that is,
/// or one from the random source.
fn fresh_identity(allocator: &mut ManifestIdentityAllocator, used: &HashSet<u128>) -> (id: Result<
    u128,
    IdentityError,
>)
    requires
        old(allocator).wf(),
        used@.finite(),
    ensures
        final(allocator).wf(),
        final(allocator).pending() is Some == old(allocator).pending() is Some,
        ({
            let list = old(allocator).at_hand();
            let at = unused_place(list, used@) as int;
            if at < list.len() {
                id == Ok::<u128, IdentityError>(list[at]) && final(allocator).at_hand() == list.skip(at + 1)
            } else {
                match id {
                    Ok(_) => old(allocator).pending() is None,
                    Err(error) => error == old(allocator).shortage(),
                }
            }
        }),
        id matches Ok(id) ==> id != 0 && !used@.contains(id) && !old(allocator).issued(id),
        forall|other: u128| #[trigger]
            final(allocator).issued(other) ==> old(allocator).issued(other) || used@.contains(other) || id == Ok::<
                u128,
                IdentityError,
            >(other),
        forall|other: u128| #[trigger] old(allocator).issued(other) ==> final(allocator).issued(other),
{
    let ghost start = *allocator;
    let ghost list = allocator.at_hand();
    let ghost mut gone: int = 0;
    proof {
        vstd::set_lib::lemma_set_subset_finite(used@, unissued(*allocator, used@));
        assert(list.skip(0) =~= list);
    }
    loop
        invariant
            start == *old(allocator),
            list == start.at_hand(),
            allocator.wf(),
            allocator.pending() is Some == start.pending() is Some,
            used@.finite(),
            unissued(*allocator, used@).finite(),
            0 <= gone <= list.len(),
            forall|k: int| 0 <= k < gone ==> used@.contains(#[trigger] list[k]),
            allocator.at_hand() == list.skip(gone) || (gone == list.len() && start.pending() is None),
            forall|other: u128| #[trigger]
                allocator.issued(other) ==> start.issued(other) || used@.contains(other),
            forall|other: u128| #[trigger] start.issued(other) ==> allocator.issued(other),
        decreases unissued(*allocator, used@).len(),
    {
        let ghost before = *allocator;
        proof {
            if gone < list.len() {
                assert(list.skip(gone)[0] == list[gone]);
                assert(list.skip(gone).skip(1) =~= list.skip(gone + 1));
            }
        }
        let id: u128 = match allocator.next() {
            Ok(id) => id,
            Err(error) => {
                proof {
                    lemma_unused_place(list, used@, gone);
                }
                return Err(error);
            },
        };
        if !used.contains(&id) {
            proof {
                lemma_unused_place(list, used@, gone);
            }
            return Ok(id);
        }
        proof {
            assert(unissued(*allocator, used@) =~= unissued(before, used@).remove(id)) by {
                assert forall|other: u128| unissued(*allocator, used@).contains(other) <==> unissued(
                    before,
                    used@,
                ).remove(id).contains(other) by {
                    assert(allocator.issued(other) <==> before.issued(other) || other == id);
                }
            }
            assert(unissued(before, used@).contains(id));
            if gone < list.len() {
                gone = gone + 1;
            }
        }
    }
}

/// Completes a matching with fresh identities.
fn complete_matching(
    matching: HashMap<u128, u128>,
    list: &Vec<FlatNode>,
    prior: HashSet<u128>,
    allocator: &mut ManifestIdentityAllocator,
) -> (complete: Result<HashMap<u128, u128>, IdentityError>)
    requires
        old(allocator).wf(),
        prior@.finite(),
    ensures
        final(allocator).wf(),
        match completed(matching@, flat_ids(flat_views(list@)), prior@, old(allocator).at_hand()) {
            Some(expected) => complete matches Ok(found) && found@ == expected,
            None => match complete {
                Ok(_) => old(allocator).pending() is None,
                Err(error) => error == old(allocator).shortage(),
            },
        },
        complete matches Ok(complete) ==> completes(
            matching@,
            flat_ids(flat_views(list@)),
            prior@,
            complete@,
        ),
{
    let ghost all = flat_ids(flat_views(list@));
    let ghost start = matching@;
    let ghost known = prior@;
    let ghost expected = completed(start, all, known, allocator.at_hand());
    let ghost mut enough: bool = true;
    let mut complete = matching;
    let mut used = prior;
    let mut at: usize = 0;
    proof {
        assert(all.take(0) =~= Seq::empty());
        assert(all.skip(0) =~= all);
        assert(start.dom().union(all.take(0).to_set()) =~= start.dom());
    }
    while at < list.len()
        invariant
            at <= list@.len(),
            all == flat_ids(flat_views(list@)),
            start == matching@,
            known == prior@,
            allocator.wf(),
            allocator.pending() is Some == old(allocator).pending() is Some,
            expected == completed(start, all, known, old(allocator).at_hand()),
            enough ==> expected == completed(complete@, all.skip(at as int), used@, allocator.at_hand()),
            !enough ==> expected is None && old(allocator).pending() is None,
            completes(start, all.take(at as int), known, complete@),
            known.subset_of(used@),
            used@.finite(),
            forall|id: Ref|
                all.take(at as int).contains(id) && !start.dom().contains(id) ==> used@.contains(
                    #[trigger] complete@[id],
                ),
        decreases list@.len() - at,
    {
        let incoming: Ref = list[at].snapshot.id;
        let ghost before = complete@;
        let ghost done = all.take(at as int);
        let ghost next = all.take(at + 1);
        let ghost list_before = allocator.at_hand();
        proof {
            assert(all.skip(at as int)[0] == incoming);
            assert(all.skip(at as int).skip(1) =~= all.skip(at + 1));
            lemma_taken_set(all, at as int);
            assert(next =~= done.push(incoming));
            assert forall|id: Ref| next.contains(id) <==> done.contains(id) || id == incoming by {
                assert(next.to_set().contains(id) <==> done.to_set().insert(incoming).contains(id));
            }
        }
        if !complete.contains_key(&incoming) {
            let ghost taken = used@;
            let id: u128 = match fresh_identity(allocator, &used) {
                Ok(id) => id,
                Err(error) => {
                    return Err(error);
                },
            };
            complete.insert(incoming, id);
            used.insert(id);
            proof {
                if unused_place(list_before, taken) >= list_before.len() {
                    enough = false;
                }
                assert(!done.contains(incoming)) by {
                    if done.contains(incoming) {
                        assert(done.to_set().contains(incoming));
                    }
                }
                assert(complete@.dom() =~= start.dom().union(next.to_set()));
                assert(completes(start, next, known, complete@));
            }
        } else {
            proof {
                assert(complete@.dom() =~= start.dom().union(next.to_set()));
                assert(!start.dom().contains(incoming) ==> done.to_set().contains(incoming));
                assert(completes(start, next, known, complete@));
            }
        }
        at = at + 1;
    }
    proof {
        assert(all.take(all.len() as int) =~= all);
        assert(all.skip(all.len() as int) =~= Seq::empty());
    }
    Ok(complete)
}

// ---------------------------------------------------------------------------
// Renaming

/// An identity after renaming. What the map does not name stays.
pub open spec fn renamed_ref(id: Ref, map: Map<Ref, Ref>) -> Ref {
    if map.dom().contains(id) {
        map[id]
    } else {
        id
    }
}

/// A value after renaming: references and object content follow their targets.
pub open spec fn renamed_value(value: VariantView, map: Map<Ref, Ref>) -> VariantView {
    match value {
        VariantView::Ref(target) => VariantView::Ref(renamed_ref(target, map)),
        VariantView::Object(target) => VariantView::Object(renamed_ref(target, map)),
        _ => value,
    }
}

/// Properties after renaming.
pub open spec fn renamed_properties(values: Map<Seq<char>, VariantView>, map: Map<Ref, Ref>) -> Map<
    Seq<char>,
    VariantView,
> {
    values.map_values(|value: VariantView| renamed_value(value, map))
}

/// A node after renaming.
pub open spec fn renamed_node(node: NodeView, map: Map<Ref, Ref>) -> NodeView
    decreases node,
{
    NodeView {
        id: renamed_ref(node.id, map),
        properties: renamed_properties(node.properties, map),
        children: Seq::new(
            node.children.len(),
            |at: int|
                if 0 <= at < node.children.len() {
                    renamed_node(node.children[at], map)
                } else {
                    arbitrary()
                },
        ),
        ..node
    }
}

/// An addition after renaming.
pub open spec fn renamed_addition(addition: AdditionView, map: Map<Ref, Ref>) -> AdditionView {
    AdditionView { parent: renamed_ref(addition.parent, map), node: renamed_node(addition.node, map) }
}

/// An update after renaming.
pub open spec fn renamed_update(update: UpdateView, map: Map<Ref, Ref>) -> UpdateView {
    UpdateView {
        id: renamed_ref(update.id, map),
        parent: match update.parent {
            Some(parent) => Some(renamed_ref(parent, map)),
            None => None,
        },
        properties: match update.properties {
            Some(values) => Some(renamed_properties(values, map)),
            None => None,
        },
        ..update
    }
}

/// Changes after renaming. Removals name prior nodes and stay.
pub open spec fn renamed_changes(changes: ChangesView, map: Map<Ref, Ref>) -> ChangesView {
    ChangesView {
        additions: changes.additions.map_values(
            |addition: AdditionView| renamed_addition(addition, map),
        ),
        updates: changes.updates.map_values(|update: UpdateView| renamed_update(update, map)),
        removals: changes.removals,
    }
}

fn rename_ref(id: Ref, map: &HashMap<u128, u128>) -> (renamed: Ref)
    ensures
        renamed == renamed_ref(id, map@),
{
    match map.get(&id) {
        Some(renamed) => *renamed,
        None => id,
    }
}

pub(crate) fn rename_properties(values: &mut Properties, map: &HashMap<u128, u128>)
    ensures
        final(values).deep() == renamed_properties(old(values).deep(), map@),
{
    let len: usize = values.len();
    let ghost start = values.deep();
    let ghost names = values.keys();
    let mut at: usize = 0;
    proof {
        assert(start.dom() =~= values@.dom());
        lemma_listed_keys(*values);
    }
    while at < len
        invariant
            at <= len,
            len == names.len(),
            names == values.keys(),
            names == ordered_keys(start.dom()),
            names.no_duplicates(),
            values.listed(),
            start == old(values).deep(),
            values.deep().dom() == start.dom(),
            values@.dom() == start.dom(),
            start.dom() == names.to_set(),
            forall|k: int|
                0 <= k < at ==> values.deep()[#[trigger] names[k]] == renamed_value(start[names[k]], map@),
            forall|k: int| at <= k < len ==> values.deep()[#[trigger] names[k]] == start[names[k]],
        decreases len - at,
    {
        let ghost before = values.deep();
        let ghost key = names[at as int];
        let replacement: Option<Variant> = match values.value_at(at) {
            Variant::Ref(target) => Some(Variant::Ref(rename_ref(*target, map))),
            Variant::Object(target) => Some(Variant::Object(rename_ref(*target, map))),
            _ => None,
        };
        proof {
            assert(names.contains(key));
            assert(before[key] == values@[key]@);
        }
        match replacement {
            Some(value) => {
                let name: String = values.key_at(at).clone();
                values.insert(name, value);
                let count: usize = values.len();
                proof {
                    assert(values.deep() =~= before.insert(key, value@));
                    assert(values.deep().dom() =~= start.dom());
                    assert(values@.dom() =~= start.dom());
                    lemma_listed_keys(*values);
                }
            },
            None => {},
        }
        at = at + 1;
    }
    proof {
        assert forall|name: Seq<char>| start.dom().contains(name) implies values.deep()[name]
            == renamed_properties(start, map@)[name] by {
            let k = names.index_of(name);
            assert(names[k] == name);
        }
        assert(values.deep() =~= renamed_properties(start, map@));
    }
}

fn rename_snapshot(snapshot: &mut Snapshot, map: &HashMap<u128, u128>)
    ensures
        final(snapshot).node() == renamed_node(old(snapshot).node(), map@),
    decreases *old(snapshot),
{
    let ghost start = *snapshot;
    snapshot.id = rename_ref(snapshot.id, map);
    rename_properties(&mut snapshot.properties, map);
    let mut at: usize = 0;
    while at < snapshot.children.len()
        invariant
            at <= snapshot.children@.len(),
            start == *old(snapshot),
            snapshot.children@.len() == start.children@.len(),
            snapshot.id == renamed_ref(start.id, map@),
            snapshot.name == start.name,
            snapshot.class == start.class,
            snapshot.raw_name == start.raw_name,
            snapshot.properties.deep() == renamed_properties(start.properties.deep(), map@),
            forall|k: int|
                0 <= k < at ==> (#[trigger] snapshot.children@[k]).node() == renamed_node(
                    start.children@[k].node(),
                    map@,
                ),
            forall|k: int| at <= k < start.children@.len() ==> #[trigger] snapshot.children@[k] == start.children@[k],
        decreases start.children@.len() - at,
    {
        proof {
            assert(snapshot.children@[at as int] == start.children@[at as int]);
        }
        rename_snapshot(&mut snapshot.children[at], map);
        at = at + 1;
    }
    proof {
        lemma_children(*snapshot);
        lemma_children(start);
        assert(snapshot.node().children =~= renamed_node(start.node(), map@).children);
    }
}

fn rename_addition(addition: &mut AddedSnapshot, map: &HashMap<u128, u128>)
    ensures
        final(addition)@ == renamed_addition(old(addition)@, map@),
{
    let ghost start = *addition;
    addition.id = rename_ref(addition.id, map);
    addition.parent = rename_ref(addition.parent, map);
    rename_properties(&mut addition.properties, map);
    let mut at: usize = 0;
    while at < addition.children.len()
        invariant
            at <= addition.children@.len(),
            addition.children@.len() == start.children@.len(),
            addition.id == renamed_ref(start.id, map@),
            addition.parent == renamed_ref(start.parent, map@),
            addition.name == start.name,
            addition.class == start.class,
            addition.raw_name == start.raw_name,
            addition.properties.deep() == renamed_properties(start.properties.deep(), map@),
            forall|k: int|
                0 <= k < at ==> (#[trigger] addition.children@[k]).node() == renamed_node(
                    start.children@[k].node(),
                    map@,
                ),
            forall|k: int| at <= k < start.children@.len() ==> #[trigger] addition.children@[k] == start.children@[k],
        decreases start.children@.len() - at,
    {
        rename_snapshot(&mut addition.children[at], map);
        at = at + 1;
    }
    proof {
        assert(addition@.node.children =~= renamed_node(start@.node, map@).children);
    }
}

fn rename_update(update: &mut UpdatedSnapshot, map: &HashMap<u128, u128>)
    ensures
        final(update)@ == renamed_update(old(update)@, map@),
{
    update.id = rename_ref(update.id, map);
    match update.parent {
        Some(parent) => {
            update.parent = Some(rename_ref(parent, map));
        },
        None => {},
    }
    match &mut update.properties {
        Some(values) => {
            rename_properties(values, map);
        },
        None => {},
    }
}

fn rename_changes(changes: &mut Changes, map: &HashMap<u128, u128>)
    ensures
        final(changes)@ == renamed_changes(old(changes)@, map@),
{
    let ghost start = *changes;
    let mut at: usize = 0;
    while at < changes.additions.len()
        invariant
            at <= changes.additions@.len(),
            changes.additions@.len() == start.additions@.len(),
            changes.updates == start.updates,
            changes.removals == start.removals,
            forall|k: int|
                0 <= k < at ==> (#[trigger] changes.additions@[k])@ == renamed_addition(
                    start.additions@[k]@,
                    map@,
                ),
            forall|k: int|
                at <= k < start.additions@.len() ==> #[trigger] changes.additions@[k] == start.additions@[k],
        decreases start.additions@.len() - at,
    {
        rename_addition(&mut changes.additions[at], map);
        at = at + 1;
    }
    let ghost middle = *changes;
    let mut next: usize = 0;
    while next < changes.updates.len()
        invariant
            next <= changes.updates@.len(),
            changes.additions == middle.additions,
            changes.updates@.len() == start.updates@.len(),
            changes.removals == start.removals,
            forall|k: int|
                0 <= k < next ==> (#[trigger] changes.updates@[k])@ == renamed_update(start.updates@[k]@, map@),
            forall|k: int|
                next <= k < start.updates@.len() ==> #[trigger] changes.updates@[k] == start.updates@[k],
        decreases start.updates@.len() - next,
    {
        rename_update(&mut changes.updates[next], map);
        next = next + 1;
    }
    proof {
        assert(changes@.additions =~= renamed_changes(start@, map@).additions);
        assert(changes@.updates =~= renamed_changes(start@, map@).updates);
    }
}

// ---------------------------------------------------------------------------
// Reconciliation

/// What reconciling does to changes, with identities at hand from an allocator:
/// where nothing blocks the matching, every node follows one completed map, which
/// is the result. The identities at hand complete it, as far as they go. A failure
/// leaves the changes as they were.
pub open spec fn reconciled(
    canonical: NodeView,
    before: ChangesView,
    allocator: ManifestIdentityAllocator,
    after: ChangesView,
    outcome: Result<HashMap<u128, u128>, ReconcileError>,
) -> bool {
    match matching_of(canonical, before) {
        Err(blocker) => after == before && (outcome matches Err(error) && error.reports(blocker)),
        Ok(matching) => {
            let added = added_ids(before.additions);
            &&& match completed(matching, added, ids(canonical), allocator.at_hand()) {
                Some(expected) => outcome matches Ok(map) && map@ == expected,
                None => allocator.pending() is Some ==> outcome is Err,
            }
            &&& match outcome {
                Ok(map) => completes(matching, added, ids(canonical), map@) && after == renamed_changes(
                    before,
                    map@,
                ),
                Err(error) => error == ReconcileError::Identity(allocator.shortage()) && after == before,
            }
        },
    }
}

/// Matches the nodes of a capture to the previous manifest, with fresh
/// identities from an allocator.
pub fn reconcile_with(
    canonical: &Snapshot,
    changes: &mut Changes,
    allocator: &mut ManifestIdentityAllocator,
) -> (outcome: Result<HashMap<u128, u128>, ReconcileError>)
    requires
        old(allocator).wf(),
    ensures
        final(allocator).wf(),
        reconciled(canonical.node(), old(changes)@, *old(allocator), final(changes)@, outcome),
        outcome is Ok ==> changes_follow(old(changes)@, final(changes)@),
{
    let roots: Vec<Snapshot> = added_roots(&changes.additions);
    let matching: HashMap<u128, u128> = match match_capture(canonical, changes, &roots) {
        Ok(matching) => matching,
        Err(error) => {
            return Err(error);
        },
    };
    let ghost start = changes@;
    let prior_list: Vec<FlatNode> = flatten_snapshot(canonical);
    let prior: HashSet<u128> = flat_id_set(&prior_list);
    let ghost added = added_nodes(start.additions);
    let mut list: Vec<FlatNode> = Vec::new();
    let mut at: usize = 0;
    proof {
        assert(added.take(0) =~= Seq::empty());
        assert(flat_views(list@) =~= Seq::empty());
        vstd::seq_lib::seq_to_set_is_finite(flat_ids(flat_views(prior_list@)));
    }
    while at < roots.len()
        invariant
            at <= roots@.len(),
            nodes(roots@) == added,
            roots@.len() == added.len(),
            flat_views(list@) == flat_list(added.take(at as int), None),
        decreases roots@.len() - at,
    {
        flatten_into(&roots[at], None, &mut list);
        proof {
            assert(added.take(at + 1).drop_last() =~= added.take(at as int));
            assert(added[at as int] == roots@[at as int].node());
        }
        at = at + 1;
    }
    proof {
        assert(added.take(added.len() as int) =~= added);
    }
    let complete: HashMap<u128, u128> = match complete_matching(matching, &list, prior, allocator) {
        Ok(complete) => complete,
        Err(error) => {
            return Err(ReconcileError::Identity(error));
        },
    };
    rename_changes(changes, &complete);
    proof {
        lemma_outcome_follows(canonical.node(), start, changes@, complete@);
    }
    Ok(complete)
}

/// Reconciles capture-local identities against the previous manifest and
/// assigns fresh identities to genuinely new nodes. A rename or reparent
/// retains identity only when structural evidence selects one prior object;
/// ambiguity is a capture blocker.
pub fn reconcile_capture_identities(canonical: &Snapshot, changes: &mut Changes) -> (outcome: Result<
    HashMap<u128, u128>,
    ReconcileError,
>)
    ensures
        match matching_of(canonical.node(), old(changes)@) {
            Err(blocker) => final(changes)@ == old(changes)@ && (outcome matches Err(error) && error.reports(
                blocker,
            )),
            Ok(matching) => match outcome {
                Ok(map) => completes(
                    matching,
                    added_ids(old(changes)@.additions),
                    ids(canonical.node()),
                    map@,
                ) && final(changes)@ == renamed_changes(old(changes)@, map@),
                Err(error) => {
                    &&& error == ReconcileError::Identity(IdentityError::RandomnessUnavailable)
                    &&& final(changes)@ == old(changes)@
                    &&& exists|k: int|
                        0 <= k < added_ids(old(changes)@.additions).len() && !matching.dom().contains(
                            #[trigger] added_ids(old(changes)@.additions)[k],
                        )
                },
            },
        },
        outcome is Ok ==> changes_follow(old(changes)@, final(changes)@),
{
    let mut allocator: ManifestIdentityAllocator = ManifestIdentityAllocator::new();
    proof {
        if let Ok(matching) = matching_of(canonical.node(), changes@) {
            let added = added_ids(changes@.additions);
            if forall|k: int| 0 <= k < added.len() ==> matching.dom().contains(#[trigger] added[k]) {
                lemma_all_matched(matching, added, ids(canonical.node()), allocator.at_hand());
            }
        }
    }
    reconcile_with(canonical, changes, &mut allocator)
}

} // verus!
