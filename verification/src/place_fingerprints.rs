//! Fingerprints of the instances of a place: digests of what they are, in which
//! the order of properties and of siblings leaves no trace.

use crate::capture_identity::{push_value, value_text};
use crate::hashing::{blake3_digest, blake3_hash, digest_bytes, push_digest, push_text, Digest};
use crate::managed_hierarchy::{le_bytes, push_le};
use crate::place::{is_child, placed, PlaceNode, PlaceStructure};
use crate::place_values::{
    absence_changes_engine_load, absence_matters, attribute_text, has_managed_worktree_contract,
    is_manifest_identity, is_reference_value, is_unique_property, is_uuid, is_worktree_attribute, manifest_identity,
    reference_value, text_attribute, unique_property, uuid_reads, worktree_attribute, worktree_contract,
};
use crate::reflection::Reflection;
use crate::text::{is_before, push_bytes, text_before, text_bytes, texts};
use crate::text_map::{lemma_listed_keys, ordered_keys, Plain, TextMap};
use crate::variant::{AttributeValue, AttributeView, Properties, Variant, VariantView};
use crate::{Ref, NO_REF};
use vstd::prelude::*;
use vstd::string::StringSliceAdditionalSpecFns;

verus! {

/// Digests of which the order is forgotten, and their number.
#[derive(Clone, Copy, Debug, PartialEq, Eq, Structural)]
pub struct Fingerprint {
    pub high: u128,
    pub low: u128,
    pub count: u32,
}

/// The fingerprint of nothing.
pub open spec fn blank() -> Fingerprint {
    Fingerprint { high: 0, low: 0, count: 0 }
}

/// A count that starts over at its end.
pub open spec fn wrapped(count: int) -> u32 {
    (count % 0x1_0000_0000) as u32
}

impl Fingerprint {
    pub open spec fn with(self, digest: Digest) -> Fingerprint {
        Fingerprint { high: self.high ^ digest.0, low: self.low ^ digest.1, count: wrapped(self.count + 1) }
    }

    pub open spec fn joined(self, other: Fingerprint) -> Fingerprint {
        Fingerprint {
            high: self.high ^ other.high,
            low: self.low ^ other.low,
            count: wrapped(self.count + other.count),
        }
    }

    pub open spec fn bytes(self) -> Seq<u8> {
        le_bytes(self.count as nat, 4) + digest_bytes((self.high, self.low))
    }

    fn blank() -> (print: Self)
        ensures
            print == blank(),
    {
        Fingerprint { high: 0, low: 0, count: 0 }
    }

    /// Takes in a digest.
    pub fn include_digest(&mut self, digest: Digest)
        ensures
            *final(self) == old(self).with(digest),
    {
        let count: u32 = ((self.count as u64 + 1) % 0x1_0000_0000) as u32;
        *self = Fingerprint { high: self.high ^ digest.0, low: self.low ^ digest.1, count };
    }

    /// Takes in all digests of another fingerprint.
    pub fn merge(&mut self, other: Self)
        ensures
            *final(self) == old(self).joined(other),
    {
        let count: u32 = ((self.count as u64 + other.count as u64) % 0x1_0000_0000) as u32;
        *self = Fingerprint { high: self.high ^ other.high, low: self.low ^ other.low, count };
    }

    fn push(&self, out: &mut Vec<u8>)
        ensures
            final(out)@ == old(out)@ + self.bytes(),
    {
        push_le(out, self.count as u64, 4);
        push_digest(out, (self.high, self.low));
        proof {
            assert(out@ =~= old(out)@ + self.bytes());
        }
    }
}

/// The order in which digests are taken in leaves no trace in a fingerprint.
pub proof fn law_fingerprints_forget_order(print: Fingerprint, a: Digest, b: Digest)
    ensures
        print.with(a).with(b) == print.with(b).with(a),
{
    let (x, a0, b0) = (print.high, a.0, b.0);
    assert((x ^ a0) ^ b0 == (x ^ b0) ^ a0) by (bit_vector);
    let (y, a1, b1) = (print.low, a.1, b.1);
    assert((y ^ a1) ^ b1 == (y ^ b1) ^ a1) by (bit_vector);
}

// ---------------------------------------------------------------------------
// Values

/// Numbers of pairs, by where the instances stand. `None` before any instance
/// was paired.
pub type PairNumbers = Option<Seq<Option<usize>>>;

/// A reference as bytes, by the pair of its target or by the way to it.
pub open spec fn reference_text(place: PlaceStructure, target: Ref, pairs: PairNumbers, kind: Seq<char>) -> Seq<u8> {
    if target == NO_REF {
        text_bytes(kind) + text_bytes(":none"@)
    } else {
        match place.place_of(target) {
            None => text_bytes(kind) + text_bytes(":external"@),
            Some(at) => match paired(pairs, at) {
                Some(pair) => text_bytes(kind) + text_bytes(":pair:"@) + le_bytes(pair as nat, 8),
                None => text_bytes(kind) + text_bytes(":locator:"@) + digest_bytes(place.nodes@[at].locator),
            },
        }
    }
}

/// The pair of an instance.
pub open spec fn paired(pairs: PairNumbers, at: int) -> Option<usize> {
    match pairs {
        Some(pairs) => pairs[at],
        None => None,
    }
}

/// What an optional list of pairs stands for.
pub open spec fn pairs_view(pairs: Option<&Vec<Option<usize>>>) -> PairNumbers {
    match pairs {
        Some(pairs) => Some(pairs@),
        None => None,
    }
}

/// The pairs are given for every instance.
pub open spec fn covers(pairs: PairNumbers, all: Seq<PlaceNode>) -> bool {
    pairs matches Some(pairs) ==> pairs.len() == all.len()
}

fn find_pair(pairs: Option<&Vec<Option<usize>>>, at: usize) -> (pair: Option<usize>)
    requires
        pairs_view(pairs) matches Some(list) ==> at < list.len(),
    ensures
        pair == paired(pairs_view(pairs), at as int),
{
    match pairs {
        Some(pairs) => pairs[at],
        None => None,
    }
}

fn push_reference(
    out: &mut Vec<u8>,
    place: &PlaceStructure,
    target: Ref,
    pairs: Option<&Vec<Option<usize>>>,
    kind: &str,
)
    requires
        place.wf(),
        covers(pairs_view(pairs), place.nodes@),
    ensures
        final(out)@ == old(out)@ + reference_text(*place, target, pairs_view(pairs), kind@),
{
    push_text(out, kind);
    if target == NO_REF {
        push_text(out, ":none");
    } else {
        match place.find(target) {
            None => {
                push_text(out, ":external");
            },
            Some(at) => match find_pair(pairs, at) {
                Some(pair) => {
                    push_text(out, ":pair:");
                    push_le(out, pair as u64, 8);
                },
                None => {
                    push_text(out, ":locator:");
                    push_digest(out, place.nodes[at].locator);
                },
            },
        }
    }
    proof {
        assert(out@ =~= old(out)@ + reference_text(*place, target, pairs_view(pairs), kind@));
    }
}

/// A list of texts in order, with one more in its place.
pub open spec fn text_inserted(list: Seq<Seq<char>>, text: Seq<char>) -> Seq<Seq<char>>
    decreases list.len(),
{
    if list.len() == 0 {
        seq![text]
    } else if text_before(text, list.last()) {
        text_inserted(list.drop_last(), text).push(list.last())
    } else {
        list.push(text)
    }
}

/// The texts in order.
pub open spec fn texts_ordered(list: Seq<Seq<char>>) -> Seq<Seq<char>>
    decreases list.len(),
{
    if list.len() == 0 {
        Seq::empty()
    } else {
        text_inserted(texts_ordered(list.drop_last()), list.last())
    }
}

proof fn lemma_text_inserted(list: Seq<Seq<char>>, text: Seq<char>, place: int)
    requires
        0 <= place <= list.len(),
        forall|k: int| place <= k < list.len() ==> text_before(text, #[trigger] list[k]),
        place > 0 ==> !text_before(text, list[place - 1]),
    ensures
        text_inserted(list, text) == list.insert(place, text),
    decreases list.len(),
{
    if list.len() == 0 {
        assert(list.insert(place, text) =~= seq![text]);
    } else if place == list.len() {
        assert(list.insert(place, text) =~= list.push(text));
    } else {
        lemma_text_inserted(list.drop_last(), text, place);
        assert(text_before(text, list[list.len() - 1]));
        assert(list.drop_last().insert(place, text).push(list.last()) =~= list.insert(place, text));
    }
}

fn ordered_texts(list: &Vec<String>) -> (ordered: Vec<String>)
    ensures
        texts(ordered@) == texts_ordered(texts(list@)),
{
    let ghost all = texts(list@);
    let mut ordered: Vec<String> = Vec::new();
    let mut at: usize = 0;
    proof {
        assert(all.take(0) =~= Seq::empty());
        assert(texts(ordered@) =~= texts_ordered(all.take(0)));
    }
    while at < list.len()
        invariant
            at <= list@.len(),
            all == texts(list@),
            texts(ordered@) == texts_ordered(all.take(at as int)),
        decreases list@.len() - at,
    {
        let ghost before = texts(ordered@);
        let mut place: usize = ordered.len();
        while place > 0 && is_before(list[at].as_str(), ordered[place - 1].as_str())
            invariant
                at < list@.len(),
                place <= ordered@.len(),
                forall|k: int| place <= k < ordered@.len() ==> text_before(list@[at as int]@, #[trigger] ordered@[k]@),
            decreases place,
        {
            place = place - 1;
        }
        proof {
            assert forall|k: int| place <= k < before.len() implies text_before(list@[at as int]@, #[trigger] before[k]) by {
                assert(before[k] == ordered@[k]@);
            }
            lemma_text_inserted(before, list@[at as int]@, place as int);
        }
        ordered.insert(place, list[at].clone());
        proof {
            assert(texts(ordered@) =~= before.insert(place as int, list@[at as int]@));
            assert(all.take(at + 1).drop_last() =~= all.take(at as int));
        }
        at = at + 1;
    }
    proof {
        assert(all.take(list@.len() as int) =~= all);
    }
    ordered
}

/// Attributes that tie a place to a session and say nothing of the game.
pub open spec fn transport_attribute(
    place: PlaceStructure,
    class: Seq<char>,
    attributes: Map<Seq<char>, AttributeView>,
    name: Seq<char>,
) -> bool {
    ||| class == "Workspace"@ && worktree_attribute(name) && worktree_contract(attributes)
    ||| place.managed_worktree && name == place.identity_attribute@ && (text_attribute(
        attributes[name],
    ) matches Some(text) && manifest_identity(text))
    ||| place.managed_worktree && class == "ServerStorage"@ && name == "__MCPPlaceId"@ && (text_attribute(
        attributes[name],
    ) matches Some(text) && uuid_reads(text))
}

/// The attributes that the game sees.
pub open spec fn game_attributes(
    place: PlaceStructure,
    class: Seq<char>,
    attributes: Map<Seq<char>, AttributeView>,
) -> Map<Seq<char>, AttributeView> {
    Map::new(
        |name: Seq<char>|
            attributes.dom().contains(name) && !transport_attribute(place, class, attributes, name),
        |name: Seq<char>| attributes[name],
    )
}

fn is_transport_attribute(
    place: &PlaceStructure,
    class: &str,
    attributes: &TextMap<AttributeValue>,
    name: &str,
    value: &AttributeValue,
) -> (transport: bool)
    requires
        attributes.deep().dom().contains(name@),
        attributes.deep()[name@] == value@,
    ensures
        transport == transport_attribute(*place, class@, attributes.deep(), name@),
{
    if class.eq("Workspace") && is_worktree_attribute(name) && has_managed_worktree_contract(attributes) {
        return true;
    }
    if !place.managed_worktree {
        return false;
    }
    match attribute_text(value) {
        None => false,
        Some(text) => (name.eq(place.identity_attribute.as_str()) && is_manifest_identity(text)) || (class.eq(
            "ServerStorage",
        ) && name.eq("__MCPPlaceId") && is_uuid(text)),
    }
}

fn keep_game_attributes(place: &PlaceStructure, class: &str, attributes: &TextMap<AttributeValue>) -> (kept: TextMap<
    AttributeValue,
>)
    ensures
        kept.deep() == game_attributes(*place, class@, attributes.deep()),
{
    let mut kept: TextMap<AttributeValue> = TextMap::new();
    let len: usize = attributes.len();
    let ghost all = attributes.deep();
    let ghost wanted = game_attributes(*place, class@, all);
    proof {
        assert(all.dom() =~= attributes@.dom());
        assert(attributes.keys().take(0).to_set() =~= Set::empty());
        assert(kept.deep() =~= wanted.restrict(attributes.keys().take(0).to_set()));
    }
    let mut at: usize = 0;
    while at < len
        invariant
            at <= len,
            len == attributes.keys().len(),
            attributes.listed(),
            all == attributes.deep(),
            all.dom() == attributes@.dom(),
            wanted == game_attributes(*place, class@, all),
            kept.deep() == wanted.restrict(attributes.keys().take(at as int).to_set()),
        decreases len - at,
    {
        let ghost before = kept.deep();
        let ghost name = attributes.keys()[at as int];
        proof {
            assert(attributes.keys().contains(name));
            assert(attributes.keys().to_set().contains(name));
            assert(all[name] == attributes@[name]@);
            crate::hierarchy::lemma_taken_set(attributes.keys(), at as int);
        }
        let transport: bool = is_transport_attribute(
            place,
            class,
            attributes,
            attributes.key_at(at).as_str(),
            attributes.value_at(at),
        );
        if !transport {
            kept.insert(attributes.key_at(at).clone(), attributes.value_at(at).copy());
            proof {
                assert(kept.deep() =~= before.insert(name, all[name]));
            }
        }
        proof {
            assert(kept.deep() =~= wanted.restrict(attributes.keys().take(at + 1).to_set()));
        }
        at = at + 1;
    }
    proof {
        assert(attributes.keys().take(len as int) =~= attributes.keys());
        assert(kept.deep() =~= wanted);
    }
    kept
}

/// A value of an instance of a class as bytes. `game` leaves out what the game
/// does not see: the order of tags, and attributes that tie the place to a
/// session.
pub open spec fn canonical(
    place: PlaceStructure,
    class: Seq<char>,
    value: VariantView,
    game: bool,
    pairs: PairNumbers,
) -> Seq<u8> {
    match value {
        VariantView::Ref(target) => reference_text(place, target, pairs, "Ref"@),
        VariantView::Object(target) => reference_text(place, target, pairs, "ContentObject"@),
        VariantView::Tags(tags) => value_text(
            VariantView::Tags(
                if game {
                    texts_ordered(tags)
                } else {
                    tags
                },
            ),
        ),
        VariantView::Attributes(attributes) => value_text(
            VariantView::Attributes(
                if game {
                    game_attributes(place, class, attributes)
                } else {
                    attributes
                },
            ),
        ),
        other => value_text(other),
    }
}

/// A value of an instance of a class as bytes.
pub fn canonical_value(
    place: &PlaceStructure,
    class: &str,
    value: &Variant,
    game: bool,
    pairs: Option<&Vec<Option<usize>>>,
) -> (bytes: Vec<u8>)
    requires
        place.wf(),
        covers(pairs_view(pairs), place.nodes@),
    ensures
        bytes@ == canonical(*place, class@, value@, game, pairs_view(pairs)),
{
    let mut bytes: Vec<u8> = Vec::new();
    match value {
        Variant::Ref(target) => {
            push_reference(&mut bytes, place, *target, pairs, "Ref");
        },
        Variant::Object(target) => {
            push_reference(&mut bytes, place, *target, pairs, "ContentObject");
        },
        Variant::Tags(tags) => {
            if game {
                push_value(&mut bytes, &Variant::Tags(ordered_texts(tags)));
            } else {
                push_value(&mut bytes, value);
            }
        },
        Variant::Attributes(attributes) => {
            if game {
                push_value(&mut bytes, &Variant::Attributes(keep_game_attributes(place, class, attributes)));
            } else {
                push_value(&mut bytes, value);
            }
        },
        _ => {
            push_value(&mut bytes, value);
        },
    }
    proof {
        assert(bytes@ =~= canonical(*place, class@, value@, game, pairs_view(pairs)));
    }
    bytes
}

/// The digest of a named value.
pub open spec fn entry(name: Seq<char>, value: Seq<u8>) -> Digest {
    blake3_hash(text_bytes(name) + seq![0u8] + value)
}

fn entry_digest(name: &str, value: &Vec<u8>) -> (digest: Digest)
    ensures
        digest == entry(name@, value@),
{
    let mut text: Vec<u8> = Vec::new();
    push_text(&mut text, name);
    text.push(0);
    push_bytes(&mut text, value.as_slice());
    proof {
        assert(text@ =~= text_bytes(name@) + seq![0u8] + value@);
    }
    blake3_digest(text.as_slice())
}

// ---------------------------------------------------------------------------
// Single instances

/// An instance of the class has the property.
pub open spec fn used(all: Seq<PlaceNode>, class: Seq<char>, name: Seq<char>) -> bool {
    exists|at: int|
        0 <= at < all.len() && (#[trigger] all[at]).class@ == class && all[at].properties.deep().dom().contains(name)
}

/// The properties that instances of a class have.
pub open spec fn used_names(all: Seq<PlaceNode>, class: Seq<char>) -> Set<Seq<char>> {
    Set::new(|name: Seq<char>| used(all, class, name))
}

/// The properties that instances of each class have.
pub struct ClassProperties {
    names: TextMap<TextMap<bool>>,
}

impl ClassProperties {
    pub closed spec fn has(self, class: Seq<char>, name: Seq<char>) -> bool {
        self.names@.dom().contains(class) && self.names@[class]@.dom().contains(name)
    }

    pub open spec fn of(self, all: Seq<PlaceNode>) -> bool {
        forall|class: Seq<char>, name: Seq<char>| #[trigger] self.has(class, name) == used(all, class, name)
    }

    fn note(&mut self, class: &str, properties: &Properties)
        ensures
            forall|other: Seq<char>, name: Seq<char>| #[trigger]
                final(self).has(other, name) == (old(self).has(other, name) || (other == class@
                    && properties.deep().dom().contains(name))),
    {
        let ghost before = *self;
        let mut names: TextMap<bool> = match self.names.remove(class) {
            Some(names) => names,
            None => TextMap::new(),
        };
        let ghost start = names@.dom();
        proof {
            assert(forall|name: Seq<char>| #[trigger] start.contains(name) == before.has(class@, name));
            assert(properties.deep().dom() =~= properties@.dom());
        }
        let len: usize = properties.len();
        let mut at: usize = 0;
        while at < len
            invariant
                at <= len,
                len == properties.keys().len(),
                properties.listed(),
                properties.deep().dom() == properties@.dom(),
                self.names@ == before.names@.remove(class@),
                forall|name: Seq<char>| #[trigger]
                    names@.dom().contains(name) == (start.contains(name) || properties.keys().take(
                        at as int,
                    ).contains(name)),
            decreases len - at,
        {
            names.insert(properties.key_at(at).clone(), true);
            proof {
                let next = properties.keys().take(at + 1);
                let done = properties.keys().take(at as int);
                assert forall|name: Seq<char>| #[trigger]
                    names@.dom().contains(name) == (start.contains(name) || next.contains(name)) by {
                    if done.contains(name) {
                        let k = done.index_of(name);
                        assert(next[k] == name);
                    }
                    assert(next[at as int] == properties.keys()[at as int]);
                    if next.contains(name) {
                        let k = next.index_of(name);
                        if k < at {
                            assert(done[k] == name);
                        }
                    }
                }
            }
            at = at + 1;
        }
        self.names.insert(class.to_owned(), names);
        proof {
            assert(properties.keys().take(len as int) =~= properties.keys());
            assert forall|other: Seq<char>, name: Seq<char>| #[trigger]
                self.has(other, name) == (before.has(other, name) || (other == class@
                    && properties.deep().dom().contains(name))) by {
                assert(properties.keys().to_set().contains(name) == properties.keys().contains(name));
            }
        }
    }

    /// The properties that instances of each class have.
    pub fn gather(place: &PlaceStructure) -> (gathered: Self)
        ensures
            gathered.of(place.nodes@),
    {
        let mut gathered: ClassProperties = ClassProperties { names: TextMap::new() };
        let ghost all = place.nodes@;
        let mut at: usize = 0;
        while at < place.nodes.len()
            invariant
                at <= all.len(),
                all == place.nodes@,
                gathered.of(all.take(at as int)),
            decreases all.len() - at,
        {
            let ghost before = gathered;
            gathered.note(place.nodes[at].class.as_str(), &place.nodes[at].properties);
            proof {
                let next = all.take(at + 1);
                let done = all.take(at as int);
                assert forall|class: Seq<char>, name: Seq<char>| #[trigger]
                    gathered.has(class, name) == used(next, class, name) by {
                    assert(before.has(class, name) == used(done, class, name));
                    if used(done, class, name) {
                        let k = choose|k: int|
                            0 <= k < done.len() && (#[trigger] done[k]).class@ == class
                                && done[k].properties.deep().dom().contains(name);
                        assert(next[k] == done[k]);
                    }
                    assert(next[at as int] == all[at as int]);
                    if used(next, class, name) {
                        let k = choose|k: int|
                            0 <= k < next.len() && (#[trigger] next[k]).class@ == class
                                && next[k].properties.deep().dom().contains(name);
                        if k < at {
                            assert(done[k] == next[k]);
                        }
                    }
                }
            }
            at = at + 1;
        }
        proof {
            assert(all.take(all.len() as int) =~= all);
        }
        gathered
    }

    fn contains(&self, class: &str, name: &str) -> (has: bool)
        ensures
            has == self.has(class@, name@),
    {
        match self.names.get(class) {
            Some(names) => names.contains_key(name),
            None => false,
        }
    }
}

/// What an instance is: by all its properties, and by those that the game sees
/// and that point to no instance.
#[derive(Clone, Copy, Debug, PartialEq, Eq, Structural)]
pub struct OwnPrints {
    pub full: Fingerprint,
    pub local: Fingerprint,
}

impl OwnPrints {
    /// A property more.
    pub open spec fn with(self, place: PlaceStructure, class: Seq<char>, name: Seq<char>, value: VariantView) -> OwnPrints {
        OwnPrints {
            full: self.full.with(entry(name, canonical(place, class, value, false, None))),
            local: if reference_value(value) {
                self.local
            } else {
                self.local.with(entry(name, canonical(place, class, value, true, None)))
            },
        }
    }

    fn take_in(&mut self, place: &PlaceStructure, class: &str, name: &str, value: &Variant)
        requires
            place.wf(),
        ensures
            *final(self) == old(self).with(*place, class@, name@, value@),
    {
        let full: Vec<u8> = canonical_value(place, class, value, false, None);
        self.full.include_digest(entry_digest(name, &full));
        if !is_reference_value(value) {
            let game: Vec<u8> = canonical_value(place, class, value, true, None);
            self.local.include_digest(entry_digest(name, &game));
        }
    }
}

/// The prints of the listed properties of an instance.
pub open spec fn own_prints(place: PlaceStructure, at: int, names: Seq<Seq<char>>) -> OwnPrints
    decreases names.len(),
{
    if names.len() == 0 {
        OwnPrints { full: blank(), local: blank() }
    } else {
        let before = own_prints(place, at, names.drop_last());
        let value = place.nodes@[at].properties.deep()[names.last()];
        if unique_property(names.last(), value) {
            before
        } else {
            before.with(place, place.nodes@[at].class@, names.last(), value)
        }
    }
}

/// The default that stands for a property which the instances of a class have in
/// the other place and in this one never.
pub open spec fn missing_default(
    all: Seq<PlaceNode>,
    reflection: Reflection,
    class: Seq<char>,
    name: Seq<char>,
) -> Option<VariantView> {
    if used(all, class, name) || absence_matters(class, name) {
        None
    } else {
        match reflection.default_of(class, name) {
            Some(value) => if unique_property(name, value) {
                None
            } else {
                Some(value)
            },
            None => None,
        }
    }
}

/// The prints of an instance, with the defaults that stand for the listed
/// properties.
pub open spec fn default_prints(
    place: PlaceStructure,
    reflection: Reflection,
    at: int,
    names: Seq<Seq<char>>,
) -> OwnPrints
    decreases names.len(),
{
    if names.len() == 0 {
        own_prints(place, at, ordered_keys(place.nodes@[at].properties.deep().dom()))
    } else {
        let before = default_prints(place, reflection, at, names.drop_last());
        match missing_default(place.nodes@, reflection, place.nodes@[at].class@, names.last()) {
            Some(value) => before.with(place, place.nodes@[at].class@, names.last(), value),
            None => before,
        }
    }
}

/// The prints of an instance of a place that is compared to another.
pub open spec fn prints(
    place: PlaceStructure,
    other: Seq<PlaceNode>,
    reflection: Reflection,
    at: int,
) -> OwnPrints {
    default_prints(place, reflection, at, ordered_keys(used_names(other, place.nodes@[at].class@)))
}

fn find_own_prints(place: &PlaceStructure, at: usize) -> (found: OwnPrints)
    requires
        place.wf(),
        at < place.nodes@.len(),
    ensures
        found == own_prints(
            *place,
            at as int,
            ordered_keys(place.nodes@[at as int].properties.deep().dom()),
        ),
{
    let node: &PlaceNode = &place.nodes[at];
    let properties: &Properties = &node.properties;
    let len: usize = properties.len();
    let ghost names = properties.keys();
    proof {
        lemma_listed_keys(*properties);
        assert(properties.deep().dom() =~= properties@.dom());
        assert(names.take(0) =~= Seq::empty());
    }
    let mut found: OwnPrints = OwnPrints { full: Fingerprint::blank(), local: Fingerprint::blank() };
    let mut k: usize = 0;
    while k < len
        invariant
            k <= len,
            place.wf(),
            at < place.nodes@.len(),
            *node == place.nodes@[at as int],
            *properties == node.properties,
            len == names.len(),
            names == properties.keys(),
            properties.listed(),
            found == own_prints(*place, at as int, names.take(k as int)),
        decreases len - k,
    {
        proof {
            let next = names.take(k + 1);
            assert(next.drop_last() =~= names.take(k as int));
            assert(names.contains(names[k as int]));
            assert(names.to_set().contains(names[k as int]));
            assert(properties.deep()[names[k as int]] == properties@[names[k as int]]@);
        }
        let name: &str = properties.key_at(k).as_str();
        let value: &Variant = properties.value_at(k);
        if !is_unique_property(name, value) {
            found.take_in(place, node.class.as_str(), name, value);
        }
        k = k + 1;
    }
    proof {
        assert(names.take(len as int) =~= names);
    }
    found
}

fn add_defaults(
    place: &PlaceStructure,
    own: &ClassProperties,
    other: &ClassProperties,
    Ghost(others): Ghost<Seq<PlaceNode>>,
    reflection: &Reflection,
    at: usize,
    found: &mut OwnPrints,
)
    requires
        place.wf(),
        at < place.nodes@.len(),
        own.of(place.nodes@),
        other.of(others),
        *old(found) == default_prints(*place, *reflection, at as int, Seq::empty()),
    ensures
        *final(found) == prints(*place, others, *reflection, at as int),
{
    let class: &str = place.nodes[at].class.as_str();
    let ghost set = used_names(others, class@);
    match other.names.get(class) {
        None => {
            proof {
                assert forall|name: Seq<char>| !set.contains(name) by {
                    assert(other.has(class@, name) == used(others, class@, name));
                }
            
                assert(set =~= Set::empty());
                lemma_no_keys();
            }
        },
        Some(list) => {
            let len: usize = list.len();
            let ghost names = list.keys();
            proof {
                lemma_listed_keys(*list);
                assert(list@.dom() =~= set) by {
                    assert forall|name: Seq<char>| list@.dom().contains(name) == set.contains(name) by {
                        assert(other.has(class@, name) == used(others, class@, name));
                    }
                }
                assert(names.take(0) =~= Seq::empty());
            }
            let mut k: usize = 0;
            while k < len
                invariant
                    k <= len,
                    place.wf(),
                    at < place.nodes@.len(),
                    class@ == place.nodes@[at as int].class@,
                    own.of(place.nodes@),
                    len == names.len(),
                    names == list.keys(),
                    list.listed(),
                    *found == default_prints(*place, *reflection, at as int, names.take(k as int)),
                decreases len - k,
            {
                let name: &str = list.key_at(k).as_str();
                proof {
                    let next = names.take(k + 1);
                    assert(next.drop_last() =~= names.take(k as int));
                    assert(own.has(class@, name@) == used(place.nodes@, class@, name@));
                }
                if !own.contains(class, name) && !absence_changes_engine_load(class, name) {
                    match reflection.reflection_default(class, name) {
                        Some(value) => {
                            if !is_unique_property(name, value) {
                                found.take_in(place, class, name, value);
                            }
                        },
                        None => {},
                    }
                }
                k = k + 1;
            }
            proof {
                assert(names.take(len as int) =~= names);
            }
        },
    }
}

proof fn lemma_no_keys()
    ensures
        ordered_keys(Set::empty()) == Seq::<Seq<char>>::empty(),
{
    let none = Seq::<Seq<char>>::empty();
    assert(none.to_set() =~= Set::empty());
    assert(crate::text_map::keys_ordered(none) && none.to_set() == Set::<Seq<char>>::empty());
    let keys = ordered_keys(Set::empty());
    if keys.len() > 0 {
        assert(keys.to_set().contains(keys[0]));
    }
    assert(keys =~= none);
}

/// The prints of all instances of a place that is compared to another.
pub open spec fn all_prints(place: PlaceStructure, other: Seq<PlaceNode>, reflection: Reflection) -> Seq<OwnPrints> {
    Seq::new(place.nodes@.len(), |at: int| prints(place, other, reflection, at))
}

/// The prints of all instances of a place that is compared to another.
pub(crate) fn fingerprint(
    place: &PlaceStructure,
    own: &ClassProperties,
    other: &ClassProperties,
    Ghost(others): Ghost<Seq<PlaceNode>>,
    reflection: &Reflection,
) -> (found: Vec<OwnPrints>)
    requires
        place.wf(),
        own.of(place.nodes@),
        other.of(others),
    ensures
        found@ == all_prints(*place, others, *reflection),
{
    let mut found: Vec<OwnPrints> = Vec::new();
    let mut at: usize = 0;
    while at < place.nodes.len()
        invariant
            at <= place.nodes@.len(),
            place.wf(),
            own.of(place.nodes@),
            other.of(others),
            found@.len() == at,
            forall|k: int| 0 <= k < at ==> #[trigger] found@[k] == prints(*place, others, *reflection, k),
        decreases place.nodes@.len() - at,
    {
        let mut print: OwnPrints = find_own_prints(place, at);
        add_defaults(place, own, other, Ghost(others), reflection, at, &mut print);
        found.push(print);
        at = at + 1;
    }
    proof {
        assert(found@ =~= all_prints(*place, others, *reflection));
    }
    found
}

// ---------------------------------------------------------------------------
// Identifiers and cameras

/// The fingerprint of the identifiers among the listed properties.
pub open spec fn unique_prints(place: PlaceStructure, at: int, names: Seq<Seq<char>>, start: Fingerprint) -> Fingerprint
    decreases names.len(),
{
    if names.len() == 0 {
        start
    } else {
        let before = unique_prints(place, at, names.drop_last(), start);
        let value = place.nodes@[at].properties.deep()[names.last()];
        if unique_property(names.last(), value) {
            before.with(entry(names.last(), canonical(place, place.nodes@[at].class@, value, false, None)))
        } else {
            before
        }
    }
}

/// The fingerprint of the identifiers of the first `count` instances.
pub open spec fn unique_ids(place: PlaceStructure, count: nat) -> Fingerprint
    decreases count,
{
    if count == 0 {
        blank()
    } else {
        unique_prints(
            place,
            count - 1,
            ordered_keys(place.nodes@[count - 1].properties.deep().dom()),
            unique_ids(place, (count - 1) as nat),
        )
    }
}

fn add_unique(place: &PlaceStructure, at: usize, print: &mut Fingerprint)
    requires
        place.wf(),
        at < place.nodes@.len(),
    ensures
        *final(print) == unique_prints(
            *place,
            at as int,
            ordered_keys(place.nodes@[at as int].properties.deep().dom()),
            *old(print),
        ),
{
    let node: &PlaceNode = &place.nodes[at];
    let properties: &Properties = &node.properties;
    let len: usize = properties.len();
    let ghost names = properties.keys();
    let ghost start = *print;
    proof {
        lemma_listed_keys(*properties);
        assert(properties.deep().dom() =~= properties@.dom());
        assert(names.take(0) =~= Seq::empty());
    }
    let mut k: usize = 0;
    while k < len
        invariant
            k <= len,
            place.wf(),
            at < place.nodes@.len(),
            *node == place.nodes@[at as int],
            *properties == node.properties,
            len == names.len(),
            names == properties.keys(),
            properties.listed(),
            *print == unique_prints(*place, at as int, names.take(k as int), start),
        decreases len - k,
    {
        proof {
            let next = names.take(k + 1);
            assert(next.drop_last() =~= names.take(k as int));
            assert(names.contains(names[k as int]));
            assert(names.to_set().contains(names[k as int]));
            assert(properties.deep()[names[k as int]] == properties@[names[k as int]]@);
        }
        let name: &str = properties.key_at(k).as_str();
        let value: &Variant = properties.value_at(k);
        if is_unique_property(name, value) {
            let bytes: Vec<u8> = canonical_value(place, node.class.as_str(), value, false, None);
            print.include_digest(entry_digest(name, &bytes));
        }
        k = k + 1;
    }
    proof {
        assert(names.take(len as int) =~= names);
    }
}

/// The fingerprint of all identifiers of a place.
pub fn find_unique_ids(place: &PlaceStructure) -> (print: Fingerprint)
    requires
        place.wf(),
    ensures
        print == unique_ids(*place, place.nodes@.len()),
{
    let mut print: Fingerprint = Fingerprint::blank();
    let mut at: usize = 0;
    while at < place.nodes.len()
        invariant
            at <= place.nodes@.len(),
            place.wf(),
            print == unique_ids(*place, at as nat),
        decreases place.nodes@.len() - at,
    {
        add_unique(place, at, &mut print);
        at = at + 1;
    }
    print
}

/// The camera through which the author looks at the place.
pub open spec fn edit_camera(place: PlaceStructure, camera: int) -> bool {
    exists|at: int|
        0 <= at < place.nodes@.len() && (#[trigger] place.nodes@[at]).class@ == "Workspace"@
            && looks_through(place, at, camera)
}

/// A workspace shows the place through a camera.
pub open spec fn looks_through(place: PlaceStructure, at: int, camera: int) -> bool {
    let properties = place.nodes@[at].properties.deep();
    properties.dom().contains("CurrentCamera"@) && (properties["CurrentCamera"@] matches VariantView::Ref(target)
        && place.place_of(target) == Some(camera))
}

/// Which instances are cameras through which the author looks at the place.
pub fn find_edit_cameras(place: &PlaceStructure) -> (cameras: Vec<bool>)
    requires
        place.wf(),
    ensures
        cameras@.len() == place.nodes@.len(),
        forall|k: int| 0 <= k < cameras@.len() ==> #[trigger] cameras@[k] == edit_camera(*place, k),
{
    let mut cameras: Vec<bool> = Vec::new();
    let mut fill: usize = 0;
    while fill < place.nodes.len()
        invariant
            fill <= place.nodes@.len(),
            cameras@.len() == fill,
            forall|k: int| 0 <= k < fill ==> #[trigger] cameras@[k] == false,
        decreases place.nodes@.len() - fill,
    {
        cameras.push(false);
        fill = fill + 1;
    }
    let ghost all = place.nodes@;
    let mut at: usize = 0;
    while at < place.nodes.len()
        invariant
            at <= all.len(),
            all == place.nodes@,
            place.wf(),
            cameras@.len() == all.len(),
            forall|k: int|
                0 <= k < cameras@.len() ==> #[trigger] cameras@[k] == exists|w: int|
                    0 <= w < at && (#[trigger] all[w]).class@ == "Workspace"@ && looks_through(*place, w, k),
        decreases all.len() - at,
    {
        let ghost before = cameras@;
        if place.nodes[at].class.as_str().eq("Workspace") {
            match crate::place::find_property(&place.nodes[at].properties, "CurrentCamera") {
                Some(value) => match value {
                    Variant::Ref(target) => match place.find(*target) {
                        Some(camera) => {
                            cameras.set(camera, true);
                        },
                        None => {},
                    },
                    _ => {},
                },
                None => {},
            }
        }
        proof {
            assert forall|k: int| 0 <= k < cameras@.len() implies #[trigger] cameras@[k] == exists|w: int|
                0 <= w < at + 1 && (#[trigger] all[w]).class@ == "Workspace"@ && looks_through(*place, w, k) by {
                let _ = before[k];
                if before[k] {
                    let w = choose|w: int|
                        0 <= w < at && (#[trigger] all[w]).class@ == "Workspace"@ && looks_through(*place, w, k);
                    assert(0 <= w < at + 1 && all[w].class@ == "Workspace"@ && looks_through(*place, w, k));
                }
                if all[at as int].class@ == "Workspace"@ && looks_through(*place, at as int, k) {
                    assert(cameras@[k]);
                }
            }
        }
        at = at + 1;
    }
    cameras
}

// ---------------------------------------------------------------------------
// Subtrees

/// The digest of a child by its class, its name and the fingerprint of its
/// subtree.
pub open spec fn child_entry(all: Seq<PlaceNode>, child: int, print: Fingerprint) -> Digest {
    blake3_hash(
        text_bytes("carbon-place-diff-subtree-v1\0"@) + text_bytes(all[child].class@) + seq![0u8] + text_bytes(
            all[child].name@,
        ) + seq![0u8] + print.bytes(),
    )
}

/// The fingerprint of a subtree: of the instance itself, of its references where
/// they are given, and of its children in any order.
pub open spec fn subtree_of(
    all: Seq<PlaceNode>,
    own: Seq<OwnPrints>,
    references: Option<Seq<Fingerprint>>,
    at: int,
) -> Fingerprint
    decreases all.len() - at, 1nat, 0nat,
    when 0 <= at < all.len()
{
    subtrees_of(all, own, references, at, all[at].children@)
}

/// The fingerprint of an instance with the listed children.
pub open spec fn subtrees_of(
    all: Seq<PlaceNode>,
    own: Seq<OwnPrints>,
    references: Option<Seq<Fingerprint>>,
    at: int,
    list: Seq<usize>,
) -> Fingerprint
    decreases all.len() - at, 0nat, list.len(),
    when 0 <= at < all.len()
{
    if list.len() == 0 {
        match references {
            Some(references) => own[at].local.joined(references[at]),
            None => own[at].local,
        }
    } else if at < list.last() < all.len() {
        subtrees_of(all, own, references, at, list.drop_last()).with(
            child_entry(all, list.last() as int, subtree_of(all, own, references, list.last() as int)),
        )
    } else {
        blank()
    }
}

/// The fingerprints of all subtrees.
pub open spec fn subtrees(
    all: Seq<PlaceNode>,
    own: Seq<OwnPrints>,
    references: Option<Seq<Fingerprint>>,
) -> Seq<Fingerprint> {
    Seq::new(all.len(), |at: int| subtree_of(all, own, references, at))
}

/// What optional fingerprints stand for.
pub open spec fn prints_view(prints: Option<&Vec<Fingerprint>>) -> Option<Seq<Fingerprint>> {
    match prints {
        Some(prints) => Some(prints@),
        None => None,
    }
}

fn child_digest(node: &PlaceNode, print: &Fingerprint, Ghost(all): Ghost<Seq<PlaceNode>>, Ghost(child): Ghost<int>) -> (digest:
    Digest)
    requires
        *node == all[child],
    ensures
        digest == child_entry(all, child, *print),
{
    let mut text: Vec<u8> = Vec::new();
    push_text(&mut text, "carbon-place-diff-subtree-v1\0");
    push_text(&mut text, node.class.as_str());
    text.push(0);
    push_text(&mut text, node.name.as_str());
    text.push(0);
    print.push(&mut text);
    proof {
        assert(text@ =~= text_bytes("carbon-place-diff-subtree-v1\0"@) + text_bytes(all[child].class@) + seq![0u8]
            + text_bytes(all[child].name@) + seq![0u8] + print.bytes());
    }
    blake3_digest(text.as_slice())
}

/// The fingerprints of all subtrees.
pub fn fill_subtree_fingerprints(
    place: &PlaceStructure,
    own: &Vec<OwnPrints>,
    references: Option<&Vec<Fingerprint>>,
) -> (found: Vec<Fingerprint>)
    requires
        place.wf(),
        own@.len() == place.nodes@.len(),
        prints_view(references) matches Some(list) ==> list.len() == place.nodes@.len(),
    ensures
        found@ == subtrees(place.nodes@, own@, prints_view(references)),
{
    let ghost all = place.nodes@;
    let ghost refs = prints_view(references);
    let mut found: Vec<Fingerprint> = Vec::new();
    let mut fill: usize = 0;
    let len: usize = place.nodes.len();
    while fill < len
        invariant
            fill <= len,
            found@.len() == fill,
        decreases len - fill,
    {
        found.push(Fingerprint::blank());
        fill = fill + 1;
    }
    let mut at: usize = len;
    while at > 0
        invariant
            at <= len,
            len == all.len(),
            all == place.nodes@,
            place.wf(),
            own@.len() == len,
            refs == prints_view(references),
            refs matches Some(list) ==> list.len() == len,
            found@.len() == len,
            forall|k: int| at <= k < len ==> #[trigger] found@[k] == subtree_of(all, own@, refs, k),
        decreases at,
    {
        at = at - 1;
        let ghost before = found@;
        let mut print: Fingerprint = own[at].local;
        match references {
            Some(list) => {
                print.merge(list[at]);
            },
            None => {},
        }
        let ghost list = all[at as int].children@;
        let mut k: usize = 0;
        proof {
            assert(list.take(0) =~= Seq::empty());
            assert(placed(all, at as int));
        }
        while k < place.nodes[at].children.len()
            invariant
                at < len,
                len == all.len(),
                all == place.nodes@,
                list == all[at as int].children@,
                k <= list.len(),
                placed(all, at as int),
                found@.len() == len,
                forall|j: int| at < j < len ==> #[trigger] found@[j] == subtree_of(all, own@, refs, j),
                print == subtrees_of(all, own@, refs, at as int, list.take(k as int)),
            decreases list.len() - k,
        {
            let child: usize = place.nodes[at].children[k];
            proof {
                assert(is_child(all, at as int, k as int, list[k as int] as int));
                assert(list.take(k + 1).drop_last() =~= list.take(k as int));
                assert(found@[child as int] == subtree_of(all, own@, refs, child as int));
            }
            print.include_digest(child_digest(&place.nodes[child], &found[child], Ghost(all), Ghost(child as int)));
            k = k + 1;
        }
        proof {
            assert(list.take(list.len() as int) =~= list);
        }
        found.set(at, print);
    }
    proof {
        assert(found@ =~= subtrees(all, own@, refs));
    }
    found
}

/// The digest of the way to an instance, of what it is and of what is below it.
pub open spec fn structural_locator(all: Seq<PlaceNode>, trees: Seq<Fingerprint>, at: int) -> Digest
    decreases at,
{
    let above = match all[at].parent {
        Some(parent) => if parent < at {
            digest_bytes(structural_locator(all, trees, parent as int))
        } else {
            Seq::empty()
        },
        None => Seq::empty(),
    };
    blake3_hash(
        text_bytes("carbon-place-diff-structural-locator-v1\0"@) + above + text_bytes(all[at].class@) + seq![0u8]
            + text_bytes(all[at].name@) + seq![0u8] + trees[at].bytes(),
    )
}

pub open spec fn structural_locators(all: Seq<PlaceNode>, trees: Seq<Fingerprint>) -> Seq<Digest> {
    Seq::new(all.len(), |at: int| structural_locator(all, trees, at))
}

/// The digests of the ways to all instances.
pub fn fill_structural_locators(place: &PlaceStructure, trees: &Vec<Fingerprint>) -> (found: Vec<Digest>)
    requires
        place.wf(),
        trees@.len() == place.nodes@.len(),
    ensures
        found@ == structural_locators(place.nodes@, trees@),
{
    let ghost all = place.nodes@;
    let mut found: Vec<Digest> = Vec::new();
    let mut at: usize = 0;
    while at < place.nodes.len()
        invariant
            at <= all.len(),
            all == place.nodes@,
            place.wf(),
            trees@.len() == all.len(),
            found@.len() == at,
            forall|k: int| 0 <= k < at ==> #[trigger] found@[k] == structural_locator(all, trees@, k),
        decreases all.len() - at,
    {
        proof {
            assert(placed(all, at as int));
        }
        let node: &PlaceNode = &place.nodes[at];
        let mut text: Vec<u8> = Vec::new();
        push_text(&mut text, "carbon-place-diff-structural-locator-v1\0");
        match node.parent {
            Some(parent) => {
                push_digest(&mut text, found[parent]);
            },
            None => {},
        }
        push_text(&mut text, node.class.as_str());
        text.push(0);
        push_text(&mut text, node.name.as_str());
        text.push(0);
        trees[at].push(&mut text);
        proof {
            let above = match all[at as int].parent {
                Some(parent) => digest_bytes(structural_locator(all, trees@, parent as int)),
                None => Seq::empty(),
            };
            assert(text@ =~= text_bytes("carbon-place-diff-structural-locator-v1\0"@) + above + text_bytes(
                all[at as int].class@,
            ) + seq![0u8] + text_bytes(all[at as int].name@) + seq![0u8] + trees@[at as int].bytes());
        }
        found.push(blake3_digest(text.as_slice()));
        at = at + 1;
    }
    proof {
        assert(found@ =~= structural_locators(all, trees@));
    }
    found
}

// ---------------------------------------------------------------------------
// References

/// A reference by the pair of its target or by what the target is.
pub open spec fn target_text(
    place: PlaceStructure,
    locators: Seq<Digest>,
    pairs: PairNumbers,
    value: VariantView,
) -> Seq<u8> {
    let (kind, target) = match value {
        VariantView::Ref(target) => (text_bytes("Ref"@), target),
        VariantView::Object(target) => (text_bytes("ContentObject"@), target),
        _ => (Seq::empty(), NO_REF),
    };
    if target == NO_REF {
        kind + text_bytes(":none"@)
    } else {
        match place.place_of(target) {
            None => kind + text_bytes(":external"@),
            Some(at) => match paired(pairs, at) {
                Some(pair) => kind + text_bytes(":pair:"@) + le_bytes(pair as nat, 8),
                None => kind + text_bytes(":target:"@) + digest_bytes(locators[at]),
            },
        }
    }
}

/// The fingerprint of the references among the listed properties.
pub open spec fn reference_prints(
    place: PlaceStructure,
    locators: Seq<Digest>,
    pairs: PairNumbers,
    at: int,
    names: Seq<Seq<char>>,
) -> Fingerprint
    decreases names.len(),
{
    if names.len() == 0 {
        blank()
    } else {
        let before = reference_prints(place, locators, pairs, at, names.drop_last());
        let value = place.nodes@[at].properties.deep()[names.last()];
        if reference_value(value) && !unique_property(names.last(), value) {
            before.with(entry(names.last(), target_text(place, locators, pairs, value)))
        } else {
            before
        }
    }
}

/// The fingerprint of the references of an instance.
pub open spec fn references_of(
    place: PlaceStructure,
    locators: Seq<Digest>,
    pairs: PairNumbers,
    at: int,
) -> Fingerprint {
    reference_prints(place, locators, pairs, at, ordered_keys(place.nodes@[at].properties.deep().dom()))
}

pub open spec fn references(place: PlaceStructure, locators: Seq<Digest>, pairs: PairNumbers) -> Seq<Fingerprint> {
    Seq::new(place.nodes@.len(), |at: int| references_of(place, locators, pairs, at))
}

fn find_target_text(
    place: &PlaceStructure,
    locators: &Vec<Digest>,
    pairs: Option<&Vec<Option<usize>>>,
    value: &Variant,
) -> (text: Vec<u8>)
    requires
        place.wf(),
        locators@.len() == place.nodes@.len(),
        covers(pairs_view(pairs), place.nodes@),
    ensures
        text@ == target_text(*place, locators@, pairs_view(pairs), value@),
{
    let mut text: Vec<u8> = Vec::new();
    let target: Ref = match value {
        Variant::Ref(target) => {
            push_text(&mut text, "Ref");
            *target
        },
        Variant::Object(target) => {
            push_text(&mut text, "ContentObject");
            *target
        },
        _ => NO_REF,
    };
    if target == NO_REF {
        push_text(&mut text, ":none");
    } else {
        match place.find(target) {
            None => {
                push_text(&mut text, ":external");
            },
            Some(at) => match find_pair(pairs, at) {
                Some(pair) => {
                    push_text(&mut text, ":pair:");
                    push_le(&mut text, pair as u64, 8);
                },
                None => {
                    push_text(&mut text, ":target:");
                    push_digest(&mut text, locators[at]);
                },
            },
        }
    }
    proof {
        assert(text@ =~= target_text(*place, locators@, pairs_view(pairs), value@));
    }
    text
}

fn find_references(
    place: &PlaceStructure,
    locators: &Vec<Digest>,
    pairs: Option<&Vec<Option<usize>>>,
    at: usize,
) -> (print: Fingerprint)
    requires
        place.wf(),
        at < place.nodes@.len(),
        locators@.len() == place.nodes@.len(),
        covers(pairs_view(pairs), place.nodes@),
    ensures
        print == references_of(*place, locators@, pairs_view(pairs), at as int),
{
    let properties: &Properties = &place.nodes[at].properties;
    let len: usize = properties.len();
    let ghost names = properties.keys();
    proof {
        lemma_listed_keys(*properties);
        assert(properties.deep().dom() =~= properties@.dom());
        assert(names.take(0) =~= Seq::empty());
    }
    let mut print: Fingerprint = Fingerprint::blank();
    let mut k: usize = 0;
    while k < len
        invariant
            k <= len,
            place.wf(),
            at < place.nodes@.len(),
            locators@.len() == place.nodes@.len(),
            covers(pairs_view(pairs), place.nodes@),
            *properties == place.nodes@[at as int].properties,
            len == names.len(),
            names == properties.keys(),
            properties.listed(),
            print == reference_prints(*place, locators@, pairs_view(pairs), at as int, names.take(k as int)),
        decreases len - k,
    {
        proof {
            let next = names.take(k + 1);
            assert(next.drop_last() =~= names.take(k as int));
            assert(names.contains(names[k as int]));
            assert(names.to_set().contains(names[k as int]));
            assert(properties.deep()[names[k as int]] == properties@[names[k as int]]@);
        }
        let name: &str = properties.key_at(k).as_str();
        let value: &Variant = properties.value_at(k);
        if is_reference_value(value) && !is_unique_property(name, value) {
            let text: Vec<u8> = find_target_text(place, locators, pairs, value);
            print.include_digest(entry_digest(name, &text));
        }
        k = k + 1;
    }
    proof {
        assert(names.take(len as int) =~= names);
    }
    print
}

/// The fingerprints of the references of all instances.
pub fn fill_reference_fingerprints(
    place: &PlaceStructure,
    locators: &Vec<Digest>,
    pairs: Option<&Vec<Option<usize>>>,
) -> (found: Vec<Fingerprint>)
    requires
        place.wf(),
        locators@.len() == place.nodes@.len(),
        covers(pairs_view(pairs), place.nodes@),
    ensures
        found@ == references(*place, locators@, pairs_view(pairs)),
{
    let mut found: Vec<Fingerprint> = Vec::new();
    let mut at: usize = 0;
    while at < place.nodes.len()
        invariant
            at <= place.nodes@.len(),
            place.wf(),
            locators@.len() == place.nodes@.len(),
            covers(pairs_view(pairs), place.nodes@),
            found@.len() == at,
            forall|k: int|
                0 <= k < at ==> #[trigger] found@[k] == references_of(*place, locators@, pairs_view(pairs), k),
        decreases place.nodes@.len() - at,
    {
        found.push(find_references(place, locators, pairs, at));
        at = at + 1;
    }
    proof {
        assert(found@ =~= references(*place, locators@, pairs_view(pairs)));
    }
    found
}

} // verus!
