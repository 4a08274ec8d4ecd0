//! Attributes: reading them, comparing them and taking out those of a session.

use crate::place_values::{is_uuid, utf8_text, uuid_reads};
use crate::text::{same_bytes, starts_with, text_bytes};
use crate::text_map::{Plain, TextMap};
use crate::variant::{
    are_bytes_equal, are_values_equal, bytes_equal, values_equal, AttributeValue, AttributeView, Properties, Variant,
    VariantView,
};
use rbx_dom_weak::types;
use vstd::prelude::*;
use vstd::string::StringSliceAdditionalSpecFns;
use vstd::utf8::{decode_utf8, valid_utf8};

verus! {

/// The attributes that a serialized payload holds, in the order of their names,
/// where it can be read.
pub uninterp spec fn attributes_read(bytes: Seq<u8>) -> Option<Seq<(Seq<char>, AttributeView)>>;

/// Names and values.
pub open spec fn entries_view(list: Seq<(String, AttributeValue)>) -> Seq<(Seq<char>, AttributeView)> {
    list.map_values(|entry: (String, AttributeValue)| (entry.0@, entry.1@))
}

/// `Attributes::from_reader` of `rbx_types`: what a payload holds is a function
/// of its bytes alone. A value that is no string is carried as the name of its
/// type and the bytes that stand for it in a payload.
#[verifier::external_body]
fn read_attributes(bytes: &[u8]) -> (entries: Option<Vec<(String, AttributeValue)>>)
    ensures
        match attributes_read(bytes@) {
            Some(expected) => entries matches Some(found) && entries_view(found@) == expected,
            None => entries is None,
        },
{
    let convert = |value: &types::Variant| match value {
        types::Variant::String(text) => AttributeValue::String(text.clone()),
        types::Variant::BinaryString(raw) => AttributeValue::BinaryString(raw.clone().into_vec()),
        other => {
            let mut payload = Vec::new();
            let _ = types::Attributes::new().with("", other.clone()).to_writer(&mut payload);
            let bytes = payload.get(9..).unwrap_or_default().to_vec();
            AttributeValue::Opaque { kind: format!("{:?}", other.ty()), bytes }
        },
    };
    let attributes = types::Attributes::from_reader(bytes).ok()?;
    Some(attributes.iter().map(|(name, value)| (name.clone(), convert(value))).collect())
}

/// Names and values as a map. Of several values of one name the last counts.
pub open spec fn entries_map(list: Seq<(Seq<char>, AttributeView)>) -> Map<Seq<char>, AttributeView>
    decreases list.len(),
{
    if list.len() == 0 {
        Map::empty()
    } else {
        entries_map(list.drop_last()).insert(list.last().0, list.last().1)
    }
}

/// The attributes that a value holds, where it is or serializes attributes.
pub open spec fn decoded(value: VariantView) -> Option<Map<Seq<char>, AttributeView>> {
    match value {
        VariantView::Attributes(attributes) => Some(attributes),
        VariantView::BinaryString(raw) => match attributes_read(raw) {
            Some(entries) => Some(entries_map(entries)),
            None => None,
        },
        _ => None,
    }
}

/// The attributes that a value holds, where it is or serializes attributes.
pub fn decode(value: &Variant) -> (attributes: Option<TextMap<AttributeValue>>)
    ensures
        match decoded(value@) {
            Some(expected) => attributes matches Some(found) && found.deep() == expected,
            None => attributes is None,
        },
{
    match value {
        Variant::Attributes(attributes) => Some(attributes.copy()),
        Variant::BinaryString(raw) => match read_attributes(raw.as_slice()) {
            None => None,
            Some(entries) => {
                let ghost all = entries_view(entries@);
                let mut map: TextMap<AttributeValue> = TextMap::new();
                let mut at: usize = 0;
                proof {
                    assert(all.take(0) =~= Seq::empty());
                    assert(map.deep() =~= entries_map(all.take(0)));
                }
                while at < entries.len()
                    invariant
                        at <= entries@.len(),
                        all == entries_view(entries@),
                        map.deep() == entries_map(all.take(at as int)),
                    decreases entries@.len() - at,
                {
                    let ghost before = map.deep();
                    map.insert(entries[at].0.clone(), entries[at].1.copy());
                    proof {
                        let next = all.take(at + 1);
                        assert(next.drop_last() =~= all.take(at as int));
                        assert(next.last() == (entries@[at as int].0@, entries@[at as int].1@));
                        assert(map.deep() =~= before.insert(next.last().0, next.last().1));
                    }
                    at = at + 1;
                }
                proof {
                    assert(all.take(entries@.len() as int) =~= all);
                }
                Some(map)
            },
        },
        _ => None,
    }
}

// ---------------------------------------------------------------------------
// Comparison

/// Two attribute values are the same, whether or not a text is carried as bytes.
pub open spec fn attribute_alike(left: AttributeView, right: AttributeView) -> bool {
    match (left, right) {
        (AttributeView::String(text), AttributeView::BinaryString(bytes)) => bytes == text_bytes(text),
        (AttributeView::BinaryString(bytes), AttributeView::String(text)) => bytes == text_bytes(text),
        (AttributeView::Opaque { kind, bytes }, AttributeView::Opaque { kind: other, bytes: others }) => kind == other
            && bytes_equal(kind, bytes, others),
        _ => left == right,
    }
}

/// Whether two attribute values are the same, whether or not a text is carried
/// as bytes.
pub fn mapped_attribute_value_equal(left: &AttributeValue, right: &AttributeValue) -> (alike: bool)
    ensures
        alike == attribute_alike(left@, right@),
{
    match (left, right) {
        (AttributeValue::String(text), AttributeValue::BinaryString(bytes)) => same_bytes(
            bytes.as_slice(),
            text.as_str().as_bytes(),
        ),
        (AttributeValue::BinaryString(bytes), AttributeValue::String(text)) => same_bytes(
            bytes.as_slice(),
            text.as_str().as_bytes(),
        ),
        (
            AttributeValue::Opaque { kind, bytes },
            AttributeValue::Opaque { kind: other, bytes: others },
        ) => kind.as_str().eq(other.as_str()) && are_bytes_equal(kind.as_str(), bytes.as_slice(), others.as_slice()),
        _ => left.same(right),
    }
}

/// Two sets of attributes have the same names with the same values.
pub open spec fn maps_alike(left: Map<Seq<char>, AttributeView>, right: Map<Seq<char>, AttributeView>) -> bool {
    &&& left.dom() =~= right.dom()
    &&& forall|name: Seq<char>| #[trigger] left.dom().contains(name) ==> attribute_alike(left[name], right[name])
}

/// Two values hold the same attributes.
pub open spec fn attributes_alike(left: VariantView, right: VariantView) -> bool {
    match (decoded(left), decoded(right)) {
        (Some(left), Some(right)) => maps_alike(left, right),
        _ => values_equal(left, right),
    }
}

fn same_maps(left: &TextMap<AttributeValue>, right: &TextMap<AttributeValue>) -> (alike: bool)
    ensures
        alike == maps_alike(left.deep(), right.deep()),
{
    let len: usize = left.len();
    let other: usize = right.len();
    proof {
        assert(left.deep().dom() =~= left@.dom());
        assert(right.deep().dom() =~= right@.dom());
        left.keys().unique_seq_to_set();
        right.keys().unique_seq_to_set();
    }
    if len != other {
        return false;
    }
    let mut at: usize = 0;
    while at < len
        invariant
            at <= len,
            len == left.keys().len(),
            left.listed(),
            left.deep().dom() == left@.dom(),
            right.deep().dom() == right@.dom(),
            forall|k: int|
                0 <= k < at ==> right.deep().dom().contains(#[trigger] left.keys()[k]) && attribute_alike(
                    left.deep()[left.keys()[k]],
                    right.deep()[left.keys()[k]],
                ),
        decreases len - at,
    {
        let ghost name = left.keys()[at as int];
        proof {
            assert(left.keys().contains(name));
            assert(left.keys().to_set().contains(name));
            assert(left.deep().dom().contains(name));
            assert(left.deep()[name] == left@[name]@);
        }
        match right.get(left.key_at(at).as_str()) {
            Some(value) => {
                if !mapped_attribute_value_equal(left.value_at(at), value) {
                    return false;
                }
            },
            None => {
                return false;
            },
        }
        at = at + 1;
    }
    proof {
        assert forall|name: Seq<char>| #[trigger] left.deep().dom().contains(name) implies right.deep().dom().contains(
            name,
        ) && attribute_alike(left.deep()[name], right.deep()[name]) by {
            assert(left.keys().to_set().contains(name));
            let k = left.keys().index_of(name);
            assert(left.keys()[k] == name);
        }
        assert(left.deep().dom().subset_of(right.deep().dom()));
        vstd::set_lib::lemma_subset_equality(left.deep().dom(), right.deep().dom());
    }
    true
}

/// Whether two values hold the same attributes.
pub fn mapped_attributes_equal(left: &Variant, right: &Variant) -> (alike: bool)
    ensures
        alike == attributes_alike(left@, right@),
{
    match (decode(left), decode(right)) {
        (Some(left), Some(right)) => same_maps(&left, &right),
        _ => are_values_equal(left, right),
    }
}

// ---------------------------------------------------------------------------
// Attributes of a session

/// The attribute that names the place of a session.
pub open spec fn names_route(value: AttributeView, marker: Seq<char>) -> bool {
    match value {
        AttributeView::String(text) => text == marker || uuid_reads(text),
        AttributeView::BinaryString(bytes) => bytes == text_bytes(marker) || (valid_utf8(bytes) && uuid_reads(
            decode_utf8(bytes),
        )),
        AttributeView::Opaque { .. } => false,
    }
}

/// Attributes that the session of a marker put there.
pub open spec fn session_attribute(
    attributes: Map<Seq<char>, AttributeView>,
    marker: Seq<char>,
    name: Seq<char>,
) -> bool {
    attributes.dom().contains(name) && ((name == "__MCPPlaceId"@ && names_route(attributes[name], marker))
        || crate::place_values::worktree_attribute(name))
}

/// Attributes without those of a session.
pub open spec fn authored_attributes(attributes: Map<Seq<char>, AttributeView>, marker: Seq<char>) -> Map<
    Seq<char>,
    AttributeView,
> {
    attributes.remove_keys(Set::new(|name: Seq<char>| session_attribute(attributes, marker, name)))
}

/// Attributes hold something of a session.
pub open spec fn has_session(attributes: Map<Seq<char>, AttributeView>, marker: Seq<char>) -> bool {
    exists|name: Seq<char>| #[trigger] session_attribute(attributes, marker, name)
}

fn is_route(value: &AttributeValue, marker: &str) -> (route: bool)
    ensures
        route == names_route(value@, marker@),
{
    match value {
        AttributeValue::String(text) => text.as_str().eq(marker) || is_uuid(text.as_str()),
        AttributeValue::BinaryString(bytes) => {
            if same_bytes(bytes.as_slice(), marker.as_bytes()) {
                return true;
            }
            match utf8_text(bytes.as_slice()) {
                Some(text) => is_uuid(text),
                None => false,
            }
        },
        AttributeValue::Opaque { .. } => false,
    }
}

/// A payload of attributes that cannot be read.
#[derive(Clone, Copy, Debug, PartialEq, Eq, Structural)]
pub struct InvalidAttributes;

impl InvalidAttributes {
    pub fn message(&self) -> (text: &'static str)
        ensures
            text@ == "Studio sent an invalid ServerStorage Attributes payload"@,
    {
        "Studio sent an invalid ServerStorage Attributes payload"
    }
}

/// A value that is neither attributes nor a payload of them.
pub open spec fn holds_attributes(value: VariantView) -> bool {
    value is Attributes || value is BinaryString
}

fn take_out(attributes: &mut TextMap<AttributeValue>, name: &str) -> (taken: bool)
    ensures
        final(attributes).deep() == old(attributes).deep().remove(name@),
        taken == old(attributes).deep().dom().contains(name@),
{
    proof {
        assert(attributes.deep().dom() =~= attributes@.dom());
    }
    let ghost before = attributes.deep();
    let taken: bool = attributes.remove(name).is_some();
    proof {
        assert(attributes.deep() =~= before.remove(name@));
    }
    taken
}

/// Takes the attributes of a session out of a value, and says whether there were
/// any. A payload of attributes becomes attributes.
pub fn strip_matching_mcp_place_id(value: &mut Variant, marker: &str) -> (stripped: Result<bool, InvalidAttributes>)
    ensures
        if !holds_attributes(old(value)@) {
            stripped == Ok::<bool, InvalidAttributes>(false) && final(value)@ == old(value)@
        } else {
            match decoded(old(value)@) {
                Some(attributes) => stripped == Ok::<bool, InvalidAttributes>(has_session(attributes, marker@))
                    && final(value)@ == VariantView::Attributes(authored_attributes(attributes, marker@)),
                None => stripped == Err::<bool, InvalidAttributes>(InvalidAttributes) && final(value)@ == old(value)@,
            }
        },
{
    let holds: bool = match &*value {
        Variant::Attributes(_) => true,
        Variant::BinaryString(_) => true,
        _ => false,
    };
    if !holds {
        return Ok(false);
    }
    let mut attributes: TextMap<AttributeValue> = match decode(value) {
        Some(attributes) => attributes,
        None => {
            return Err(InvalidAttributes);
        },
    };
    let ghost start = attributes.deep();
    proof {
        assert(start.dom() =~= attributes@.dom());
    }
    let route: bool = match attributes.get("__MCPPlaceId") {
        Some(found) => is_route(found, marker),
        None => false,
    };
    let ghost place = "__MCPPlaceId"@;
    if route {
        take_out(&mut attributes, "__MCPPlaceId");
    }
    let ghost unrouted = attributes.deep();
    let endpoint: bool = take_out(&mut attributes, "__StudioWorktree_CarbonEndpoint");
    let project: bool = take_out(&mut attributes, "__StudioWorktree_CarbonProject");
    let generation: bool = take_out(&mut attributes, "__StudioWorktree_CarbonGeneration");
    let identity: bool = take_out(&mut attributes, "__StudioWorktree_Identity");
    let session: bool = take_out(&mut attributes, "__StudioWorktree_Session");
    let stripped: bool = route || endpoint || project || generation || identity || session;
    proof {
        assert(attributes.deep() =~= authored_attributes(start, marker@)) by {
            let gone = Set::new(|name: Seq<char>| session_attribute(start, marker@, name));
            assert forall|name: Seq<char>| attributes.deep().dom().contains(name) == start.remove_keys(
                gone,
            ).dom().contains(name) by {
                assert(gone.contains(name) == session_attribute(start, marker@, name));
            }
        }
        if route {
            assert(session_attribute(start, marker@, place));
        }
        if endpoint {
            assert(session_attribute(start, marker@, "__StudioWorktree_CarbonEndpoint"@));
        }
        if project {
            assert(session_attribute(start, marker@, "__StudioWorktree_CarbonProject"@));
        }
        if generation {
            assert(session_attribute(start, marker@, "__StudioWorktree_CarbonGeneration"@));
        }
        if identity {
            assert(session_attribute(start, marker@, "__StudioWorktree_Identity"@));
        }
        if session {
            assert(session_attribute(start, marker@, "__StudioWorktree_Session"@));
        }
        if has_session(start, marker@) {
            let name = choose|name: Seq<char>| #[trigger] session_attribute(start, marker@, name);
            assert(stripped);
        }
    }
    *value = Variant::Attributes(attributes);
    Ok(stripped)
}

/// A property that serializes attributes, under any of its names.
pub open spec fn attributes_alias(name: Seq<char>) -> bool {
    "Attributes"@.is_prefix_of(name)
}

/// A property that cannot be read though it should hold attributes.
pub open spec fn unreadable(name: Seq<char>, value: VariantView) -> bool {
    attributes_alias(name) && holds_attributes(value) && decoded(value) is None
}

/// What is left of a property without the attributes of a session.
pub open spec fn route_value(name: Seq<char>, value: VariantView, marker: Seq<char>) -> Option<VariantView> {
    if !attributes_alias(name) || !holds_attributes(value) {
        Some(value)
    } else {
        match decoded(value) {
            Some(attributes) => if has_session(attributes, marker) && authored_attributes(attributes, marker).dom()
                =~= Set::empty() {
                None
            } else {
                Some(VariantView::Attributes(authored_attributes(attributes, marker)))
            },
            None => Some(value),
        }
    }
}

/// A property holds an attribute of a session.
pub open spec fn route_property(name: Seq<char>, value: VariantView, marker: Seq<char>) -> bool {
    attributes_alias(name) && holds_attributes(value) && (decoded(value) matches Some(attributes) && has_session(
        attributes,
        marker,
    ))
}

/// Properties without the attributes of a session.
pub open spec fn without_route(properties: Map<Seq<char>, VariantView>, marker: Seq<char>) -> Map<
    Seq<char>,
    VariantView,
> {
    Map::new(
        |name: Seq<char>|
            properties.dom().contains(name) && route_value(name, properties[name], marker) is Some,
        |name: Seq<char>| route_value(name, properties[name], marker)->0,
    )
}

fn is_unreadable(name: &str, value: &Variant) -> (bad: bool)
    ensures
        bad == unreadable(name@, value@),
{
    let holds: bool = match value {
        Variant::Attributes(_) => true,
        Variant::BinaryString(_) => true,
        _ => false,
    };
    starts_with(name, "Attributes") && holds && decode(value).is_none()
}

fn has_no_attributes(value: &Variant) -> (none: bool)
    ensures
        none == (value@ matches VariantView::Attributes(attributes) && attributes.dom() =~= Set::empty()),
{
    match value {
        Variant::Attributes(attributes) => {
            let len: usize = attributes.len();
            proof {
                assert(attributes.deep().dom() =~= attributes@.dom());
                if len == 0 {
                    assert(attributes.keys().to_set() =~= Set::empty());
                } else {
                    assert(attributes.keys().contains(attributes.keys()[0]));
                    assert(attributes.keys().to_set().contains(attributes.keys()[0]));
                }
            }
            len == 0
        },
        _ => false,
    }
}

/// Takes the attributes of a session out of properties, and says whether there
/// were any. A property that holds nothing else is taken out.
pub fn strip_studio_route_properties(properties: &mut Properties, marker: &str) -> (stripped: Result<
    bool,
    InvalidAttributes,
>)
    ensures
        if exists|name: Seq<char>| #[trigger]
            old(properties).deep().dom().contains(name) && unreadable(name, old(properties).deep()[name]) {
            stripped == Err::<bool, InvalidAttributes>(InvalidAttributes) && final(properties).deep() == old(properties).deep()
        } else {
            &&& final(properties).deep() == without_route(old(properties).deep(), marker@)
            &&& stripped matches Ok(any) && any == exists|name: Seq<char>| #[trigger]
                old(properties).deep().dom().contains(name) && route_property(
                    name,
                    old(properties).deep()[name],
                    marker@,
                )
        },
{
    let ghost all = properties.deep();
    let len: usize = properties.len();
    proof {
        assert(all.dom() =~= properties@.dom());
    }
    let mut at: usize = 0;
    while at < len
        invariant
            at <= len,
            len == properties.keys().len(),
            properties.listed(),
            all == properties.deep(),
            all == old(properties).deep(),
            all.dom() == properties@.dom(),
            forall|k: int| 0 <= k < at ==> !unreadable(#[trigger] properties.keys()[k], all[properties.keys()[k]]),
        decreases len - at,
    {
        let ghost name = properties.keys()[at as int];
        proof {
            assert(properties.keys().contains(name));
            assert(properties.keys().to_set().contains(name));
            assert(all.dom().contains(name));
            assert(all[name] == properties@[name]@);
        }
        if is_unreadable(properties.key_at(at).as_str(), properties.value_at(at)) {
            return Err(InvalidAttributes);
        }
        at = at + 1;
    }
    proof {
        assert forall|name: Seq<char>| #[trigger] all.dom().contains(name) implies !unreadable(name, all[name]) by {
            assert(properties.keys().to_set().contains(name));
            let k = properties.keys().index_of(name);
            assert(properties.keys()[k] == name);
        }
    }
    let mut rest: Properties = TextMap::new();
    let mut any: bool = false;
    let mut next: usize = 0;
    let ghost wanted = without_route(all, marker@);
    proof {
        assert(properties.keys().take(0).to_set() =~= Set::empty());
        assert(rest.deep() =~= wanted.restrict(properties.keys().take(0).to_set()));
    }
    while next < len
        invariant
            next <= len,
            len == properties.keys().len(),
            properties.listed(),
            all == properties.deep(),
            all.dom() == properties@.dom(),
            wanted == without_route(all, marker@),
            forall|name: Seq<char>| #[trigger] all.dom().contains(name) ==> !unreadable(name, all[name]),
            rest.deep() == wanted.restrict(properties.keys().take(next as int).to_set()),
            any == exists|k: int|
                0 <= k < next && route_property(
                    #[trigger] properties.keys()[k],
                    all[properties.keys()[k]],
                    marker@,
                ),
        decreases len - next,
    {
        let ghost name = properties.keys()[next as int];
        let ghost before = rest.deep();
        let ghost any_before = any;
        proof {
            assert(properties.keys().contains(name));
            assert(properties.keys().to_set().contains(name));
            assert(all.dom().contains(name));
            assert(all[name] == properties@[name]@);
            crate::hierarchy::lemma_taken_set(properties.keys(), next as int);
        }
        let key: &String = properties.key_at(next);
        let mut value: Variant = properties.value_at(next).copy();
        let mut keep: bool = true;
        if starts_with(key.as_str(), "Attributes") {
            match strip_matching_mcp_place_id(&mut value, marker) {
                Ok(found) => {
                    if found {
                        any = true;
                        if has_no_attributes(&value) {
                            keep = false;
                        }
                    }
                },
                Err(_) => {},
            }
        }
        proof {
            assert(keep == (route_value(name, all[name], marker@) is Some));
            assert(keep ==> value@ == route_value(name, all[name], marker@)->0);
            assert(any == (any_before || route_property(name, all[name], marker@)));
        }
        if keep {
            rest.insert(key.clone(), value);
            proof {
                assert(rest.deep() =~= before.insert(name, wanted[name]));
            }
        }
        proof {
            assert(rest.deep() =~= wanted.restrict(properties.keys().take(next + 1).to_set()));
            assert(any == exists|k: int|
                0 <= k < next + 1 && route_property(
                    #[trigger] properties.keys()[k],
                    all[properties.keys()[k]],
                    marker@,
                )) by {
                if any_before {
                    let k = choose|k: int|
                        0 <= k < next && route_property(
                            #[trigger] properties.keys()[k],
                            all[properties.keys()[k]],
                            marker@,
                        );
                    assert(0 <= k < next + 1);
                }
                assert(properties.keys()[next as int] == name);
            }
        }
        next = next + 1;
    }
    proof {
        assert(properties.keys().take(len as int) =~= properties.keys());
        assert(rest.deep() =~= wanted);
        if any {
            let k = choose|k: int|
                0 <= k < len && route_property(#[trigger] properties.keys()[k], all[properties.keys()[k]], marker@);
            assert(properties.keys().contains(properties.keys()[k]));
            assert(properties.keys().to_set().contains(properties.keys()[k]));
            assert(all.dom().contains(properties.keys()[k]));
        }
        if exists|name: Seq<char>| #[trigger] all.dom().contains(name) && route_property(name, all[name], marker@) {
            let name = choose|name: Seq<char>| #[trigger]
                all.dom().contains(name) && route_property(name, all[name], marker@);
            assert(properties.keys().to_set().contains(name));
            let k = properties.keys().index_of(name);
            assert(properties.keys()[k] == name);
        }
    }
    *properties = rest;
    Ok(any)
}

} // verus!
