//! What the comparison of two places knows of single property values.

use crate::text::{chars_of, starts_with, text_of};
use crate::text_map::{Plain, TextMap};
use crate::variant::{
    bool_value, enum_value, int32_value, opaque, word_bytes, AttributeValue, AttributeView, Variant, VariantView,
};
use vstd::prelude::*;
use vstd::utf8::{decode_utf8, valid_utf8};

verus! {

/// `std::str::from_utf8`: the text that the bytes encode, where they are valid
/// UTF-8.
#[verifier::external_body]
pub(crate) fn utf8_text(bytes: &[u8]) -> (text: Option<&str>)
    ensures
        match text {
            Some(text) => valid_utf8(bytes@) && text@ == decode_utf8(bytes@),
            None => !valid_utf8(bytes@),
        },
{
    std::str::from_utf8(bytes).ok()
}

/// A UUID in groups of hexadecimal digits with hyphens between them.
pub open spec fn is_hyphenated(text: Seq<char>) -> bool {
    text.len() == 36 && forall|k: int|
        0 <= k < 36 ==> if k == 8 || k == 13 || k == 18 || k == 23 {
            #[trigger] text[k] == '-'
        } else {
            is_hex_digit(text[k])
        }
}

/// A letter in either case.
pub open spec fn is_letter(character: char, lower: char, upper: char) -> bool {
    character == lower || character == upper
}

/// The beginning of a UUID that is written as a name.
pub open spec fn begins_urn(text: Seq<char>) -> bool {
    &&& is_letter(text[0], 'u', 'U')
    &&& is_letter(text[1], 'r', 'R')
    &&& is_letter(text[2], 'n', 'N')
    &&& text[3] == ':'
    &&& is_letter(text[4], 'u', 'U')
    &&& is_letter(text[5], 'u', 'U')
    &&& is_letter(text[6], 'i', 'I')
    &&& is_letter(text[7], 'd', 'D')
    &&& text[8] == ':'
}

/// A UUID in one of four forms: its digits, with hyphens between them, in braces, or as a
/// name.
pub open spec fn uuid_reads(text: Seq<char>) -> bool {
    ||| is_hex_text(text, 32)
    ||| is_hyphenated(text)
    ||| text.len() == 38 && text[0] == '{' && text[37] == '}' && is_hyphenated(text.subrange(1, 37))
    ||| text.len() == 45 && begins_urn(text) && is_hyphenated(text.skip(9))
}

/// `uuid::Uuid::parse_str`: it reads the four forms and nothing else.
#[verifier::external_body]
pub(crate) fn is_uuid(text: &str) -> (reads: bool)
    ensures
        reads == uuid_reads(text@),
{
    uuid::Uuid::parse_str(text).is_ok()
}

// ---------------------------------------------------------------------------
// Texts

pub open spec fn is_hex_digit(character: char) -> bool {
    ('0' <= character <= '9') || ('a' <= character <= 'f') || ('A' <= character <= 'F')
}

/// A text of `len` hexadecimal digits.
pub open spec fn is_hex_text(text: Seq<char>, len: nat) -> bool {
    text.len() == len && forall|k: int| 0 <= k < text.len() ==> is_hex_digit(#[trigger] text[k])
}

/// Whether a text is made of `len` hexadecimal digits.
pub fn has_hex_digits(text: &str, len: usize) -> (digits: bool)
    ensures
        digits == is_hex_text(text@, len as nat),
{
    let chars: Vec<char> = chars_of(text);
    if chars.len() != len {
        return false;
    }
    let mut at: usize = 0;
    while at < chars.len()
        invariant
            at <= chars@.len(),
            chars@ == text@,
            forall|k: int| 0 <= k < at ==> is_hex_digit(#[trigger] text@[k]),
        decreases chars@.len() - at,
    {
        let character: char = chars[at];
        if !(('0' <= character && character <= '9') || ('a' <= character && character <= 'f') || ('A' <= character
            && character <= 'F')) {
            assert(!is_hex_digit(text@[at as int]));
            return false;
        }
        at = at + 1;
    }
    true
}

/// The text of 32 zeros.
pub open spec fn no_identity() -> Seq<char> {
    "00000000000000000000000000000000"@
}

/// A text that names an identity: 32 hexadecimal digits, not all zero.
pub open spec fn manifest_identity(text: Seq<char>) -> bool {
    is_hex_text(text, 32) && text != no_identity()
}

/// Whether a text names an identity.
pub fn is_manifest_identity(text: &str) -> (identity: bool)
    ensures
        identity == manifest_identity(text@),
{
    has_hex_digits(text, 32) && !text.eq("00000000000000000000000000000000")
}

/// A UUID in braces.
pub open spec fn braced_uuid(text: Seq<char>) -> bool {
    text.len() >= 2 && text[0] == '{' && text.last() == '}' && uuid_reads(text.subrange(1, text.len() - 1))
}

/// Whether a text is a UUID in braces.
pub fn is_braced_uuid(text: &str) -> (braced: bool)
    ensures
        braced == braced_uuid(text@),
{
    let chars: Vec<char> = chars_of(text);
    let len: usize = chars.len();
    if len < 2 || chars[0] != '{' || chars[len - 1] != '}' {
        return false;
    }
    let inner: String = text_of(&chars, 1, len - 1);
    proof {
        assert(inner@ =~= text@.subrange(1, text@.len() - 1));
    }
    is_uuid(inner.as_str())
}

// ---------------------------------------------------------------------------
// Attributes

/// The text of an attribute that has one.
pub open spec fn text_attribute(value: AttributeView) -> Option<Seq<char>> {
    match value {
        AttributeView::String(text) => Some(text),
        AttributeView::BinaryString(bytes) => if valid_utf8(bytes) {
            Some(decode_utf8(bytes))
        } else {
            None
        },
        AttributeView::Opaque { .. } => None,
    }
}

/// The text of an attribute that has one.
pub fn attribute_text<'a>(value: &'a AttributeValue) -> (text: Option<&'a str>)
    ensures
        match text_attribute(value@) {
            Some(expected) => text matches Some(found) && found@ == expected,
            None => text is None,
        },
{
    match value {
        AttributeValue::String(text) => Some(text.as_str()),
        AttributeValue::BinaryString(bytes) => utf8_text(bytes.as_slice()),
        AttributeValue::Opaque { .. } => None,
    }
}

/// The text of the named attribute, where it is there and has one.
pub open spec fn named_text(attributes: Map<Seq<char>, AttributeView>, name: Seq<char>) -> Option<Seq<char>> {
    if attributes.dom().contains(name) {
        text_attribute(attributes[name])
    } else {
        None
    }
}

fn find_text<'a>(attributes: &'a TextMap<AttributeValue>, name: &str) -> (text: Option<&'a str>)
    ensures
        match named_text(attributes.deep(), name@) {
            Some(expected) => text matches Some(found) && found@ == expected,
            None => text is None,
        },
{
    proof {
        assert(attributes.deep().dom() =~= attributes@.dom());
    }
    match attributes.get(name) {
        Some(value) => attribute_text(value),
        None => None,
    }
}

/// The names of the attributes that tie a worktree to a session.
pub open spec fn worktree_attribute(name: Seq<char>) -> bool {
    ||| name == "__StudioWorktree_CarbonEndpoint"@
    ||| name == "__StudioWorktree_CarbonProject"@
    ||| name == "__StudioWorktree_CarbonGeneration"@
    ||| name == "__StudioWorktree_Identity"@
    ||| name == "__StudioWorktree_Session"@
}

/// Whether an attribute ties a worktree to a session.
pub fn is_worktree_attribute(name: &str) -> (worktree: bool)
    ensures
        worktree == worktree_attribute(name@),
{
    name.eq("__StudioWorktree_CarbonEndpoint") || name.eq("__StudioWorktree_CarbonProject") || name.eq(
        "__StudioWorktree_CarbonGeneration",
    ) || name.eq("__StudioWorktree_Identity") || name.eq("__StudioWorktree_Session")
}

/// Every attribute of a worktree has a text, the endpoint is on this machine and
/// the generation is a digest.
pub open spec fn worktree_contract(attributes: Map<Seq<char>, AttributeView>) -> bool {
    &&& forall|name: Seq<char>| #[trigger]
        worktree_attribute(name) ==> (named_text(attributes, name) matches Some(text) && text.len() > 0)
    &&& (named_text(attributes, "__StudioWorktree_CarbonEndpoint"@) matches Some(endpoint)
        && ("http://127.0.0.1:"@.is_prefix_of(endpoint) || "http://localhost:"@.is_prefix_of(endpoint)))
    &&& (named_text(attributes, "__StudioWorktree_CarbonGeneration"@) matches Some(generation) && is_hex_text(
        generation,
        64,
    ))
}

fn has_text(attributes: &TextMap<AttributeValue>, name: &str) -> (has: bool)
    ensures
        has == (named_text(attributes.deep(), name@) matches Some(text) && text.len() > 0),
{
    match find_text(attributes, name) {
        Some(text) => chars_of(text).len() > 0,
        None => false,
    }
}

/// Whether the attributes are those of a managed worktree.
pub fn has_managed_worktree_contract(attributes: &TextMap<AttributeValue>) -> (managed: bool)
    ensures
        managed == worktree_contract(attributes.deep()),
{
    proof {
        assert(worktree_attribute("__StudioWorktree_CarbonEndpoint"@));
        assert(worktree_attribute("__StudioWorktree_CarbonProject"@));
        assert(worktree_attribute("__StudioWorktree_CarbonGeneration"@));
        assert(worktree_attribute("__StudioWorktree_Identity"@));
        assert(worktree_attribute("__StudioWorktree_Session"@));
    }
    if !(has_text(attributes, "__StudioWorktree_CarbonEndpoint") && has_text(
        attributes,
        "__StudioWorktree_CarbonProject",
    ) && has_text(attributes, "__StudioWorktree_CarbonGeneration") && has_text(
        attributes,
        "__StudioWorktree_Identity",
    ) && has_text(attributes, "__StudioWorktree_Session")) {
        return false;
    }
    let endpoint: bool = match find_text(attributes, "__StudioWorktree_CarbonEndpoint") {
        Some(text) => starts_with(text, "http://127.0.0.1:") || starts_with(text, "http://localhost:"),
        None => false,
    };
    let generation: bool = match find_text(attributes, "__StudioWorktree_CarbonGeneration") {
        Some(text) => has_hex_digits(text, 64),
        None => false,
    };
    endpoint && generation
}

// ---------------------------------------------------------------------------
// Properties

/// A property that identifies an instance and says nothing of what it does. The
/// type of a unique identifier is `UniqueId`.
pub open spec fn unique_property(name: Seq<char>, value: VariantView) -> bool {
    name == "UniqueId"@ || name == "HistoryId"@ || (value matches VariantView::Opaque { kind, .. } && kind
        == "UniqueId"@)
}

/// Whether a property identifies an instance and says nothing of what it does.
pub fn is_unique_property(name: &str, value: &Variant) -> (unique: bool)
    ensures
        unique == unique_property(name@, value@),
{
    if name.eq("UniqueId") || name.eq("HistoryId") {
        return true;
    }
    match value {
        Variant::Opaque { kind, .. } => kind.as_str().eq("UniqueId"),
        _ => false,
    }
}

/// A value that points to an instance.
pub open spec fn reference_value(value: VariantView) -> bool {
    value is Ref || value is Object
}

/// Whether a value points to an instance.
pub fn is_reference_value(value: &Variant) -> (reference: bool)
    ensures
        reference == reference_value(value@),
{
    match value {
        Variant::Ref(_) => true,
        Variant::Object(_) => true,
        _ => false,
    }
}

/// Properties whose absence from a file the engine reads as something else than
/// the default.
pub open spec fn absence_matters(class: Seq<char>, property: Seq<char>) -> bool {
    (class == "Lighting"@ && property == "LightingStyle"@) || (class == "Model"@ && property
        == "NeedsPivotMigration"@)
}

/// Whether the engine reads the absence of a property as something else than the
/// default.
pub fn absence_changes_engine_load(class: &str, property: &str) -> (changes: bool)
    ensures
        changes == absence_matters(class@, property@),
{
    (class.eq("Lighting") && property.eq("LightingStyle")) || (class.eq("Model") && property.eq(
        "NeedsPivotMigration",
    ))
}

/// The value of an integer of 64 bits.
pub open spec fn int64_value(bits: u64) -> VariantView {
    opaque("Int64"@, crate::managed_hierarchy::le_bytes(bits as nat, 8))
}

fn is_plain(value: &Variant, kind: &str, expected: &Vec<u8>) -> (same: bool)
    ensures
        same == (value@ == opaque(kind@, expected@)),
{
    match value {
        Variant::Opaque { kind: found, bytes } => found.as_str().eq(kind) && crate::text::same_bytes(
            bytes.as_slice(),
            expected.as_slice(),
        ),
        _ => false,
    }
}

fn is_bool(value: &Variant, expected: bool) -> (same: bool)
    ensures
        same == (value@ == bool_value(expected)),
{
    value.same(&Variant::boolean(expected))
}

fn is_int32(value: &Variant, expected: i32) -> (same: bool)
    ensures
        same == (value@ == int32_value(expected)),
{
    value.same(&Variant::int32(expected))
}

fn is_enum(value: &Variant, expected: u32) -> (same: bool)
    ensures
        same == (value@ == enum_value(expected)),
{
    value.same(&Variant::enumeration(expected))
}

/// Whether a value is an integer of 64 bits with the given bits.
pub fn is_int64(value: &Variant, bits: u64) -> (same: bool)
    ensures
        same == (value@ == int64_value(bits)),
{
    let mut bytes: Vec<u8> = Vec::new();
    crate::managed_hierarchy::push_le(&mut bytes, bits, 8);
    proof {
        assert(bytes@ =~= crate::managed_hierarchy::le_bytes(bits as nat, 8));
    }
    is_plain(value, "Int64", &bytes)
}

/// A default that newer engines write to every instance.
pub open spec fn forward_default(name: Seq<char>, value: VariantView) -> bool {
    ||| name == "SourceAssetId"@ && value == int64_value(u64::MAX)
    ||| (name == "Sandboxed"@ || name == "Disabled"@) && value == bool_value(false)
    ||| name == "Capabilities"@ && value == opaque(
        "SecurityCapabilities"@,
        crate::managed_hierarchy::le_bytes(0, 8),
    )
    ||| name == "LinkedSource"@ && value == opaque("ContentId"@, Seq::empty())
    ||| name == "RunContext"@ && value == enum_value(0)
    ||| name == "Tags"@ && (value matches VariantView::Tags(tags) && tags.len() == 0)
    ||| name == "Attributes"@ && (value matches VariantView::Attributes(attributes) && attributes.dom()
        =~= Set::empty())
}

fn no_attributes(value: &Variant) -> (empty: bool)
    ensures
        empty == (value@ matches VariantView::Attributes(attributes) && attributes.dom() =~= Set::empty()),
{
    match value {
        Variant::Attributes(attributes) => {
            let len: usize = attributes.len();
            proof {
                assert(attributes.deep().dom() =~= attributes@.dom());
                if len == 0 {
                    assert(attributes.keys().to_set() =~= Set::empty());
                } else {
                    assert(attributes.keys().contains(attributes.keys()[0]));
                    assert(attributes.keys().to_set().contains(attributes.keys()[0]));
                }
            }
            len == 0
        },
        _ => false,
    }
}

/// Whether a property is a default that newer engines write to every instance.
pub fn is_forward_instance_default(name: &str, value: &Variant) -> (forward: bool)
    ensures
        forward == forward_default(name@, value@),
{
    let mut zero: Vec<u8> = Vec::new();
    crate::managed_hierarchy::push_le(&mut zero, 0, 8);
    let empty: Vec<u8> = Vec::new();
    proof {
        assert(zero@ =~= crate::managed_hierarchy::le_bytes(0, 8));
        assert(empty@ =~= Seq::empty());
    }
    let tags: bool = match value {
        Variant::Tags(tags) => tags.len() == 0,
        _ => false,
    };
    (name.eq("SourceAssetId") && is_int64(value, u64::MAX)) || ((name.eq("Sandboxed") || name.eq("Disabled"))
        && is_bool(value, false)) || (name.eq("Capabilities") && is_plain(value, "SecurityCapabilities", &zero))
        || (name.eq("LinkedSource") && is_plain(value, "ContentId", &empty)) || (name.eq("RunContext") && is_enum(
        value,
        0,
    )) || (name.eq("Tags") && tags) || (name.eq("Attributes") && no_attributes(value))
}

/// The bits of a number in floating point that is zero, of either sign.
pub open spec fn zero_bits(bytes: Seq<u8>, at: int) -> bool {
    bytes[at] == 0 && bytes[at + 1] == 0 && bytes[at + 2] == 0 && (bytes[at + 3] == 0 || bytes[at + 3] == 0x80)
}

/// The bits of the number one in floating point.
pub open spec fn one_bits(bytes: Seq<u8>, at: int) -> bool {
    bytes[at] == 0 && bytes[at + 1] == 0 && bytes[at + 2] == 0x80 && bytes[at + 3] == 0x3f
}

/// A number of a frame that is not turned: a one where the row and the column of
/// the rotation agree, a zero everywhere else.
pub open spec fn identity_number(bytes: Seq<u8>, number: int) -> bool {
    if number == 3 || number == 7 || number == 11 {
        one_bits(bytes, 4 * number)
    } else {
        zero_bits(bytes, 4 * number)
    }
}

/// A frame at the origin that is not turned.
pub open spec fn identity_frame(bytes: Seq<u8>) -> bool {
    bytes.len() == 48 && forall|number: int| 0 <= number < 12 ==> #[trigger] identity_number(bytes, number)
}

fn is_identity_frame(bytes: &Vec<u8>) -> (identity: bool)
    ensures
        identity == identity_frame(bytes@),
{
    if bytes.len() != 48 {
        return false;
    }
    let mut number: usize = 0;
    while number < 12
        invariant
            number <= 12,
            bytes@.len() == 48,
            forall|k: int| 0 <= k < number ==> #[trigger] identity_number(bytes@, k),
        decreases 12 - number,
    {
        let at: usize = 4 * number;
        let fits: bool = if number == 3 || number == 7 || number == 11 {
            bytes[at] == 0 && bytes[at + 1] == 0 && bytes[at + 2] == 0x80 && bytes[at + 3] == 0x3f
        } else {
            bytes[at] == 0 && bytes[at + 1] == 0 && bytes[at + 2] == 0 && (bytes[at + 3] == 0 || bytes[at + 3]
                == 0x80)
        };
        proof {
            assert(fits == identity_number(bytes@, number as int));
        }
        if !fits {
            return false;
        }
        number = number + 1;
    }
    true
}

/// What Studio writes to the services of a fresh place.
pub open spec fn hydrated_service_default(class: Seq<char>, property: Seq<char>, value: VariantView) -> bool {
    ||| class == "AssetService"@ && property == "AllowInsertFreeAssets"@ && value == bool_value(false)
    ||| class == "Debris"@ && property == "MaxItems"@ && value == int32_value(1000)
    ||| class == "Players"@ && (property == "BanningEnabled"@ || property == "CharacterAutoLoads"@) && value
        == bool_value(true)
    ||| class == "Players"@ && property == "UseStrafingAnimations"@ && value == bool_value(false)
    ||| class == "Players"@ && property == "PreferredPlayers"@ && value == int32_value(0)
    ||| class == "Players"@ && property == "MaxPlayers"@ && value == int32_value(12)
    ||| class == "Players"@ && property == "RespawnTime"@ && value == opaque("Float32"@, word_bytes(0x40a0_0000))
    ||| class == "StarterGui"@ && (property == "ResetPlayerGuiOnSpawn"@ || property == "ShowDevelopmentGui"@)
        && value == bool_value(true)
    ||| class == "PlayerEmulatorService"@ && property == "SerializedEmulatedPolicyInfo"@ && value
        == VariantView::BinaryString(Seq::empty())
    ||| class == "ServiceVisibilityService"@ && (property == "VisibleServices"@ || property == "HiddenServices"@)
        && value == VariantView::BinaryString(seq![0u8, 0u8, 0u8, 0u8])
    ||| class == "SoundService"@ && property == "ListenerCFrame"@ && (value matches VariantView::Opaque {
        kind,
        bytes,
    } && kind == "CFrame"@ && identity_frame(bytes))
    ||| class == "StarterGui"@ && (property == "RtlTextSupport"@ || property == "ClipsDescendantsSupportsRotation"@
        || property == "VirtualCursorMode"@) && value == enum_value(0)
    ||| class == "StarterGui"@ && property == "ScreenOrientation"@ && value == enum_value(2)
}

/// Whether a property is what Studio writes to the services of a fresh place.
pub fn is_default_hydrated_service_property(class: &str, property: &str, value: &Variant) -> (hydrated: bool)
    ensures
        hydrated == hydrated_service_default(class@, property@, value@),
{
    let respawn: bool = value.same(&Variant::float32(0x40a0_0000));
    let mut zeros: Vec<u8> = Vec::new();
    zeros.push(0);
    zeros.push(0);
    zeros.push(0);
    zeros.push(0);
    proof {
        assert(zeros@ =~= seq![0u8, 0u8, 0u8, 0u8]);
    }
    let visibility: bool = value.same(&Variant::BinaryString(zeros));
    let none: Vec<u8> = Vec::new();
    proof {
        assert(none@ =~= Seq::empty());
    }
    let empty: bool = value.same(&Variant::BinaryString(none));
    let frame: bool = match value {
        Variant::Opaque { kind, bytes } => kind.as_str().eq("CFrame") && is_identity_frame(bytes),
        _ => false,
    };
    let players: bool = ((property.eq("BanningEnabled") || property.eq("CharacterAutoLoads")) && is_bool(value, true))
        || (property.eq("UseStrafingAnimations") && is_bool(value, false)) || (property.eq("PreferredPlayers")
        && is_int32(value, 0)) || (property.eq("MaxPlayers") && is_int32(value, 12)) || (property.eq("RespawnTime")
        && respawn);
    let starter: bool = ((property.eq("ResetPlayerGuiOnSpawn") || property.eq("ShowDevelopmentGui")) && is_bool(
        value,
        true,
    )) || ((property.eq("RtlTextSupport") || property.eq("ClipsDescendantsSupportsRotation") || property.eq(
        "VirtualCursorMode",
    )) && is_enum(value, 0)) || (property.eq("ScreenOrientation") && is_enum(value, 2));
    (class.eq("AssetService") && property.eq("AllowInsertFreeAssets") && is_bool(value, false)) || (class.eq("Debris")
        && property.eq("MaxItems") && is_int32(value, 1000)) || (class.eq("Players") && players) || (class.eq(
        "StarterGui",
    ) && starter) || (class.eq("PlayerEmulatorService") && property.eq("SerializedEmulatedPolicyInfo") && empty) || (
    class.eq("ServiceVisibilityService") && (property.eq("VisibleServices") || property.eq("HiddenServices"))
        && visibility) || (class.eq("SoundService") && property.eq("ListenerCFrame") && frame)
}

/// What a migration of the engine writes to the lighting of a fresh place.
pub open spec fn hydrated_lighting_default(class: Seq<char>, property: Seq<char>, value: VariantView) -> bool {
    class == "Lighting"@ && {
        ||| property == "Brightness"@ && value == opaque("Float32"@, word_bytes(0x3f80_0000))
        ||| property == "Technology"@ && value == enum_value(2)
        ||| property == "Attributes"@ && (value matches VariantView::Attributes(attributes) && attributes.dom()
            =~= set!["RBX_LightingTechnologyUnifiedMigration"@] && migrated(attributes))
    }
}

/// The lighting of the place went through the engine's migration.
pub open spec fn migrated(attributes: Map<Seq<char>, AttributeView>) -> bool {
    attributes.dom().contains("RBX_LightingTechnologyUnifiedMigration"@)
        && attributes["RBX_LightingTechnologyUnifiedMigration"@] == (AttributeView::Opaque {
        kind: "Bool"@,
        bytes: seq![1u8],
    })
}

/// Whether the lighting of the place went through the engine's migration.
pub fn is_migrated(attributes: &TextMap<AttributeValue>) -> (migrated: bool)
    ensures
        migrated == self::migrated(attributes.deep()),
{
    proof {
        assert(attributes.deep().dom() =~= attributes@.dom());
    }
    let mut bytes: Vec<u8> = Vec::new();
    bytes.push(1);
    let expected: AttributeValue = AttributeValue::Opaque { kind: "Bool".to_owned(), bytes };
    proof {
        assert(bytes@ =~= seq![1u8]);
    }
    match attributes.get("RBX_LightingTechnologyUnifiedMigration") {
        Some(value) => value.same(&expected),
        None => false,
    }
}

fn only_migrated(value: &Variant) -> (only: bool)
    ensures
        only == (value@ matches VariantView::Attributes(attributes) && attributes.dom()
            =~= set!["RBX_LightingTechnologyUnifiedMigration"@] && migrated(attributes)),
{
    match value {
        Variant::Attributes(attributes) => {
            let len: usize = attributes.len();
            let is: bool = is_migrated(attributes);
            proof {
                let name = "RBX_LightingTechnologyUnifiedMigration"@;
                assert(attributes.deep().dom() =~= attributes@.dom());
                attributes.keys().unique_seq_to_set();
                assert(attributes.keys().to_set().len() == len);
                if is && len == 1 {
                    assert(attributes.keys().to_set().contains(name));
                    assert(attributes.keys()[0] == name);
                    assert forall|key: Seq<char>| attributes@.dom().contains(key) implies key == name by {
                        assert(attributes.keys().to_set().contains(key));
                    }
                    assert(attributes@.dom() =~= set![name]);
                }
                if attributes@.dom() =~= set![name] {
                    assert(set![name].len() == 1);
                }
            }
            len == 1 && is
        },
        _ => false,
    }
}

/// Whether a property is what a migration of the engine writes to the lighting
/// of a fresh place.
pub fn is_default_hydrated_lighting_property(class: &str, property: &str, value: &Variant) -> (hydrated: bool)
    ensures
        hydrated == hydrated_lighting_default(class@, property@, value@),
{
    if !class.eq("Lighting") {
        return false;
    }
    (property.eq("Brightness") && value.same(&Variant::float32(0x3f80_0000))) || (property.eq("Technology")
        && is_enum(value, 2)) || (property.eq("Attributes") && only_migrated(value))
}

} // verus!
