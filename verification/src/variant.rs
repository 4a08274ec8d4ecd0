//! Property values, as far as the rules of the library look into them.

use crate::text::{copy_bytes, copy_texts, same_bytes, same_texts, texts};
use crate::managed_hierarchy::{le_bytes, push_le};
use crate::text_map::{Plain, TextMap};
use crate::Ref;
use vstd::prelude::*;

verus! {

/// The value of an attribute. Values that no rule looks into are carried as the
/// name of their type and their wire bytes.
#[derive(Debug)]
pub enum AttributeValue {
    String(String),
    BinaryString(Vec<u8>),
    Opaque { kind: String, bytes: Vec<u8> },
}

#[verifier::ext_equal]
pub enum AttributeView {
    String(Seq<char>),
    BinaryString(Seq<u8>),
    Opaque { kind: Seq<char>, bytes: Seq<u8> },
}

impl View for AttributeValue {
    type V = AttributeView;

    open spec fn view(&self) -> AttributeView {
        match self {
            AttributeValue::String(text) => AttributeView::String(text@),
            AttributeValue::BinaryString(bytes) => AttributeView::BinaryString(bytes@),
            AttributeValue::Opaque { kind, bytes } => AttributeView::Opaque { kind: kind@, bytes: bytes@ },
        }
    }
}

/// The value of a property. Other values are carried as the name of their type
/// and their bytes: two of them are the same where both agree. The bytes of a
/// `Bool` are one byte, zero or one; those of an `Int32`, an `Int64`, an `Enum`,
/// a `Float32` and of `SecurityCapabilities` are the number, least significant
/// byte first; those of a `ContentId` are its text; those of a `Vector2`, a
/// `Vector3` and a `Color3` are their parts, each a `Float32`, and those of a
/// `CFrame` its position and then its rows.
#[derive(Debug)]
pub enum Variant {
    /// A reference to an instance.
    Ref(Ref),
    /// Content whose source is an instance.
    Object(Ref),
    String(String),
    BinaryString(Vec<u8>),
    Attributes(TextMap<AttributeValue>),
    /// The tags of an instance, as they are stored.
    Tags(Vec<String>),
    Opaque { kind: String, bytes: Vec<u8> },
}

#[verifier::ext_equal]
pub enum VariantView {
    Ref(Ref),
    Object(Ref),
    String(Seq<char>),
    BinaryString(Seq<u8>),
    Attributes(Map<Seq<char>, AttributeView>),
    Tags(Seq<Seq<char>>),
    Opaque { kind: Seq<char>, bytes: Seq<u8> },
}

impl View for Variant {
    type V = VariantView;

    open spec fn view(&self) -> VariantView {
        match self {
            Variant::Ref(target) => VariantView::Ref(*target),
            Variant::Object(target) => VariantView::Object(*target),
            Variant::String(text) => VariantView::String(text@),
            Variant::BinaryString(bytes) => VariantView::BinaryString(bytes@),
            Variant::Attributes(map) => VariantView::Attributes(map.deep()),
            Variant::Tags(tags) => VariantView::Tags(texts(tags@)),
            Variant::Opaque { kind, bytes } => VariantView::Opaque { kind: kind@, bytes: bytes@ },
        }
    }
}

/// A value that is carried by its bytes.
pub open spec fn opaque(kind: Seq<char>, bytes: Seq<u8>) -> VariantView {
    VariantView::Opaque { kind, bytes }
}

pub open spec fn bool_value(value: bool) -> VariantView {
    opaque("Bool"@, seq![if value { 1u8 } else { 0u8 }])
}

/// The bytes of a number of 32 bits.
pub open spec fn word_bytes(number: u32) -> Seq<u8> {
    le_bytes(number as nat, 4)
}

pub open spec fn int32_value(value: i32) -> VariantView {
    opaque("Int32"@, word_bytes(if value < 0 { (value + 0x1_0000_0000) as u32 } else { value as u32 }))
}

pub open spec fn enum_value(value: u32) -> VariantView {
    opaque("Enum"@, word_bytes(value))
}

fn word(kind: &str, number: u32) -> (value: Variant)
    ensures
        value@ == opaque(kind@, word_bytes(number)),
{
    let mut bytes: Vec<u8> = Vec::new();
    push_le(&mut bytes, number as u64, 4);
    proof {
        assert(bytes@ =~= word_bytes(number));
    }
    Variant::Opaque { kind: kind.to_owned(), bytes }
}

impl Variant {
    pub fn boolean(value: bool) -> (variant: Variant)
        ensures
            variant@ == bool_value(value),
    {
        let mut bytes: Vec<u8> = Vec::new();
        if value {
            bytes.push(1);
        } else {
            bytes.push(0);
        }
        proof {
            assert(bytes@ =~= seq![if value { 1u8 } else { 0u8 }]);
        }
        Variant::Opaque { kind: "Bool".to_owned(), bytes }
    }

    pub fn int32(value: i32) -> (variant: Variant)
        ensures
            variant@ == int32_value(value),
    {
        if value < 0 {
            word("Int32", (value as i64 + 0x1_0000_0000) as u32)
        } else {
            word("Int32", value as u32)
        }
    }

    /// An item of an enumeration by its number.
    pub fn enumeration(value: u32) -> (variant: Variant)
        ensures
            variant@ == enum_value(value),
    {
        word("Enum", value)
    }

    /// A number of 32 bits in floating point, by its bits.
    pub fn float32(bits: u32) -> (variant: Variant)
        ensures
            variant@ == opaque("Float32"@, word_bytes(bits)),
    {
        word("Float32", bits)
    }

    /// A value that is carried by its bytes.
    pub fn plain(kind: &str, bytes: Vec<u8>) -> (variant: Variant)
        ensures
            variant@ == opaque(kind@, bytes@),
    {
        Variant::Opaque { kind: kind.to_owned(), bytes }
    }
}

/// Properties by name.
pub type Properties = TextMap<Variant>;

impl Plain for AttributeValue {
    fn copy(&self) -> (copy: AttributeValue) {
        match self {
            AttributeValue::String(text) => AttributeValue::String(text.clone()),
            AttributeValue::BinaryString(bytes) => AttributeValue::BinaryString(
                copy_bytes(bytes.as_slice()),
            ),
            AttributeValue::Opaque { kind, bytes } => AttributeValue::Opaque {
                kind: kind.clone(),
                bytes: copy_bytes(bytes.as_slice()),
            },
        }
    }

    fn same(&self, other: &AttributeValue) -> (same: bool) {
        match (self, other) {
            (AttributeValue::String(left), AttributeValue::String(right)) => left.as_str().eq(right.as_str()),
            (AttributeValue::BinaryString(left), AttributeValue::BinaryString(right)) => same_bytes(
                left.as_slice(),
                right.as_slice(),
            ),
            (
                AttributeValue::Opaque { kind: left, bytes: left_bytes },
                AttributeValue::Opaque { kind: right, bytes: right_bytes },
            ) => left.as_str().eq(right.as_str()) && same_bytes(left_bytes.as_slice(), right_bytes.as_slice()),
            _ => false,
        }
    }
}

impl Plain for Variant {
    fn copy(&self) -> (copy: Variant) {
        match self {
            Variant::Ref(target) => Variant::Ref(*target),
            Variant::Object(target) => Variant::Object(*target),
            Variant::String(text) => Variant::String(text.clone()),
            Variant::BinaryString(bytes) => Variant::BinaryString(copy_bytes(bytes.as_slice())),
            Variant::Attributes(map) => Variant::Attributes(map.copy()),
            Variant::Tags(tags) => Variant::Tags(copy_texts(tags)),
            Variant::Opaque { kind, bytes } => Variant::Opaque {
                kind: kind.clone(),
                bytes: copy_bytes(bytes.as_slice()),
            },
        }
    }

    fn same(&self, other: &Variant) -> (same: bool) {
        match (self, other) {
            (Variant::Ref(left), Variant::Ref(right)) => *left == *right,
            (Variant::Object(left), Variant::Object(right)) => *left == *right,
            (Variant::String(left), Variant::String(right)) => left.as_str().eq(right.as_str()),
            (Variant::BinaryString(left), Variant::BinaryString(right)) => same_bytes(
                left.as_slice(),
                right.as_slice(),
            ),
            (Variant::Attributes(left), Variant::Attributes(right)) => left.same(right),
            (Variant::Tags(left), Variant::Tags(right)) => same_texts(left, right),
            (
                Variant::Opaque { kind: left, bytes: left_bytes },
                Variant::Opaque { kind: right, bytes: right_bytes },
            ) => left.as_str().eq(right.as_str()) && same_bytes(left_bytes.as_slice(), right_bytes.as_slice()),
            _ => false,
        }
    }
}

// ---------------------------------------------------------------------------
// Numbers in floating point, by their bytes

/// The bytes of one number in values that are made of such numbers.
pub open spec fn number_size(kind: Seq<char>) -> nat {
    if kind == "Float64"@ {
        8
    } else if kind == "Float32"@ || kind == "Vector2"@ || kind == "Vector3"@ || kind == "Color3"@ || kind == "CFrame"@ {
        4
    } else {
        0
    }
}

/// Zero, with either sign.
pub open spec fn is_zero(word: Seq<u8>) -> bool {
    &&& word.last() % 128 == 0
    &&& forall|k: int| 0 <= k < word.len() - 1 ==> #[trigger] word[k] == 0
}

/// The byte below the last one of an infinite number.
pub open spec fn infinite_byte(size: nat) -> u8 {
    if size == 4 {
        128
    } else {
        240
    }
}

/// A word that is not a number: its exponent is that of the infinite, and it is not
/// infinite.
pub open spec fn is_nan(word: Seq<u8>) -> bool {
    let next = word[word.len() - 2];
    let top = infinite_byte(word.len());
    &&& word.last() % 128 == 127
    &&& next >= top
    &&& next != top || exists|k: int| 0 <= k < word.len() - 2 && #[trigger] word[k] != 0
}

/// Two numbers are equal: what is not a number equals nothing, and the zeros are equal.
pub open spec fn numbers_equal(left: Seq<u8>, right: Seq<u8>) -> bool {
    (is_zero(left) && is_zero(right)) || (left == right && !is_nan(left))
}

/// Numbers of a size are equal, one by one.
pub open spec fn all_numbers_equal(left: Seq<u8>, right: Seq<u8>, size: nat) -> bool
    decreases left.len(),
{
    if size == 0 || left.len() < size || right.len() < size {
        left == right
    } else {
        numbers_equal(left.take(size as int), right.take(size as int)) && all_numbers_equal(
            left.skip(size as int),
            right.skip(size as int),
            size,
        )
    }
}

/// Two values of a kind that are carried by their bytes are equal.
pub open spec fn bytes_equal(kind: Seq<char>, left: Seq<u8>, right: Seq<u8>) -> bool {
    all_numbers_equal(left, right, number_size(kind))
}

/// Two values are equal.
pub open spec fn values_equal(left: VariantView, right: VariantView) -> bool {
    match (left, right) {
        (VariantView::Opaque { kind, bytes }, VariantView::Opaque { kind: other, bytes: others }) => kind == other
            && bytes_equal(kind, bytes, others),
        _ => left == right,
    }
}

fn size_of_number(kind: &str) -> (size: usize)
    ensures
        size == number_size(kind@),
{
    if kind.eq("Float64") {
        8
    } else if kind.eq("Float32") || kind.eq("Vector2") || kind.eq("Vector3") || kind.eq("Color3") || kind.eq("CFrame") {
        4
    } else {
        0
    }
}

/// Whether every byte between two places is zero.
fn are_zero(bytes: &[u8], from: usize, to: usize) -> (zero: bool)
    requires
        from <= to <= bytes@.len(),
    ensures
        zero == forall|k: int| from <= k < to ==> #[trigger] bytes@[k] == 0,
{
    let mut at: usize = from;
    while at < to
        invariant
            from <= at <= to <= bytes@.len(),
            forall|k: int| from <= k < at ==> #[trigger] bytes@[k] == 0,
        decreases to - at,
    {
        if bytes[at] != 0 {
            return false;
        }
        at = at + 1;
    }
    true
}

fn is_zero_at(bytes: &[u8], at: usize, size: usize) -> (zero: bool)
    requires
        2 <= size,
        at + size <= bytes@.len(),
    ensures
        zero == is_zero(bytes@.subrange(at as int, at + size)),
{
    let ghost word = bytes@.subrange(at as int, at + size);
    let len: usize = bytes.len();
    let low: bool = are_zero(bytes, at, at + size - 1);
    proof {
        assert(word.last() == bytes@[at + size - 1]);
        assert forall|k: int| 0 <= k < size implies #[trigger] word[k] == bytes@[at + k] by {}
        if low {
            assert forall|k: int| 0 <= k < word.len() - 1 implies #[trigger] word[k] == 0 by {
                assert(bytes@[at + k] == 0);
            }
        } else {
            let k = choose|k: int| at <= k < at + size - 1 && #[trigger] bytes@[k] != 0;
            assert(word[k - at] != 0);
        }
    }
    low && bytes[at + size - 1] % 128 == 0
}

fn is_nan_at(bytes: &[u8], at: usize, size: usize) -> (nan: bool)
    requires
        2 <= size,
        at + size <= bytes@.len(),
    ensures
        nan == is_nan(bytes@.subrange(at as int, at + size)),
{
    let ghost word = bytes@.subrange(at as int, at + size);
    let len: usize = bytes.len();
    let top: u8 = if size == 4 {
        128
    } else {
        240
    };
    let next: u8 = bytes[at + size - 2];
    let low: bool = are_zero(bytes, at, at + size - 2);
    proof {
        assert(word.last() == bytes@[at + size - 1]);
        assert(word[word.len() - 2] == next);
        if !low {
            let k = choose|k: int| at <= k < at + size - 2 && #[trigger] bytes@[k] != 0;
            assert(word[k - at] != 0);
        } else {
            assert forall|k: int| 0 <= k < word.len() - 2 implies #[trigger] word[k] == 0 by {
                assert(bytes@[at + k] == 0);
            }
        }
    }
    bytes[at + size - 1] % 128 == 127 && next >= top && (next != top || !low)
}

/// Whether two values of a kind that are carried by their bytes are equal.
pub(crate) fn are_bytes_equal(kind: &str, left: &[u8], right: &[u8]) -> (equal: bool)
    ensures
        equal == bytes_equal(kind@, left@, right@),
{
    let size: usize = size_of_number(kind);
    if size == 0 {
        return same_bytes(left, right);
    }
    let mut at: usize = 0;
    proof {
        assert(left@.skip(0) =~= left@);
        assert(right@.skip(0) =~= right@);
    }
    while size <= left.len() - at && at <= right.len() && size <= right.len() - at
        invariant
            size == 4 || size == 8,
            size == number_size(kind@),
            at <= left@.len(),
            at <= right@.len(),
            all_numbers_equal(left@, right@, size as nat) == all_numbers_equal(
                left@.skip(at as int),
                right@.skip(at as int),
                size as nat,
            ),
        decreases left@.len() - at,
    {
        let ghost first = left@.skip(at as int).take(size as int);
        let ghost second = right@.skip(at as int).take(size as int);
        proof {
            assert(first =~= left@.subrange(at as int, at + size));
            assert(second =~= right@.subrange(at as int, at + size));
            assert(left@.skip(at as int).skip(size as int) =~= left@.skip(at + size));
            assert(right@.skip(at as int).skip(size as int) =~= right@.skip(at + size));
        }
        let zeros: bool = is_zero_at(left, at, size) && is_zero_at(right, at, size);
        if !zeros {
            if is_nan_at(left, at, size) {
                return false;
            }
            let mut k: usize = 0;
            while k < size
                invariant
                    k <= size,
                    size == number_size(kind@),
                    at + size <= left@.len() <= usize::MAX,
                    at + size <= right@.len(),
                    first == left@.subrange(at as int, at + size),
                    second == right@.subrange(at as int, at + size),
                    forall|i: int| 0 <= i < k ==> first[i] == second[i],
                    !(is_zero(first) && is_zero(second)),
                    all_numbers_equal(left@, right@, size as nat) ==> numbers_equal(first, second),
                decreases size - k,
            {
                if left[at + k] != right[at + k] {
                    proof {
                        assert(first[k as int] != second[k as int]);
                    }
                    return false;
                }
                k = k + 1;
            }
            proof {
                assert(first =~= second);
            }
        }
        at = at + size;
    }
    let ghost rest = left@.skip(at as int);
    let ghost other = right@.skip(at as int);
    if left.len() != right.len() {
        proof {
            assert(rest.len() != other.len());
        }
        return false;
    }
    let mut k: usize = at;
    while k < left.len()
        invariant
            at <= k <= left@.len(),
            left@.len() == right@.len(),
            rest == left@.skip(at as int),
            other == right@.skip(at as int),
            forall|i: int| 0 <= i < k - at ==> rest[i] == other[i],
            all_numbers_equal(left@, right@, size as nat) == (rest == other),
            size as nat == number_size(kind@),
        decreases left@.len() - k,
    {
        if left[k] != right[k] {
            proof {
                assert(rest[k - at] != other[k - at]);
            }
            return false;
        }
        k = k + 1;
    }
    proof {
        assert(rest =~= other);
    }
    true
}

/// Whether two values are equal.
pub(crate) fn are_values_equal(left: &Variant, right: &Variant) -> (equal: bool)
    ensures
        equal == values_equal(left@, right@),
{
    match (left, right) {
        (Variant::Opaque { kind, bytes }, Variant::Opaque { kind: other, bytes: others }) => kind.as_str().eq(
            other.as_str(),
        ) && are_bytes_equal(kind.as_str(), bytes.as_slice(), others.as_slice()),
        _ => left.same(right),
    }
}

} // verus!
